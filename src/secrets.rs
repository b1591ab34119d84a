use vstd::prelude::*;
use vstd::slice::slice_to_vec;
use vstd::string::{StrSliceExecFns, StringExecFns, StringSliceAdditionalSpecFns};
use vstd::utf8::{decode_utf8, decode_utf8_encode_utf8, encode_utf8, valid_utf8};

use base64::Engine;
use rsa::pkcs8::DecodePrivateKey;
use rsa::{Pkcs1v15Encrypt, RsaPrivateKey};

use crate::segments::{
    find_replaceable_segments, pair_at, scan, segments_of, segments_view, strip_close, strip_open,
    Segment, SegmentView,
};

verus! {

#[verifier::external_type_specification]
#[verifier::external_body]
pub struct ExRsaPrivateKey(RsaPrivateKey);

#[verifier::external_type_specification]
#[verifier::external_body]
pub struct ExRsaError(rsa::Error);

#[verifier::external_type_specification]
#[verifier::external_body]
pub struct ExDecodeError(base64::DecodeError);

#[verifier::external_type_specification]
#[verifier::external_body]
pub struct ExPkcs8Error(rsa::pkcs8::Error);

/// Why a sealed value could not be opened.
#[derive(Clone, Copy, Debug, PartialEq, Eq, Structural)]
pub enum SecretError {
    /// A secret was found but no private key was given.
    NoKey,
    /// The payload is not base64, or the key could not decrypt it.
    Decrypt,
    /// The plaintext, or the content to unseal, is not UTF-8.
    BadUtf8,
    /// The private key could not be read.
    InvalidKey,
}

/// What the standard base64 alphabet, with padding, decodes `s` to; `None`
/// when `s` is not such an encoding.
pub uninterp spec fn base64_decoded(s: Seq<char>) -> Option<Seq<u8>>;

/// Relies on `base64::Engine::decode` with the standard alphabet and padding.
#[verifier::external_body]
fn base64_decode(value: &str) -> (r: Result<Vec<u8>, base64::DecodeError>)
    ensures
        r is Ok <==> base64_decoded(value@) is Some,
        r is Ok ==> r->Ok_0@ == base64_decoded(value@)->Some_0,
{
    let engine = base64::engine::GeneralPurpose::new(
        &base64::alphabet::STANDARD,
        base64::engine::GeneralPurposeConfig::new(),
    );
    engine.decode(value)
}

/// What PKCS#1 v1.5 decryption (without blinding) under `key` gives for
/// `ciphertext`; `None` when it fails.
pub uninterp spec fn pkcs1v15_plaintext(key: RsaPrivateKey, ciphertext: Seq<u8>) -> Option<Seq<u8>>;

/// The key that a PEM-encoded PKCS#8 document holds; `None` when it holds none.
pub uninterp spec fn pkcs8_pem_key(pem: Seq<char>) -> Option<RsaPrivateKey>;

/// Whether the components of `key` pass the crate's consistency checks.
pub uninterp spec fn rsa_key_valid(key: RsaPrivateKey) -> bool;

/// Relies on `RsaPrivateKey::decrypt` with PKCS#1 v1.5 padding and no
/// random source: the result depends on the key and the ciphertext alone.
#[verifier::external_body]
fn rsa_decrypt(key: &RsaPrivateKey, ciphertext: &[u8]) -> (r: Result<Vec<u8>, rsa::Error>)
    ensures
        r is Ok <==> pkcs1v15_plaintext(*key, ciphertext@) is Some,
        r is Ok ==> r->Ok_0@ == pkcs1v15_plaintext(*key, ciphertext@)->Some_0,
{
    key.decrypt(Pkcs1v15Encrypt, ciphertext)
}

/// Relies on `DecodePrivateKey::from_pkcs8_pem`: reads a PEM-encoded PKCS#8 key;
/// the result depends on the text alone.
#[verifier::external_body]
fn rsa_key_from_pem(pem: &str) -> (r: Result<RsaPrivateKey, rsa::pkcs8::Error>)
    ensures
        r is Ok <==> pkcs8_pem_key(pem@) is Some,
        r is Ok ==> r->Ok_0 == pkcs8_pem_key(pem@)->Some_0,
{
    RsaPrivateKey::from_pkcs8_pem(pem)
}

/// Relies on `RsaPrivateKey::validate`: checks the key's components; the
/// answer depends on the key alone.
#[verifier::external_body]
fn rsa_key_validate(key: &RsaPrivateKey) -> (r: Result<(), rsa::Error>)
    ensures
        r is Ok <==> rsa_key_valid(*key),
{
    key.validate()
}

/// Relies on `std::str::from_utf8`: the text that `bytes` encode, if they are
/// UTF-8.
#[verifier::external_body]
fn utf8_text(bytes: &[u8]) -> (r: Option<String>)
    ensures
        r is Some <==> valid_utf8(bytes@),
        r is Some ==> r->Some_0@ == decode_utf8(bytes@),
{
    std::str::from_utf8(bytes).ok().map(str::to_owned)
}

/// The text of a decrypted payload: refused when decryption failed or the
/// plaintext is not UTF-8.
pub fn plaintext_of(decrypted: Result<Vec<u8>, rsa::Error>) -> (r: Result<String, SecretError>)
    ensures
        decrypted is Err ==> r == Err::<String, SecretError>(SecretError::Decrypt),
        decrypted is Ok && !valid_utf8(decrypted->Ok_0@) ==> r == Err::<String, SecretError>(
            SecretError::BadUtf8,
        ),
        decrypted is Ok && valid_utf8(decrypted->Ok_0@) ==> r is Ok && r->Ok_0@ == decode_utf8(
            decrypted->Ok_0@,
        ),
{
    match decrypted {
        Err(_) => Err(SecretError::Decrypt),
        Ok(bytes) => match utf8_text(bytes.as_slice()) {
            Some(s) => Ok(s),
            None => Err(SecretError::BadUtf8),
        },
    }
}

/// The text that `bytes` encode, refused when they are not UTF-8.
pub open spec fn text_of(bytes: Seq<u8>) -> Result<Seq<char>, SecretError> {
    if valid_utf8(bytes) {
        Ok(decode_utf8(bytes))
    } else {
        Err(SecretError::BadUtf8)
    }
}

/// What a base64 payload opens to under `key`.
pub open spec fn opened(key: RsaPrivateKey, payload: Seq<char>) -> Result<Seq<char>, SecretError> {
    match base64_decoded(payload) {
        None => Err(SecretError::Decrypt),
        Some(c) => match pkcs1v15_plaintext(key, c) {
            None => Err(SecretError::Decrypt),
            Some(b) => text_of(b),
        },
    }
}

/// The characters of a text result.
pub open spec fn string_result(r: Result<String, SecretError>) -> Result<Seq<char>, SecretError> {
    match r {
        Ok(s) => Ok(s@),
        Err(e) => Err(e),
    }
}

/// The bytes of a blob result.
pub open spec fn bytes_result(r: Result<Vec<u8>, SecretError>) -> Result<Seq<u8>, SecretError> {
    match r {
        Ok(b) => Ok(b@),
        Err(e) => Err(e),
    }
}

pub open spec fn key_of(key: Option<&RsaPrivateKey>) -> Option<RsaPrivateKey> {
    match key {
        Some(k) => Some(*k),
        None => None,
    }
}

/// Decrypts a base64 payload with `key`: the payload is base64 of a PKCS#1
/// v1.5 ciphertext whose plaintext must be UTF-8.
pub fn decrypt(secret: &str, key: &RsaPrivateKey) -> (r: Result<String, SecretError>)
    ensures
        string_result(r) == opened(*key, secret@),
{
    match base64_decode(secret) {
        Err(_) => Err(SecretError::Decrypt),
        Ok(ciphertext) => plaintext_of(rsa_decrypt(key, ciphertext.as_slice())),
    }
}

/// Reads a PEM-encoded PKCS#8 RSA private key and checks it.
pub fn parse_private_key(bytes: &[u8]) -> (r: Result<RsaPrivateKey, SecretError>)
    ensures
        !valid_utf8(bytes@) ==> r is Err && r->Err_0 == SecretError::BadUtf8,
        valid_utf8(bytes@) ==> (r is Ok <==> (pkcs8_pem_key(decode_utf8(bytes@)) is Some
            && rsa_key_valid(pkcs8_pem_key(decode_utf8(bytes@))->Some_0))),
        r is Ok ==> r->Ok_0 == pkcs8_pem_key(decode_utf8(bytes@))->Some_0,
        r is Err ==> r->Err_0 == SecretError::BadUtf8 || r->Err_0 == SecretError::InvalidKey,
{
    match utf8_text(bytes) {
        None => Err(SecretError::BadUtf8),
        Some(pem) => match rsa_key_from_pem(pem.as_str()) {
            Err(_) => Err(SecretError::InvalidKey),
            Ok(key) => match rsa_key_validate(&key) {
                Err(_) => Err(SecretError::InvalidKey),
                Ok(()) => Ok(key),
            },
        },
    }
}

/// The prefix that marks a sealed environment value.
pub open spec fn secret_marker() -> Seq<char> {
    seq!['s', 'e', 'c', 'r', 'e', 't', ':']
}

/// The payload of a value that starts with `secret:`.
pub open spec fn secret_payload(s: Seq<char>) -> Option<Seq<char>> {
    if s.len() >= 7 && s.subrange(0, 7) == secret_marker() {
        Some(s.subrange(7, s.len() as int))
    } else {
        None
    }
}

fn strip_secret_marker(value: &str) -> (r: Option<&str>)
    ensures
        r is Some <==> secret_payload(value@) is Some,
        r is Some ==> r->Some_0@ == secret_payload(value@)->Some_0,
{
    let n = value.unicode_len();
    if n < 7 {
        return None;
    }
    let head = value.substring_char(0, 7);
    let marker = "secret:";
    proof {
        reveal_strlit("secret:");
        assert(marker@ =~= secret_marker());
    }
    if crate::text::str_eq(head, marker) {
        Some(value.substring_char(7, n))
    } else {
        None
    }
}

/// What an environment value opens to: a sealed one needs a key and is
/// replaced by the plaintext of its payload; any other is kept.
pub open spec fn unsealed(value: Seq<char>, key: Option<RsaPrivateKey>) -> Result<Seq<char>, SecretError> {
    match secret_payload(value) {
        None => Ok(value),
        Some(p) => match key {
            None => Err(SecretError::NoKey),
            Some(k) => opened(k, p),
        },
    }
}

/// Opens an environment value: one that starts with `secret:` is the base64
/// of an RSA ciphertext and is replaced by its plaintext; any other value is
/// kept as it is.
pub fn unseal_value(value: &str, key: Option<&RsaPrivateKey>) -> (r: Result<String, SecretError>)
    ensures
        string_result(r) == unsealed(value@, key_of(key)),
        secret_payload(value@) is None ==> r is Ok && r->Ok_0@ == value@,
        secret_payload(value@) is Some && key is None ==> r == Err::<String, SecretError>(
            SecretError::NoKey,
        ),
        secret_payload(value@) is Some && base64_decoded(secret_payload(value@)->Some_0) is None
            && key is Some ==> r == Err::<String, SecretError>(SecretError::Decrypt),
{
    match strip_secret_marker(value) {
        None => Ok(value.to_owned()),
        Some(payload) => match key {
            None => Err(SecretError::NoKey),
            Some(k) => decrypt(payload, k),
        },
    }
}

/// Whether any segment is a secret.
pub open spec fn has_secret(segs: Seq<SegmentView>) -> bool {
    exists|i: int| 0 <= i < segs.len() && #[trigger] segs[i] is Secret
}

/// How many segments are secrets.
pub open spec fn secret_count(segs: Seq<SegmentView>) -> nat
    decreases segs.len(),
{
    if segs.len() == 0 {
        0
    } else {
        secret_count(segs.drop_last()) + if segs.last() is Secret {
            1nat
        } else {
            0nat
        }
    }
}

/// The segments put back together, each secret replaced by the next of
/// `plain`.
pub open spec fn joined(segs: Seq<SegmentView>, plain: Seq<Seq<char>>) -> Seq<char>
    decreases segs.len(),
{
    if segs.len() == 0 {
        Seq::empty()
    } else {
        match segs.last() {
            SegmentView::Text(t) => joined(segs.drop_last(), plain) + t,
            SegmentView::Secret(_) => joined(segs.drop_last(), plain.drop_last()) + plain.last(),
        }
    }
}

/// Puts segments back together, each secret replaced by the next of `plain`.
pub fn join_segments(segments: &Vec<Segment>, plain: &Vec<String>) -> (r: String)
    requires
        plain@.len() == secret_count(segments_view(segments@)),
    ensures
        r@ == joined(segments_view(segments@), plain@.map_values(|p: String| p@)),
{
    let ghost sv = segments_view(segments@);
    let ghost pv = plain@.map_values(|p: String| p@);
    let mut out = String::new();
    let mut i: usize = 0;
    let mut k: usize = 0;
    let m = plain.len();
    while i < segments.len()
        invariant
            m == plain@.len(),
            sv == segments_view(segments@),
            pv == plain@.map_values(|p: String| p@),
            plain@.len() == secret_count(sv),
            i <= segments@.len(),
            k == secret_count(sv.subrange(0, i as int)),
            k <= plain@.len(),
            out@ == joined(sv.subrange(0, i as int), pv.subrange(0, k as int)),
        decreases segments@.len() - i,
    {
        let ghost pre = sv.subrange(0, i as int);
        let ghost post = sv.subrange(0, i + 1);
        assert(post.drop_last() =~= pre);
        proof {
            lemma_secret_count_prefix(sv, i as int);
        }
        match &segments[i] {
            Segment::Text(t) => {
                out.append(t.as_str());
            },
            Segment::Secret { .. } => {
                assert(k + 1 <= m);
                assert(pv.subrange(0, k + 1).drop_last() =~= pv.subrange(0, k as int));
                out.append(plain[k].as_str());
                k = k + 1;
            },
        }
        i = i + 1;
    }
    assert(sv.subrange(0, sv.len() as int) =~= sv);
    assert(pv.subrange(0, k as int) =~= pv);
    out
}

proof fn lemma_secret_count_prefix(s: Seq<SegmentView>, i: int)
    requires
        0 <= i < s.len(),
    ensures
        secret_count(s.subrange(0, i + 1)) <= secret_count(s),
        secret_count(s.subrange(0, i + 1)) == secret_count(s.subrange(0, i)) + if s[i] is Secret {
            1nat
        } else {
            0nat
        },
    decreases s.len() - i,
{
    assert(s.subrange(0, i + 1).drop_last() =~= s.subrange(0, i));
    if i + 1 < s.len() {
        lemma_secret_count_prefix(s, i + 1);
    } else {
        assert(s.subrange(0, i + 1) =~= s);
    }
}

proof fn lemma_scan_keeps_prefix(s: Seq<char>, i: int, start: int, acc: Seq<SegmentView>)
    ensures
        scan(s, i, start, acc).len() >= acc.len(),
        scan(s, i, start, acc).subrange(0, acc.len() as int) == acc,
    decreases s.len() - i,
{
    if i >= s.len() {
        if start < s.len() {
            assert(acc.push(SegmentView::Text(s.subrange(start, s.len() as int))).subrange(0, acc.len() as int) =~= acc);
        } else {
            assert(acc.subrange(0, acc.len() as int) =~= acc);
        }
    } else if pair_at(s, i, '{') {
        let acc2 = if start < i {
            acc.push(SegmentView::Text(s.subrange(start, i)))
        } else {
            acc
        };
        lemma_scan_keeps_prefix(s, i + 2, i, acc2);
        let r = scan(s, i, start, acc);
        assert(r.subrange(0, acc.len() as int) =~= r.subrange(0, acc2.len() as int).subrange(0, acc.len() as int));
        assert(acc2.subrange(0, acc.len() as int) =~= acc);
    } else if pair_at(s, i, '}') {
        let acc2 = acc.push(SegmentView::Secret(strip_close(strip_open(s.subrange(start, i + 2)))));
        lemma_scan_keeps_prefix(s, i + 2, i + 2, acc2);
        let r = scan(s, i, start, acc);
        assert(r.subrange(0, acc.len() as int) =~= r.subrange(0, acc2.len() as int).subrange(0, acc.len() as int));
        assert(acc2.subrange(0, acc.len() as int) =~= acc);
    } else {
        lemma_scan_keeps_prefix(s, i + 1, start, acc);
    }
}

proof fn lemma_scan_texts(s: Seq<char>, i: int, start: int, acc: Seq<SegmentView>)
    requires
        0 <= start <= i <= s.len(),
    ensures
        !has_secret(scan(s, i, start, acc)) ==> joined(scan(s, i, start, acc), Seq::empty())
            == joined(acc, Seq::empty()) + s.subrange(start, s.len() as int),
    decreases s.len() - i,
{
    let e = Seq::<Seq<char>>::empty();
    let r = scan(s, i, start, acc);
    if i >= s.len() {
        if start < s.len() {
            let t = s.subrange(start, s.len() as int);
            assert(acc.push(SegmentView::Text(t)).drop_last() =~= acc);
        } else {
            assert(s.subrange(start, s.len() as int) =~= Seq::<char>::empty());
            assert(joined(acc, e) + Seq::<char>::empty() =~= joined(acc, e));
        }
    } else if pair_at(s, i, '{') {
        let acc2 = if start < i {
            acc.push(SegmentView::Text(s.subrange(start, i)))
        } else {
            acc
        };
        lemma_scan_texts(s, i + 2, i, acc2);
        if !has_secret(r) {
            if start < i {
                assert(acc2.drop_last() =~= acc);
                assert(joined(acc2, e) == joined(acc, e) + s.subrange(start, i));
            }
            assert(s.subrange(start, i) + s.subrange(i, s.len() as int) =~= s.subrange(start, s.len() as int));
            assert(s.subrange(start, start) =~= Seq::<char>::empty());
            assert(joined(acc, e) + s.subrange(start, start) =~= joined(acc, e));
        }
    } else if pair_at(s, i, '}') {
        let acc2 = acc.push(SegmentView::Secret(strip_close(strip_open(s.subrange(start, i + 2)))));
        lemma_scan_keeps_prefix(s, i + 2, i + 2, acc2);
        assert(r[acc.len() as int] == acc2[acc.len() as int]);
        assert(r[acc.len() as int] is Secret);
    } else {
        lemma_scan_texts(s, i + 1, start, acc);
    }
}

/// Content without secret markers comes back unchanged: its text segments
/// put back together are the content itself.
pub proof fn lemma_unmarked_content_unchanged(b: Seq<u8>)
    requires
        valid_utf8(b),
        !has_secret(segments_of(decode_utf8(b))),
    ensures
        encode_utf8(joined(segments_of(decode_utf8(b)), Seq::empty())) == b,
{
    let s = decode_utf8(b);
    lemma_scan_texts(s, 0, 0, Seq::empty());
    assert(joined(Seq::<SegmentView>::empty(), Seq::<Seq<char>>::empty()) + s.subrange(0, s.len() as int) =~= s);
    decode_utf8_encode_utf8(b);
}

/// The plaintexts of the secret segments under `key`, in order; the error of
/// the first one that does not open.
pub open spec fn open_secrets(key: RsaPrivateKey, segs: Seq<SegmentView>) -> Result<Seq<Seq<char>>, SecretError>
    decreases segs.len(),
{
    if segs.len() == 0 {
        Ok(Seq::empty())
    } else {
        match open_secrets(key, segs.drop_last()) {
            Err(e) => Err(e),
            Ok(ps) => match segs.last() {
                SegmentView::Text(_) => Ok(ps),
                SegmentView::Secret(p) => match opened(key, p) {
                    Ok(t) => Ok(ps.push(t)),
                    Err(e) => Err(e),
                },
            },
        }
    }
}

/// What unsealing a blob gives. Content that is not UTF-8 passes without a
/// key and is refused with one. Otherwise a secret without a key is refused,
/// and with a key every secret is replaced by its plaintext.
pub open spec fn unsealed_blob(content: Seq<u8>, key: Option<RsaPrivateKey>) -> Result<Seq<u8>, SecretError> {
    if !valid_utf8(content) {
        match key {
            None => Ok(content),
            Some(_) => Err(SecretError::BadUtf8),
        }
    } else {
        let segs = segments_of(decode_utf8(content));
        match key {
            None => if has_secret(segs) {
                Err(SecretError::NoKey)
            } else {
                Ok(content)
            },
            Some(k) => match open_secrets(k, segs) {
                Err(e) => Err(e),
                Ok(ps) => Ok(encode_utf8(joined(segs, ps))),
            },
        }
    }
}

/// No `}}` pair occurs in `s`.
pub open spec fn has_no_close_marker(s: Seq<char>) -> bool {
    forall|i: int| !#[trigger] pair_at(s, i, '}')
}

proof fn lemma_open_secrets_err(key: RsaPrivateKey, segs: Seq<SegmentView>, i: int)
    requires
        0 <= i <= segs.len(),
        open_secrets(key, segs.subrange(0, i)) is Err,
    ensures
        open_secrets(key, segs) == open_secrets(key, segs.subrange(0, i)),
    decreases segs.len() - i,
{
    if i == segs.len() {
        assert(segs.subrange(0, i) =~= segs);
    } else {
        assert(segs.subrange(0, i + 1).drop_last() =~= segs.subrange(0, i));
        lemma_open_secrets_err(key, segs, i + 1);
    }
}

proof fn lemma_open_no_secrets(key: RsaPrivateKey, segs: Seq<SegmentView>)
    requires
        !has_secret(segs),
    ensures
        open_secrets(key, segs) == Ok::<Seq<Seq<char>>, SecretError>(Seq::empty()),
    decreases segs.len(),
{
    if segs.len() > 0 {
        assert(segs.last() == segs[segs.len() - 1]);
        assert forall|i: int| 0 <= i < segs.drop_last().len() implies !(#[trigger] segs.drop_last()[i] is Secret) by {
            assert(segs.drop_last()[i] == segs[i]);
        }
        lemma_open_no_secrets(key, segs.drop_last());
    }
}

proof fn lemma_scan_no_secret(s: Seq<char>, i: int, start: int, acc: Seq<SegmentView>)
    requires
        !has_secret(acc),
        has_no_close_marker(s),
    ensures
        !has_secret(scan(s, i, start, acc)),
    decreases s.len() - i,
{
    if i >= s.len() {
        if start < s.len() {
            let r = acc.push(SegmentView::Text(s.subrange(start, s.len() as int)));
            assert forall|k: int| 0 <= k < r.len() implies !(#[trigger] r[k] is Secret) by {
                if k < acc.len() {
                    assert(r[k] == acc[k]);
                }
            }
        }
    } else if pair_at(s, i, '{') {
        let acc2 = if start < i {
            acc.push(SegmentView::Text(s.subrange(start, i)))
        } else {
            acc
        };
        assert forall|k: int| 0 <= k < acc2.len() implies !(#[trigger] acc2[k] is Secret) by {
            if k < acc.len() {
                assert(acc2[k] == acc[k]);
            }
        }
        lemma_scan_no_secret(s, i + 2, i, acc2);
    } else if pair_at(s, i, '}') {
        assert(!pair_at(s, i, '}'));
    } else {
        lemma_scan_no_secret(s, i + 1, start, acc);
    }
}

/// Content without a `}}` pair holds no secret segment, and its segments put
/// back together are the content itself: unsealing leaves it unchanged.
pub proof fn lemma_unmarked_blob_unchanged(b: Seq<u8>)
    requires
        valid_utf8(b),
        has_no_close_marker(decode_utf8(b)),
    ensures
        !has_secret(segments_of(decode_utf8(b))),
        encode_utf8(joined(segments_of(decode_utf8(b)), Seq::empty())) == b,
{
    lemma_scan_no_secret(decode_utf8(b), 0, 0, Seq::empty());
    lemma_unmarked_content_unchanged(b);
}

/// Unseals a blob. Content that is not UTF-8 is returned as it is without a
/// key and refused with one. Otherwise each `{{ payload }}` marker is
/// replaced by the plaintext of its payload and the text around the markers
/// is kept; a marker without a key is refused.
pub fn decrypt_content(content: &[u8], private_key: Option<&RsaPrivateKey>) -> (r: Result<Vec<u8>, SecretError>)
    ensures
        bytes_result(r) == unsealed_blob(content@, key_of(private_key)),
        (!valid_utf8(content@) && private_key is None) || (valid_utf8(content@)
            && has_no_close_marker(decode_utf8(content@))) ==> r is Ok && r->Ok_0@ == content@,
{
    let text = match utf8_text(content) {
        None => {
            return match private_key {
                None => Ok(slice_to_vec(content)),
                Some(_) => Err(SecretError::BadUtf8),
            };
        },
        Some(t) => t,
    };
    let segments = find_replaceable_segments(text.as_str());
    let ghost sv = segments_view(segments@);
    proof {
        if has_no_close_marker(decode_utf8(content@)) {
            lemma_unmarked_blob_unchanged(content@);
        }
    }
    let key = match private_key {
        None => {
            let mut i: usize = 0;
            while i < segments.len()
                invariant
                    sv == segments_view(segments@),
                    sv == segments_of(text@),
                    private_key is None,
                    valid_utf8(content@),
                    text@ == decode_utf8(content@),
                    has_no_close_marker(decode_utf8(content@)) ==> !has_secret(sv),
                    i <= segments@.len(),
                    forall|j: int| 0 <= j < i ==> !(#[trigger] sv[j] is Secret),
                decreases segments@.len() - i,
            {
                if let Segment::Secret { .. } = &segments[i] {
                    assert(sv[i as int] is Secret);
                    return Err(SecretError::NoKey);
                }
                i = i + 1;
            }
            return Ok(slice_to_vec(content));
        },
        Some(k) => k,
    };
    let mut plain: Vec<String> = Vec::new();
    let mut i: usize = 0;
    assert(sv.subrange(0, 0) =~= Seq::<SegmentView>::empty());
    assert(plain@.map_values(|p: String| p@) =~= Seq::<Seq<char>>::empty());
    while i < segments.len()
        invariant
            sv == segments_view(segments@),
            sv == segments_of(text@),
            private_key == Some(key),
            valid_utf8(content@),
            text@ == decode_utf8(content@),
            has_no_close_marker(decode_utf8(content@)) ==> !has_secret(sv),
            i <= segments@.len(),
            plain@.len() == secret_count(sv.subrange(0, i as int)),
            open_secrets(*key, sv.subrange(0, i as int)) == Ok::<Seq<Seq<char>>, SecretError>(
                plain@.map_values(|p: String| p@),
            ),
        decreases segments@.len() - i,
    {
        proof {
            lemma_secret_count_prefix(sv, i as int);
        }
        let ghost prev = plain@;
        assert(sv.subrange(0, i + 1).drop_last() =~= sv.subrange(0, i as int));
        assert(sv.subrange(0, i + 1).last() == sv[i as int]);
        match &segments[i] {
            Segment::Text(_) => {},
            Segment::Secret { encrypted } => {
                assert(sv[i as int] == SegmentView::Secret(encrypted@));
                match decrypt(encrypted.as_str(), key) {
                    Ok(p) => {
                        plain.push(p);
                        assert(plain@.map_values(|p: String| p@) =~= prev.map_values(|p: String| p@).push(p@));
                    },
                    Err(e) => {
                        proof {
                            lemma_open_secrets_err(*key, sv, i + 1);
                        }
                        return Err(e);
                    },
                }
            },
        }
        i = i + 1;
    }
    assert(sv.subrange(0, sv.len() as int) =~= sv);
    let out = join_segments(&segments, &plain);
    let bytes = out.as_str().as_bytes_vec();
    proof {
        if has_no_close_marker(decode_utf8(content@)) {
            lemma_open_no_secrets(*key, sv);
            assert(plain@.map_values(|p: String| p@) =~= Seq::<Seq<char>>::empty());
        }
    }
    Ok(bytes)
}

} // verus!
