use vstd::prelude::*;
use vstd::string::{StringExecFns, StringSliceAdditionalSpecFns};

use crate::net::Ipv4Address;
use crate::registry::{details_view, is_best, is_candidate, ServiceRegistry};
use crate::segments::chars_of;
use crate::text::str_eq;

verus! {

/// What the proxy does with a request.
#[derive(Debug, PartialEq, Eq, Structural, Clone, Copy)]
pub enum ProxyAction {
    /// Ask for a reconciliation pass and answer 200.
    Reconcile,
    /// Ask for the certificates to be read again and answer 200.
    UpdateCertificates,
    /// An administrative request without the right bearer token: 403.
    Forbidden,
    /// The request names no host: 400.
    BadRequest,
    /// No route serves the request, or its service has no container: 404.
    NotFound,
    /// Forward the request to this container and port.
    Forward { addr: Ipv4Address, port: u16 },
}

/// The path that asks for the certificates to be read again.
pub open spec fn certificates_path() -> Seq<char> {
    seq!['/', 'c', 'e', 'r', 't', 'i', 'f', 'i', 'c', 'a', 't', 'e', 's']
}

/// `Bearer <passphrase>`.
pub open spec fn bearer_of(passphrase: Seq<char>) -> Seq<char> {
    seq!['B', 'e', 'a', 'r', 'e', 'r', ' '] + passphrase
}

/// The request carries the administrative passphrase as its bearer token.
pub open spec fn is_authorized(authorization: Option<&str>, passphrase: Option<&str>) -> bool {
    authorization is Some && passphrase is Some && authorization->Some_0@ == bearer_of(
        passphrase->Some_0@,
    )
}

/// Whether `authorization` is `Bearer <passphrase>`; never without a passphrase.
pub fn check_bearer(authorization: Option<&str>, passphrase: Option<&str>) -> (r: bool)
    ensures
        r == is_authorized(authorization, passphrase),
{
    match (authorization, passphrase) {
        (Some(a), Some(p)) => {
            let mut expected = "Bearer ".to_owned();
            proof {
                reveal_strlit("Bearer ");
                assert("Bearer "@ =~= seq!['B', 'e', 'a', 'r', 'e', 'r', ' ']);
            }
            expected.append(p);
            str_eq(a, expected.as_str())
        },
        _ => false,
    }
}

/// The decision for one request. A `PUT` on the reconciliation path or on
/// `/certificates` is administrative: with the right bearer token it asks for
/// that work, else it is forbidden. Any other request is routed by host and
/// path; `draw` picks among the chosen service's containers, modulo their
/// number.
pub fn route_request(
    registry: &ServiceRegistry,
    is_put: bool,
    path: &str,
    reconciliation_path: &str,
    authorization: Option<&str>,
    passphrase: Option<&str>,
    host: Option<&str>,
    draw: u32,
) -> (r: ProxyAction)
    requires
        registry.wf(),
    ensures
        is_put && path@ == reconciliation_path@ ==> r == (if is_authorized(authorization, passphrase) {
            ProxyAction::Reconcile
        } else {
            ProxyAction::Forbidden
        }),
        is_put && path@ != reconciliation_path@ && path@ == certificates_path() ==> r == (
        if is_authorized(authorization, passphrase) {
            ProxyAction::UpdateCertificates
        } else {
            ProxyAction::Forbidden
        }),
        !(is_put && (path@ == reconciliation_path@ || path@ == certificates_path())) ==> {
            &&& host is None ==> r == ProxyAction::BadRequest
            &&& host is Some ==> (r is Forward || r == ProxyAction::NotFound)
            &&& host is Some && (exists|i: int, j: int|
                is_candidate(registry.entries_view(), host->Some_0@, i, j)) ==> (exists|i: int, j: int|
                is_best(registry.entries_view(), host->Some_0@, path.spec_bytes(), i, j))
            &&& host is Some && (forall|i: int, j: int|
                !is_candidate(registry.entries_view(), host->Some_0@, i, j)) ==> r == ProxyAction::NotFound
            &&& host is Some ==> forall|i: int, j: int|
                #[trigger] is_best(registry.entries_view(), host->Some_0@, path.spec_bytes(), i, j) ==> {
                    let b = registry.entries_view()[i].backends;
                    if b is Some && b->Some_0.len() > 0 {
                        r == ProxyAction::Forward {
                            addr: b->Some_0[draw as int % b->Some_0.len() as int].1,
                            port: registry.entries_view()[i].definition.routes[j].port,
                        }
                    } else {
                        r == ProxyAction::NotFound
                    }
                }
        },
{
    if is_put {
        if str_eq(path, reconciliation_path) {
            return if check_bearer(authorization, passphrase) {
                ProxyAction::Reconcile
            } else {
                ProxyAction::Forbidden
            };
        }
        let certificates = "/certificates";
        proof {
            reveal_strlit("/certificates");
            assert(certificates@ =~= certificates_path());
        }
        if str_eq(path, certificates) {
            return if check_bearer(authorization, passphrase) {
                ProxyAction::UpdateCertificates
            } else {
                ProxyAction::Forbidden
            };
        }
    }
    let host = match host {
        None => {
            return ProxyAction::BadRequest;
        },
        Some(h) => h,
    };
    match registry.find_downstreams(host, path) {
        None => ProxyAction::NotFound,
        Some((backends, port)) => {
            let k = (draw as usize) % backends.len();
            proof {
                assert(details_view(backends@)[k as int] == backends@[k as int]@);
            }
            ProxyAction::Forward { addr: backends[k].addr, port }
        },
    }
}

/// The comma-separated items of a header value.
pub open spec fn split_commas(s: Seq<char>) -> Seq<Seq<char>>
    decreases s.len(),
{
    if s.len() == 0 {
        seq![Seq::empty()]
    } else if s.last() == ',' {
        split_commas(s.drop_last()).push(Seq::empty())
    } else {
        let t = split_commas(s.drop_last());
        t.update(t.len() - 1, t.last().push(s.last()))
    }
}

pub open spec fn is_space(c: char) -> bool {
    c == ' ' || c == '\t'
}

/// `s` without leading blanks.
pub open spec fn trim_start(s: Seq<char>) -> Seq<char>
    decreases s.len(),
{
    if s.len() > 0 && is_space(s[0]) {
        trim_start(s.drop_first())
    } else {
        s
    }
}

/// `s` without trailing blanks.
pub open spec fn trim_end(s: Seq<char>) -> Seq<char>
    decreases s.len(),
{
    if s.len() > 0 && is_space(s.last()) {
        trim_end(s.drop_last())
    } else {
        s
    }
}

/// Two characters that are equal once ASCII letters are lowercased.
pub open spec fn same_letter(a: char, b: char) -> bool {
    a == b || ('A' <= a <= 'Z' && a as u32 + 32 == b as u32) || ('A' <= b <= 'Z' && b as u32 + 32
        == a as u32)
}

/// Equal but for the case of ASCII letters.
pub open spec fn eq_ignore_ascii_case(a: Seq<char>, b: Seq<char>) -> bool {
    a.len() == b.len() && forall|i: int| 0 <= i < a.len() ==> #[trigger] same_letter(a[i], b[i])
}

/// The `connection` header value names the header `name` as hop-by-hop.
pub open spec fn names_header(connection: Seq<char>, name: Seq<char>) -> bool {
    exists|k: int|
        0 <= k < split_commas(connection).len() && #[trigger] eq_ignore_ascii_case(
            trim_end(trim_start(split_commas(connection)[k])),
            name,
        )
}

pub open spec fn connection_name() -> Seq<char> {
    seq!['c', 'o', 'n', 'n', 'e', 'c', 't', 'i', 'o', 'n']
}

fn same_letter_exec(a: char, b: char) -> (r: bool)
    ensures
        r == same_letter(a, b),
{
    a == b || ('A' <= a && a <= 'Z' && (a as u32) + 32 == (b as u32)) || ('A' <= b && b <= 'Z'
        && (b as u32) + 32 == (a as u32))
}

/// Whether `chars[a..b]`, trimmed of blanks, is `name` but for case.
fn token_names(chars: &Vec<char>, a: usize, b: usize, name: &Vec<char>) -> (r: bool)
    requires
        a <= b <= chars@.len(),
    ensures
        r == eq_ignore_ascii_case(trim_end(trim_start(chars@.subrange(a as int, b as int))), name@),
{
    let mut x = a;
    while x < b && (chars[x] == ' ' || chars[x] == '\t')
        invariant
            a <= x <= b <= chars@.len(),
            trim_start(chars@.subrange(x as int, b as int)) == trim_start(
                chars@.subrange(a as int, b as int),
            ),
        decreases b - x,
    {
        assert(chars@.subrange(x + 1, b as int) =~= chars@.subrange(x as int, b as int).drop_first());
        x = x + 1;
    }
    let ghost ts = chars@.subrange(x as int, b as int);
    assert(trim_start(ts) == ts);
    let mut y = b;
    while y > x && (chars[y - 1] == ' ' || chars[y - 1] == '\t')
        invariant
            a <= x <= y <= b <= chars@.len(),
            trim_end(chars@.subrange(x as int, y as int)) == trim_end(ts),
        decreases y - x,
    {
        assert(chars@.subrange(x as int, y - 1) =~= chars@.subrange(x as int, y as int).drop_last());
        y = y - 1;
    }
    let ghost t = chars@.subrange(x as int, y as int);
    assert(trim_end(t) == t);
    assert(trim_end(trim_start(chars@.subrange(a as int, b as int))) == t);
    if y - x != name.len() {
        return false;
    }
    let mut i: usize = 0;
    while i < name.len()
        invariant
            t == chars@.subrange(x as int, y as int),
            trim_end(trim_start(chars@.subrange(a as int, b as int))) == t,
            a <= b <= chars@.len(),
            y - x == name@.len(),
            x <= y <= chars@.len(),
            i <= name@.len(),
            forall|j: int| 0 <= j < i ==> #[trigger] same_letter(t[j], name@[j]),
        decreases name@.len() - i,
    {
        if !same_letter_exec(chars[x + i], name[i]) {
            assert(t[i as int] == chars@[x + i]);
            assert(!same_letter(t[i as int], name@[i as int]));
            return false;
        }
        i = i + 1;
    }
    true
}

/// Whether the `connection` header value names the header `name`.
pub fn connection_names(connection: &str, name: &str) -> (r: bool)
    ensures
        r == names_header(connection@, name@),
{
    let chars = chars_of(connection);
    let wanted = chars_of(name);
    let n = chars.len();
    let ghost v = connection@;
    let ghost mut done: Seq<Seq<char>> = Seq::empty();
    let mut start: usize = 0;
    let mut i: usize = 0;
    assert(v.subrange(0, 0) =~= Seq::<char>::empty());
    assert(split_commas(v.subrange(0, 0)) =~= done.push(v.subrange(0, 0)));
    while i < n
        invariant
            v == connection@,
            chars@ == v,
            wanted@ == name@,
            n == v.len(),
            start <= i <= n,
            split_commas(v.subrange(0, i as int)) == done.push(v.subrange(start as int, i as int)),
            forall|k: int|
                0 <= k < done.len() ==> !#[trigger] eq_ignore_ascii_case(
                    trim_end(trim_start(done[k])),
                    name@,
                ),
        decreases n - i,
    {
        assert(v.subrange(0, i + 1).drop_last() =~= v.subrange(0, i as int));
        if chars[i] == ',' {
            if token_names(&chars, start, i, &wanted) {
                proof {
                    let t = split_commas(v.subrange(0, i as int));
                    assert(split_commas(v) == split_commas(v.subrange(0, n as int))) by {
                        assert(v.subrange(0, n as int) =~= v);
                    }
                    lemma_split_prefix(v, i as int);
                    assert(t[done.len() as int] == v.subrange(start as int, i as int));
                    assert(chars@.subrange(start as int, i as int) == v.subrange(start as int, i as int));
                    assert(split_commas(v)[done.len() as int] == t[done.len() as int]);
                    assert(eq_ignore_ascii_case(trim_end(trim_start(split_commas(v)[done.len() as int])), name@));
                    assert(t.len() == done.len() + 1);
                    let k = done.len() as int;
                    assert(0 <= k < split_commas(connection@).len() && eq_ignore_ascii_case(
                        trim_end(trim_start(split_commas(connection@)[k])),
                        name@,
                    ));
                    assert(names_header(connection@, name@));
                }
                return true;
            }
            proof {
                done = done.push(v.subrange(start as int, i as int));
                assert(v.subrange(i + 1, i + 1) =~= Seq::<char>::empty());
                assert(split_commas(v.subrange(0, i + 1)) =~= done.push(v.subrange(i + 1, i + 1)));
            }
            start = i + 1;
        } else {
            proof {
                assert(v.subrange(start as int, i + 1) =~= v.subrange(start as int, i as int).push(v[i as int]));
                assert(split_commas(v.subrange(0, i + 1)) =~= done.push(v.subrange(start as int, i + 1)));
            }
        }
        i = i + 1;
    }
    assert(v.subrange(0, n as int) =~= v);
    let last = token_names(&chars, start, n, &wanted);
    proof {
        let s = split_commas(v);
        if last {
            assert(eq_ignore_ascii_case(trim_end(trim_start(s[done.len() as int])), name@));
        } else {
            assert forall|k: int| 0 <= k < s.len() implies !#[trigger] eq_ignore_ascii_case(
                trim_end(trim_start(s[k])),
                name@,
            ) by {
                if k < done.len() {
                    assert(s[k] == done[k]);
                }
            }
        }
    }
    last
}

/// Splitting a longer value keeps the items of a prefix, but for the last,
/// which may grow.
proof fn lemma_split_prefix(v: Seq<char>, i: int)
    requires
        0 <= i <= v.len(),
        i < v.len() ==> v[i] == ',',
    ensures
        split_commas(v).len() >= split_commas(v.subrange(0, i)).len(),
        forall|k: int|
            0 <= k < split_commas(v.subrange(0, i)).len() ==> #[trigger] split_commas(v)[k]
                == split_commas(v.subrange(0, i))[k],
    decreases v.len() - i,
{
    if i == v.len() {
        assert(v.subrange(0, i) =~= v);
    } else {
        lemma_split_prefix_any(v, i + 1);
        assert(v.subrange(0, i + 1).drop_last() =~= v.subrange(0, i));
    }
}

/// Splitting a longer value keeps every item of a prefix but the last.
proof fn lemma_split_prefix_any(v: Seq<char>, i: int)
    requires
        0 < i <= v.len(),
        v[i - 1] == ',',
    ensures
        split_commas(v).len() >= split_commas(v.subrange(0, i)).len(),
        forall|k: int|
            0 <= k < split_commas(v.subrange(0, i)).len() - 1 ==> #[trigger] split_commas(v)[k]
                == split_commas(v.subrange(0, i))[k],
        split_commas(v.subrange(0, i - 1)).len() + 1 == split_commas(v.subrange(0, i)).len(),
        forall|k: int|
            0 <= k < split_commas(v.subrange(0, i - 1)).len() ==> #[trigger] split_commas(v)[k]
                == split_commas(v.subrange(0, i - 1))[k],
    decreases v.len() - i,
{
    assert(v.subrange(0, i).drop_last() =~= v.subrange(0, i - 1));
    lemma_split_grows(v, i);
}

/// The items of `split_commas(v[0..i])` other than the last are items of
/// `split_commas(v)` at the same positions, and the last is a prefix of its
/// counterpart.
proof fn lemma_split_grows(v: Seq<char>, i: int)
    requires
        0 <= i <= v.len(),
    ensures
        split_commas(v).len() >= split_commas(v.subrange(0, i)).len(),
        forall|k: int|
            0 <= k < split_commas(v.subrange(0, i)).len() - 1 ==> #[trigger] split_commas(v)[k]
                == split_commas(v.subrange(0, i))[k],
    decreases v.len() - i,
{
    if i == v.len() {
        assert(v.subrange(0, i) =~= v);
    } else {
        lemma_split_grows(v, i + 1);
        let a = split_commas(v.subrange(0, i));
        let b = split_commas(v.subrange(0, i + 1));
        assert(v.subrange(0, i + 1).drop_last() =~= v.subrange(0, i));
        assert(v.subrange(0, i + 1).last() == v[i]);
    }
}

/// Whether a request header is passed on upstream: pseudo-headers,
/// `connection` and the headers that the `connection` value names are not.
pub fn should_forward_header(name: &str, connection: Option<&str>) -> (r: bool)
    ensures
        r == !((name@.len() > 0 && name@[0] == ':') || eq_ignore_ascii_case(name@, connection_name())
            || (connection is Some && names_header(connection->Some_0@, name@))),
{
    let chars = chars_of(name);
    if chars.len() > 0 && chars[0] == ':' {
        return false;
    }
    let mut lower_connection = chars_of("connection");
    proof {
        reveal_strlit("connection");
        assert("connection"@ =~= connection_name());
    }
    if chars.len() == 10 {
        let mut i: usize = 0;
        let mut same = true;
        while i < 10
            invariant
                chars@ == name@,
                chars@.len() == 10,
                lower_connection@ == connection_name(),
                i <= 10,
                same == forall|j: int| 0 <= j < i ==> #[trigger] same_letter(name@[j], connection_name()[j]),
            decreases 10 - i,
        {
            same = same && same_letter_exec(chars[i], lower_connection[i]);
            i = i + 1;
        }
        if same {
            return false;
        }
    }
    match connection {
        None => true,
        Some(c) => !connection_names(c, name),
    }
}

/// The decimal digits of `n`.
pub open spec fn decimal_of(n: nat) -> Seq<char>
    decreases n,
{
    if n < 10 {
        seq![digit_char(n)]
    } else {
        decimal_of(n / 10) + seq![digit_char(n % 10)]
    }
}

pub open spec fn digit_char(d: nat) -> char {
    if d == 0 { '0' } else if d == 1 { '1' } else if d == 2 { '2' } else if d == 3 { '3' } else if d == 4 { '4' } else if d == 5 { '5' } else if d == 6 { '6' } else if d == 7 { '7' } else if d == 8 { '8' } else { '9' }
}

fn digit_str(d: u32) -> (r: &'static str)
    requires
        d < 10,
    ensures
        r@ == seq![digit_char(d as nat)],
{
    proof {
        reveal_strlit("0");
        reveal_strlit("1");
        reveal_strlit("2");
        reveal_strlit("3");
        reveal_strlit("4");
        reveal_strlit("5");
        reveal_strlit("6");
        reveal_strlit("7");
        reveal_strlit("8");
        reveal_strlit("9");
    }
    if d == 0 { "0" } else if d == 1 { "1" } else if d == 2 { "2" } else if d == 3 { "3" } else if d == 4 { "4" } else if d == 5 { "5" } else if d == 6 { "6" } else if d == 7 { "7" } else if d == 8 { "8" } else { "9" }
}

/// `n` in decimal.
pub fn decimal(n: u32) -> (r: String)
    ensures
        r@ == decimal_of(n as nat),
    decreases n,
{
    if n < 10 {
        digit_str(n).to_owned()
    } else {
        let mut s = decimal(n / 10);
        s.append(digit_str(n % 10));
        s
    }
}

/// `http://a.b.c.d:port` followed by the path and query.
pub open spec fn target_uri_of(addr: Ipv4Address, port: u16, path_and_query: Seq<char>) -> Seq<char> {
    seq!['h', 't', 't', 'p', ':', '/', '/'] + decimal_of(addr.0 as nat) + seq!['.'] + decimal_of(
        addr.1 as nat,
    ) + seq!['.'] + decimal_of(addr.2 as nat) + seq!['.'] + decimal_of(addr.3 as nat) + seq![':']
        + decimal_of(port as nat) + path_and_query
}

/// The address a request is forwarded to, over plain HTTP/1.1.
pub fn target_uri(addr: Ipv4Address, port: u16, path_and_query: &str) -> (r: String)
    ensures
        r@ == target_uri_of(addr, port, path_and_query@),
{
    let scheme = "http://";
    let dot = ".";
    let colon = ":";
    proof {
        reveal_strlit("http://");
        reveal_strlit(".");
        reveal_strlit(":");
    }
    let mut s = scheme.to_owned();
    s.append(decimal(addr.0 as u32).as_str());
    s.append(dot);
    s.append(decimal(addr.1 as u32).as_str());
    s.append(dot);
    s.append(decimal(addr.2 as u32).as_str());
    s.append(dot);
    s.append(decimal(addr.3 as u32).as_str());
    s.append(colon);
    s.append(decimal(port as u32).as_str());
    s.append(path_and_query);
    s
}

/// The protocol version of a client's request.
#[derive(Clone, Copy, Debug, PartialEq, Eq, Structural)]
pub enum HttpVersion {
    Http10,
    Http11,
    Http2,
    Http3,
}

/// The host a request is for: the `Host` header under HTTP/1.1, the
/// authority under HTTP/2, none under other versions.
pub fn request_host<'a>(version: HttpVersion, host_header: Option<&'a str>, authority: Option<&'a str>) -> (r: Option<&'a str>)
    ensures
        r == (match version {
            HttpVersion::Http11 => host_header,
            HttpVersion::Http2 => authority,
            _ => None,
        }),
{
    match version {
        HttpVersion::Http11 => host_header,
        HttpVersion::Http2 => authority,
        _ => None,
    }
}

} // verus!
