use vstd::prelude::*;
use vstd::string::{StrSliceExecFns, StringExecFns};

use crate::config::{BlobRef, ExternalBytes};
use crate::engine::{first_index_of, lemma_first_index_unique};
use crate::segments::chars_of;

verus! {

/// The command line: where the manifest is read from.
pub struct Args {
    pub config_location: ExternalBytes,
}

/// `s3://`.
pub open spec fn s3_scheme() -> Seq<char> {
    seq!['s', '3', ':', '/', '/']
}

/// The message of a bucket location without a bucket or a key.
pub open spec fn invalid_s3_message(rest: Seq<char>) -> Seq<char> {
    seq![
        'i', 'n', 'v', 'a', 'l', 'i', 'd', ' ', 's', '3', ' ', 'b', 'u', 'c', 'k', 'e', 't', ' ',
        'a', 'n', 'd', ' ', 'k', 'e', 'y', ' ', 'p', 'r', 'o', 'v', 'i', 'd', 'e', 'd', ':', ' '
    ] + rest
}

/// The location that a `--config` value names: `s3://bucket/key` is an object
/// (split at the first `/` after the scheme; both parts must be non-empty),
/// anything else a file path.
pub open spec fn location_of(config: Seq<char>) -> Result<BlobRef, Seq<char>> {
    if config.len() >= 5 && config.subrange(0, 5) == s3_scheme() {
        let rest = config.subrange(5, config.len() as int);
        let k = first_index_of(rest, '/');
        if 0 < k && k + 1 < rest.len() {
            Ok(BlobRef::S3 { bucket: rest.subrange(0, k), key: rest.subrange(k + 1, rest.len() as int) })
        } else {
            Err(invalid_s3_message(rest))
        }
    } else {
        Ok(BlobRef::Filesystem { path: config })
    }
}

impl Args {
    /// The arguments for a `--config` value; a bucket location without a
    /// bucket or a key
    /// is refused with `invalid s3 bucket and key provided: <rest>`.
    pub fn from_config_value(config: &str) -> (r: Result<Args, String>)
        ensures
            location_of(config@) is Ok <==> r is Ok,
            r is Ok ==> r->Ok_0.config_location@ == location_of(config@)->Ok_0,
            r is Err ==> r->Err_0@ == location_of(config@)->Err_0,
    {
        let chars = chars_of(config);
        let n = chars.len();
        let scheme = "s3://";
        proof {
            reveal_strlit("s3://");
            assert(scheme@ =~= s3_scheme());
        }
        let is_s3 = n >= 5 && crate::text::str_eq(config.substring_char(0, 5), scheme);
        if !is_s3 {
            return Ok(Args { config_location: ExternalBytes::Filesystem { path: config.to_owned() } });
        }
        let ghost rest = config@.subrange(5, n as int);
        let mut k: usize = 5;
        while k < n && chars[k] != '/'
            invariant
                chars@ == config@,
                n == chars@.len(),
                5 <= k <= n,
                forall|j: int| 5 <= j < k ==> chars@[j] != '/',
            decreases n - k,
        {
            k = k + 1;
        }
        proof {
            assert forall|j: int| 0 <= j < k - 5 implies rest[j] != '/' by {
                assert(rest[j] == config@[j + 5]);
            }
            if k < n {
                assert(rest[k - 5] == config@[k as int]);
            }
            lemma_first_index_unique(rest, '/', k - 5);
        }
        if 5 < k && k < n - 1 {
            let bucket = config.substring_char(5, k).to_owned();
            let key = config.substring_char(k + 1, n).to_owned();
            proof {
                assert(bucket@ =~= rest.subrange(0, k - 5));
                assert(key@ =~= rest.subrange(k - 5 + 1, rest.len() as int));
            }
            Ok(Args { config_location: ExternalBytes::S3 { bucket, key } })
        } else {
            let mut message = "invalid s3 bucket and key provided: ".to_owned();
            proof {
                reveal_strlit("invalid s3 bucket and key provided: ");
            }
            message.append(config.substring_char(5, n));
            assert(message@ =~= invalid_s3_message(rest));
            Err(message)
        }
    }
}

} // verus!
