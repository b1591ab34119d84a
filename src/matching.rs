use vstd::prelude::*;
use vstd::string::StringSliceAdditionalSpecFns;

verus! {

/// How far a path is from a route's prefix, measured in bytes of the path that
/// are left once the prefix is removed. A missing prefix matches every path and
/// leaves all of it; a prefix that does not match is as far as can be.
pub open spec fn match_length(path: Seq<u8>, prefix: Option<Seq<u8>>) -> int {
    match prefix {
        None => path.len() as int,
        Some(p) => if p.is_prefix_of(path) {
            path.len() - p.len()
        } else {
            usize::MAX as int
        },
    }
}

/// The bytes of an optional string.
pub open spec fn opt_bytes(prefix: Option<&str>) -> Option<Seq<u8>> {
    match prefix {
        None => None,
        Some(p) => Some(p.spec_bytes()),
    }
}

/// Whether `prefix` starts `path`, byte for byte.
fn starts_with_bytes(path: &[u8], prefix: &[u8]) -> (r: bool)
    ensures
        r == prefix@.is_prefix_of(path@),
{
    if prefix.len() > path.len() {
        return false;
    }
    let mut i: usize = 0;
    while i < prefix.len()
        invariant
            prefix@.len() <= path@.len(),
            i <= prefix@.len(),
            forall|j: int| 0 <= j < i ==> prefix@[j] == path@[j],
        decreases prefix@.len() - i,
    {
        if prefix[i] != path[i] {
            return false;
        }
        i = i + 1;
    }
    true
}

/// The match length of `path` against an optional route prefix.
pub fn compute_path_prefix_match(path: &str, prefix: Option<&str>) -> (r: usize)
    ensures
        r as int == match_length(path.spec_bytes(), opt_bytes(prefix)),
{
    match prefix {
        None => path.as_bytes().len(),
        Some(p) => {
            let pb = p.as_bytes();
            let bytes = path.as_bytes();
            if starts_with_bytes(bytes, pb) {
                bytes.len() - pb.len()
            } else {
                usize::MAX
            }
        },
    }
}

/// A path together with the prefix it is matched against.
pub struct PathMatchCalculator<'a> {
    pub path: &'a str,
    pub prefix: Option<&'a str>,
}

impl<'a> PathMatchCalculator<'a> {
    pub fn new(path: &'a str, prefix: Option<&'a str>) -> (r: Self)
        ensures
            r.path == path,
            r.prefix == prefix,
    {
        PathMatchCalculator { path, prefix }
    }

    pub fn compute_match_length(&self) -> (r: usize)
        ensures
            r as int == match_length(self.path.spec_bytes(), opt_bytes(self.prefix)),
    {
        compute_path_prefix_match(self.path, self.prefix)
    }
}

} // verus!
