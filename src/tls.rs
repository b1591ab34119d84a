use vstd::prelude::*;

use crate::manifest::MtlsConfig;
use crate::text::str_eq;

verus! {

/// Whether a TLS connection must present a client certificate.
#[derive(Clone, Copy, Debug, PartialEq, Eq, Structural)]
pub enum AuthenticationLevel {
    Standard,
    Mutual,
}

/// Client certificates are asked for exactly on the domains that the mutual
/// TLS configuration lists.
pub fn authentication_level(mtls: &Option<MtlsConfig>, server_name: &str) -> (r: AuthenticationLevel)
    ensures
        r == (if mtls is Some && exists|i: int|
            0 <= i < mtls->Some_0.domains@.len() && #[trigger] mtls->Some_0.domains@[i]@
                == server_name@ {
            AuthenticationLevel::Mutual
        } else {
            AuthenticationLevel::Standard
        }),
{
    match mtls {
        None => AuthenticationLevel::Standard,
        Some(config) => {
            let mut i: usize = 0;
            while i < config.domains.len()
                invariant
                    mtls is Some && mtls->Some_0 == *config,
                    i <= config.domains@.len(),
                    forall|k: int| 0 <= k < i ==> #[trigger] config.domains@[k]@ != server_name@,
                decreases config.domains@.len() - i,
            {
                if str_eq(config.domains[i].as_str(), server_name) {
                    assert(mtls->Some_0.domains@[i as int]@ == server_name@);
                    return AuthenticationLevel::Mutual;
                }
                i = i + 1;
            }
            AuthenticationLevel::Standard
        },
    }
}

} // verus!
