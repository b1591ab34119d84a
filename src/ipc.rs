use vstd::prelude::*;

verus! {

/// Asks for the certificates to be read again.
#[derive(Clone, Copy, Debug, PartialEq, Eq, Structural)]
pub struct CertificateUpdateRequest;

/// Asks for a reconciliation pass.
#[derive(Clone, Copy, Debug, PartialEq, Eq, Structural)]
pub struct ReconciliationRequest;

} // verus!
