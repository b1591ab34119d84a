use vstd::prelude::*;

verus! {

/// An IPv4 address, octet by octet, most significant first.
#[derive(Clone, Copy, Debug, PartialEq, Eq, Structural, Hash)]
pub struct Ipv4Address(pub u8, pub u8, pub u8, pub u8);

impl Ipv4Address {
    pub fn new(a: u8, b: u8, c: u8, d: u8) -> (r: Ipv4Address)
        ensures
            r == Ipv4Address(a, b, c, d),
    {
        Ipv4Address(a, b, c, d)
    }

    /// The loopback address 127.0.0.1.
    pub fn localhost() -> (r: Ipv4Address)
        ensures
            r == Ipv4Address(127, 0, 0, 1),
    {
        Ipv4Address(127, 0, 0, 1)
    }
}

} // verus!
