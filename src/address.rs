use vstd::prelude::*;

verus! {

/// An IPv4 address and a UDP port: a concrete target that a datagram can be
/// forwarded to.
///
/// The address is held as its 32-bit big-endian value, so that `10.0.0.1`
/// is `0x0A00_0001`.
#[derive(Clone, Copy, Debug, PartialEq, Eq, Structural)]
pub struct BackendAddress {
    pub ip: u32,
    pub port: u16,
}

impl BackendAddress {
    pub fn new(ip: u32, port: u16) -> (r: BackendAddress)
        ensures
            r.ip == ip,
            r.port == port,
    {
        BackendAddress { ip, port }
    }

    /// Builds the address `a.b.c.d:port`.
    pub fn from_octets(a: u8, b: u8, c: u8, d: u8, port: u16) -> (r: BackendAddress)
        ensures
            r.ip == a as int * 0x100_0000 + b as int * 0x1_0000 + c as int * 0x100 + d as int,
            r.port == port,
    {
        let ip: u32 = (a as u32) * 0x100_0000 + (b as u32) * 0x1_0000 + (c as u32) * 0x100 + d as u32;
        BackendAddress { ip, port }
    }
}

} // verus!
