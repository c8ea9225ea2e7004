//! The neighbors of a router, as its configuration names them.
use vstd::prelude::*;
use crate::bytes::u32_from_be;

verus! {

/// An IPv4 address and a UDP port. The address is a big-endian `u32`.
#[derive(Debug, Clone, Copy, PartialEq, Eq, Structural)]
pub struct Endpoint {
    pub ip: u32,
    pub port: u16,
}

/// A directly connected router: where it is reached, the subnet mask of
/// the network behind it, and the cost of the link to it.
#[derive(Debug, Clone, Copy, PartialEq, Eq, Structural)]
pub struct Neighbor {
    pub address: Endpoint,
    pub subnet_mask: u32,
    pub metric: u32,
}

/// The network that a neighbor's address lies in.
pub open spec fn spec_neighbor_prefix(n: Neighbor) -> u32 {
    n.address.ip & n.subnet_mask
}

impl Neighbor {
    /// The network of this neighbor: its address under its mask.
    pub fn network_prefix(&self) -> (r: u32)
        ensures
            r == spec_neighbor_prefix(*self),
    {
        self.address.ip & self.subnet_mask
    }
}

/// The address `a.b.c.d` as a big-endian `u32`.
pub fn ipv4(a: u8, b: u8, c: u8, d: u8) -> (r: u32)
    ensures
        r == u32_from_be(a, b, c, d),
{
    (a as u32) * 0x1000000 + (b as u32) * 0x10000 + (c as u32) * 0x100 + (d as u32)
}

} // verus!
