//! The errors of the library.
use vstd::prelude::*;

verus! {

/// Why a message, an entry or a route update was refused.
#[derive(Debug, Clone, Copy, PartialEq, Eq, Structural)]
pub enum Error {
    /// The command byte of a message is neither a request nor a response.
    UnknownCommand(u8),
    /// Fewer than twenty bytes were there to read an entry from.
    MalformedEntry,
    /// The bytes do not hold a message: too short, or a header other than
    /// version 2 followed by two zero bytes.
    MalformedMessage,
    /// A received entry carries a subnet mask other than the allowed one.
    InvalidNetmask(u32),
    /// A received entry carries a metric outside 1..=16.
    MetricOutOfBounds(u32),
    /// A message came from an address other than IPv4.
    NotIpv4,
    /// A response came from an address that is no neighbor.
    NotANeighbor(u32),
    /// Writing the bytes of a message failed.
    Write,
}

} // verus!
