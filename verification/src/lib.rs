//! A RIP version 2 router: the wire format of its messages and the
//! distance-vector rules of its routing table.
use vstd::prelude::*;

pub mod bytes;
pub mod config;
pub mod error;
pub mod proto;
pub mod rules;
pub mod table;

pub use config::{ipv4, Endpoint, Neighbor};
pub use error::Error;
pub use proto::command::Command;
pub use proto::entry::Entry;
pub use proto::message::Message;
pub use table::{Action, PeerAddr, Route, RoutingTable};

verus! {

/// The network part of an IPv4 address, its bits under a subnet mask.
pub type NetworkPrefix = u32;

} // verus!
