//! What is known of a node's liveness.
use vstd::prelude::*;

verus! {

/// The status of a node, as BitTorrent's routing table keeps it.
#[derive(Clone, Copy, Debug, PartialEq, Eq, Structural)]
pub enum NodeStatus {
    /// Heard from recently: no need to consider removing it.
    Good,
    /// Not heard from in a while, or ever: worth a ping to renew its
    /// status.
    Unknown,
    /// Dead: to be removed when space is needed.
    Bad,
}

impl NodeStatus {
    /// The status's number: 0 for good, 1 for unknown, 2 for bad.
    pub fn code(&self) -> (c: u8)
        ensures
            c == match *self {
                NodeStatus::Good => 0u8,
                NodeStatus::Unknown => 1u8,
                NodeStatus::Bad => 2u8,
            },
    {
        match self {
            NodeStatus::Good => 0,
            NodeStatus::Unknown => 1,
            NodeStatus::Bad => 2,
        }
    }
}

} // verus!
