//! A deterministic network simulator and a Kademlia node cache, with the
//! decisions they make stated as contracts and proved: how packets are
//! framed and checked, where a network routes them, how an address
//! translator maps ports, which port a socket gets, and which nodes a
//! routing table keeps and a lookup asks next.
use vstd::prelude::*;

pub mod assoc;
pub mod checksum;
pub mod cose;
pub mod host;
pub mod kademlia;
pub mod max_sized_string;
pub mod net;
pub mod os_mock;
pub mod sim;
pub mod socket;
pub mod udp;

verus! {
}
