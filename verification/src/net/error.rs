use vstd::prelude::*;

verus! {

/// Why bytes could not be read as a packet.
#[derive(Clone, Copy, Debug, PartialEq, Eq, Structural)]
pub enum ParseError {
    /// The IP version nibble was neither 4 nor 6.
    InvalidVersion(u8),
    /// The IPv4 header length was not 5 words (options are not supported).
    InvalidIhl(u8),
    /// The protocol number was not UDP.
    InvalidProtocolNumber(u8),
    /// The IPv4 header did not sum to the valid checksum.
    InvalidChecksum(u16),
    /// The IPv6 next header was not UDP.
    UnexpectedNextHeader(u8),
    /// Fewer bytes than a header needs.
    NotEnoughForHeaders { expected: u16, had: usize },
    /// Fewer bytes than the header announces for the body.
    NotEnoughForData { expected: u16, had: usize },
}

} // verus!
