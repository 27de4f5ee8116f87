use vstd::prelude::*;

verus! {

/// Explicit congestion notification codepoint carried in the two low bits
/// of an IP header's traffic class.
#[derive(Clone, Copy, Debug, PartialEq, Eq, Structural)]
pub enum Ecn {
    /// ECT(0): the endpoint is ECN-capable (bits `0b10`).
    Ect0,
    /// ECT(1): the endpoint is ECN-capable (bits `0b01`).
    Ect1,
    /// CE: congestion was experienced (bits `0b11`).
    Ce,
}

impl Ecn {
    pub open spec fn spec_bits(self) -> u8 {
        match self {
            Ecn::Ect0 => 2,
            Ecn::Ect1 => 1,
            Ecn::Ce => 3,
        }
    }

    /// The two-bit wire value of the codepoint.
    pub fn bits(&self) -> (b: u8)
        ensures
            b == self.spec_bits(),
    {
        match self {
            Ecn::Ect0 => 2,
            Ecn::Ect1 => 1,
            Ecn::Ce => 3,
        }
    }
}

/// The codepoint that the two low bits of `bits` denote, if any.
pub open spec fn spec_ecn_from_bits(bits: u8) -> Option<Ecn> {
    if bits % 4 == 2 {
        Some(Ecn::Ect0)
    } else if bits % 4 == 1 {
        Some(Ecn::Ect1)
    } else if bits % 4 == 3 {
        Some(Ecn::Ce)
    } else {
        None
    }
}

/// The wire bits of an optional codepoint; no codepoint is written as 0.
pub open spec fn spec_ecn_bits(ecn: Option<Ecn>) -> u8 {
    match ecn {
        Some(e) => e.spec_bits(),
        None => 0,
    }
}

/// Decodes an ECN codepoint with `quinn_udp::EcnCodepoint::from_bits`.
/// Its source masks the two low bits and maps `0b10`, `0b01` and `0b11` to
/// ECT(0), ECT(1) and CE, and `0b00` to no codepoint; the contract says so.
#[verifier::external_body]
pub(crate) fn ecn_from_bits(bits: u8) -> (ecn: Option<Ecn>)
    ensures
        ecn == spec_ecn_from_bits(bits),
{
    match quinn_udp::EcnCodepoint::from_bits(bits) {
        Some(quinn_udp::EcnCodepoint::Ect0) => Some(Ecn::Ect0),
        Some(quinn_udp::EcnCodepoint::Ect1) => Some(Ecn::Ect1),
        Some(quinn_udp::EcnCodepoint::Ce) => Some(Ecn::Ce),
        None => None,
    }
}

/// The wire bits of an optional codepoint; no codepoint is written as 0.
pub fn ecn_bits(ecn: Option<Ecn>) -> (b: u8)
    ensures
        b == spec_ecn_bits(ecn),
        b < 4,
{
    match ecn {
        Some(e) => e.bits(),
        None => 0,
    }
}

/// Decoding the bits of a codepoint gives the codepoint back.
pub proof fn lemma_ecn_roundtrip(ecn: Option<Ecn>)
    ensures
        spec_ecn_from_bits(spec_ecn_bits(ecn)) == ecn,
{
}

} // verus!
