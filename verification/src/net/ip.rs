use vstd::prelude::*;

use crate::checksum::{
    be_word, be_words, checksum_arr, lemma_word_sum_nonneg, lemma_word_sum_update, words_checksum,
};
use crate::net::addr::IpAddress;
use crate::net::ecn::{Ecn, ecn_bits, ecn_from_bits, spec_ecn_bits, spec_ecn_from_bits};
use crate::net::error::ParseError;

verus! {

/// The two big-endian bytes of a 16-bit value.
pub open spec fn be16(x: u16) -> Seq<u8> {
    seq![(x / 256) as u8, (x % 256) as u8]
}

/// The value of two big-endian bytes.
pub open spec fn be16_value(hi: u8, lo: u8) -> int {
    hi as int * 256 + lo as int
}

pub open spec fn array4(s: Seq<u8>) -> [u8; 4] {
    [s[0], s[1], s[2], s[3]]
}

pub open spec fn array16(s: Seq<u8>) -> [u8; 16] {
    [
        s[0], s[1], s[2], s[3], s[4], s[5], s[6], s[7],
        s[8], s[9], s[10], s[11], s[12], s[13], s[14], s[15],
    ]
}

/// Length in bytes of an IPv4 header without options.
pub const IPV4_HEADER_LEN: usize = 20;

/// Length in bytes of an IPv6 header without extensions.
pub const IPV6_HEADER_LEN: usize = 40;

/// An IP header: the addresses, the ECN codepoint, the length of what
/// follows the header, and the protocol of what follows.
#[allow(inconsistent_fields)]
#[derive(Clone, Copy, Debug, PartialEq, Eq)]
pub enum Header {
    V4 { src: [u8; 4], dst: [u8; 4], ecn: Option<Ecn>, payload_length: u16, protocol: u8 },
    V6 { src: [u8; 16], dst: [u8; 16], ecn: Option<Ecn>, payload_length: u16, protocol: u8 },
}

/// The IPv4 header bytes with a zero checksum field.
pub open spec fn v4_unchecked_bytes(
    src: [u8; 4],
    dst: [u8; 4],
    ecn: Option<Ecn>,
    payload_length: u16,
    protocol: u8,
) -> Seq<u8> {
    seq![0x45u8, spec_ecn_bits(ecn)] + be16((payload_length + 20) as u16) + seq![
        0u8,
        0u8,
        0x40u8,
        0u8,
        64u8,
        protocol,
        0u8,
        0u8,
    ] + src@ + dst@
}

/// The checksum field that makes the words of an IPv4 header sum to the
/// valid checksum.
pub open spec fn v4_checksum_field(unchecked: Seq<u8>) -> u16 {
    (0xffff - words_checksum(unchecked)) as u16
}

/// The wire bytes of an IPv4 header.
pub open spec fn v4_bytes(
    src: [u8; 4],
    dst: [u8; 4],
    ecn: Option<Ecn>,
    payload_length: u16,
    protocol: u8,
) -> Seq<u8> {
    let u = v4_unchecked_bytes(src, dst, ecn, payload_length, protocol);
    let c = v4_checksum_field(u);
    u.update(10, (c / 256) as u8).update(11, (c % 256) as u8)
}

/// The wire bytes of an IPv6 header.
pub open spec fn v6_bytes(
    src: [u8; 16],
    dst: [u8; 16],
    ecn: Option<Ecn>,
    payload_length: u16,
    protocol: u8,
) -> Seq<u8> {
    seq![0x60u8, (spec_ecn_bits(ecn) * 16) as u8, 0u8, 0u8] + be16(payload_length) + seq![
        protocol,
        64u8,
    ] + src@ + dst@
}

/// What reading an IP header from the front of `b` gives: the header and
/// the number of bytes it took, or the error.
pub open spec fn spec_parse_header(b: Seq<u8>) -> Result<(Header, nat), ParseError> {
    let version = b[0] / 16;
    if version == 4 {
        let c = words_checksum(b.take(20));
        if c != 0xffff {
            Err(ParseError::InvalidChecksum(c as u16))
        } else if b[0] % 16 != 5 {
            Err(ParseError::InvalidIhl(b[0] % 16))
        } else {
            Ok(
                (
                    Header::V4 {
                        src: array4(b.subrange(12, 16)),
                        dst: array4(b.subrange(16, 20)),
                        ecn: spec_ecn_from_bits(b[1]),
                        payload_length: (be16_value(b[2], b[3]) - 20) as u16,
                        protocol: b[9],
                    },
                    20,
                ),
            )
        }
    } else if version == 6 {
        if b.len() < 40 {
            Err(ParseError::NotEnoughForHeaders { expected: 40, had: b.len() as usize })
        } else {
            Ok(
                (
                    Header::V6 {
                        src: array16(b.subrange(8, 24)),
                        dst: array16(b.subrange(24, 40)),
                        ecn: spec_ecn_from_bits(b[1] / 16),
                        payload_length: be16_value(b[4], b[5]) as u16,
                        protocol: b[6],
                    },
                    40,
                ),
            )
        }
    } else {
        Err(ParseError::InvalidVersion(version))
    }
}

/// The inputs on which reading an IP header runs to an answer: there is a
/// first byte; an IPv4 header has all of its 20 bytes; and an IPv4 header
/// whose checksum and length field pass announces a total length of at
/// least its own 20 bytes.
pub open spec fn header_parse_defined(b: Seq<u8>) -> bool {
    &&& b.len() >= 1
    &&& b[0] / 16 == 4 ==> {
        &&& b.len() >= 20
        &&& (words_checksum(b.take(20)) == 0xffff && b[0] % 16 == 5) ==> be16_value(b[2], b[3])
            >= 20
    }
}

/// Whether reading an IP header from `from` runs to an answer; see
/// `header_parse_defined`.
pub fn header_parse_is_defined(from: &[u8]) -> (b: bool)
    ensures
        b == header_parse_defined(from@),
{
    if from.len() < 1 {
        return false;
    }
    if from[0] / 16 != 4 {
        return true;
    }
    if from.len() < 20 {
        return false;
    }
    let mut head: [u8; 20] = [0u8; 20];
    let mut i: usize = 0;
    while i < 20
        invariant
            i <= 20,
            from@.len() >= 20,
            head@.len() == 20,
            forall|j: int| 0 <= j < i ==> head@[j] == from@[j],
        decreases 20 - i,
    {
        head[i] = from[i];
        i = i + 1;
    }
    assert(head@ =~= from@.take(20));
    let sum = checksum_arr(&head);
    if sum == 0xffff && from[0] % 16 == 5 {
        (from[2] as u16) * 256 + (from[3] as u16) >= 20
    } else {
        true
    }
}

/// Appends the bytes of `s` to `into`.
pub fn append_bytes(into: &mut Vec<u8>, s: &[u8])
    ensures
        final(into)@ == old(into)@ + s@,
{
    let mut i: usize = 0;
    while i < s.len()
        invariant
            i <= s.len(),
            into@ == old(into)@ + s@.take(i as int),
        decreases s.len() - i,
    {
        into.push(s[i]);
        i = i + 1;
        assert(into@ =~= old(into)@ + s@.take(i as int));
    }
    assert(s@.take(s.len() as int) =~= s@);
}

proof fn lemma_u8_nibbles(x: u8)
    ensures
        x >> 4u8 == x / 16,
        x & 15u8 == x % 16,
{
    assert(x >> 4u8 == x / 16) by (bit_vector);
    assert(x & 15u8 == x % 16) by (bit_vector);
}

proof fn lemma_u16_bytes(x: u16)
    ensures
        (x >> 8u16) as u8 == x / 256,
        (x & 0xffu16) as u8 == x % 256,
        !x == (0xffff - x) as u16,
{
    assert((x >> 8u16) as u8 == x / 256) by (bit_vector);
    assert((x & 0xffu16) as u8 == x % 256) by (bit_vector);
    assert(!x == (0xffff - x) as u16) by (bit_vector);
}

/// The header with its addresses replaced by `src` and `dst`, of the
/// version they are, keeping the other fields; unchanged when the two are
/// of different versions.
pub open spec fn ip_with_addrs(h: Header, src: IpAddress, dst: IpAddress) -> Header {
    match (src, dst) {
        (IpAddress::V4(s), IpAddress::V4(d)) => Header::V4 {
            src: s,
            dst: d,
            ecn: h.spec_ecn(),
            payload_length: h.spec_payload_length(),
            protocol: h.spec_protocol(),
        },
        (IpAddress::V6(s), IpAddress::V6(d)) => Header::V6 {
            src: s,
            dst: d,
            ecn: h.spec_ecn(),
            payload_length: h.spec_payload_length(),
            protocol: h.spec_protocol(),
        },
        _ => h,
    }
}

impl Header {
    pub open spec fn spec_payload_length(self) -> u16 {
        match self {
            Header::V4 { payload_length, .. } => payload_length,
            Header::V6 { payload_length, .. } => payload_length,
        }
    }

    pub open spec fn spec_protocol(self) -> u8 {
        match self {
            Header::V4 { protocol, .. } => protocol,
            Header::V6 { protocol, .. } => protocol,
        }
    }

    pub open spec fn spec_ecn(self) -> Option<Ecn> {
        match self {
            Header::V4 { ecn, .. } => ecn,
            Header::V6 { ecn, .. } => ecn,
        }
    }

    pub open spec fn spec_ip_addrs(self) -> (IpAddress, IpAddress) {
        match self {
            Header::V4 { src, dst, .. } => (IpAddress::V4(src), IpAddress::V4(dst)),
            Header::V6 { src, dst, .. } => (IpAddress::V6(src), IpAddress::V6(dst)),
        }
    }

    /// The headers that can be written: an IPv4 header's total length,
    /// payload plus its own 20 bytes, must fit its 16-bit field.
    pub open spec fn spec_writable(self) -> bool {
        match self {
            Header::V4 { payload_length, .. } => payload_length + 20 <= 0xffff,
            Header::V6 { .. } => true,
        }
    }

    /// The wire bytes of the header.
    pub open spec fn spec_bytes(self) -> Seq<u8> {
        match self {
            Header::V4 { src, dst, ecn, payload_length, protocol } => v4_bytes(
                src,
                dst,
                ecn,
                payload_length,
                protocol,
            ),
            Header::V6 { src, dst, ecn, payload_length, protocol } => v6_bytes(
                src,
                dst,
                ecn,
                payload_length,
                protocol,
            ),
        }
    }

    /// Whether this is an IPv6 header.
    pub fn is_v6(&self) -> (b: bool)
        ensures
            b == (*self is V6),
    {
        match self {
            Header::V4 { .. } => false,
            Header::V6 { .. } => true,
        }
    }

    /// Whether this is an IPv4 header.
    pub fn is_v4(&self) -> (b: bool)
        ensures
            b == (*self is V4),
    {
        match self {
            Header::V4 { .. } => true,
            Header::V6 { .. } => false,
        }
    }

    /// Builds a header from two addresses of the same IP version.
    pub fn new(
        src: IpAddress,
        dst: IpAddress,
        ecn: Option<Ecn>,
        payload_length: u16,
        protocol: u8,
    ) -> (h: Header)
        requires
            src.spec_is_v4() == dst.spec_is_v4(),
        ensures
            h.spec_ip_addrs() == (src, dst),
            h.spec_ecn() == ecn,
            h.spec_payload_length() == payload_length,
            h.spec_protocol() == protocol,
    {
        match (src, dst) {
            (IpAddress::V4(src), IpAddress::V4(dst)) => Header::V4 {
                src,
                dst,
                ecn,
                payload_length,
                protocol,
            },
            (IpAddress::V6(src), IpAddress::V6(dst)) => Header::V6 {
                src,
                dst,
                ecn,
                payload_length,
                protocol,
            },
            _ => unreached(),
        }
    }

    /// The protocol of what follows the header.
    pub fn protocol(&self) -> (p: u8)
        ensures
            p == self.spec_protocol(),
    {
        match self {
            Header::V4 { protocol, .. } => *protocol,
            Header::V6 { protocol, .. } => *protocol,
        }
    }

    /// The length of what follows the header.
    pub fn payload_length(&self) -> (l: u16)
        ensures
            l == self.spec_payload_length(),
    {
        match self {
            Header::V4 { payload_length, .. } => *payload_length,
            Header::V6 { payload_length, .. } => *payload_length,
        }
    }

    /// The ECN codepoint.
    pub fn ecn(&self) -> (e: Option<Ecn>)
        ensures
            e == self.spec_ecn(),
    {
        match self {
            Header::V4 { ecn, .. } => *ecn,
            Header::V6 { ecn, .. } => *ecn,
        }
    }

    /// The (source, destination) addresses.
    pub fn get_ip_addrs(&self) -> (a: (IpAddress, IpAddress))
        ensures
            a == self.spec_ip_addrs(),
    {
        match self {
            Header::V4 { src, dst, .. } => (IpAddress::V4(*src), IpAddress::V4(*dst)),
            Header::V6 { src, dst, .. } => (IpAddress::V6(*src), IpAddress::V6(*dst)),
        }
    }

    /// Sets both addresses to IPv4 ones, keeping the other fields.
    pub fn set_v4_address(&mut self, new_src: [u8; 4], new_dst: [u8; 4])
        ensures
            *final(self) == ip_with_addrs(*old(self), IpAddress::V4(new_src), IpAddress::V4(new_dst)),
            final(self).spec_ip_addrs() == (IpAddress::V4(new_src), IpAddress::V4(new_dst)),
            final(self).spec_ecn() == old(self).spec_ecn(),
            final(self).spec_payload_length() == old(self).spec_payload_length(),
            final(self).spec_protocol() == old(self).spec_protocol(),
    {
        let ecn = self.ecn();
        let payload_length = self.payload_length();
        let protocol = self.protocol();
        *self = Header::V4 { src: new_src, dst: new_dst, ecn, payload_length, protocol };
    }

    /// Sets both addresses to IPv6 ones, keeping the other fields.
    pub fn set_v6_address(&mut self, new_src: [u8; 16], new_dst: [u8; 16])
        ensures
            *final(self) == ip_with_addrs(*old(self), IpAddress::V6(new_src), IpAddress::V6(new_dst)),
            final(self).spec_ip_addrs() == (IpAddress::V6(new_src), IpAddress::V6(new_dst)),
            final(self).spec_ecn() == old(self).spec_ecn(),
            final(self).spec_payload_length() == old(self).spec_payload_length(),
            final(self).spec_protocol() == old(self).spec_protocol(),
    {
        let ecn = self.ecn();
        let payload_length = self.payload_length();
        let protocol = self.protocol();
        *self = Header::V6 { src: new_src, dst: new_dst, ecn, payload_length, protocol };
    }

    /// Appends the wire bytes of the header to `into`.
    pub fn write_into_buf(&self, into: &mut Vec<u8>)
        requires
            self.spec_writable(),
        ensures
            final(into)@ == old(into)@ + self.spec_bytes(),
    {
        match self {
            Header::V4 { src, dst, ecn, payload_length, protocol } => {
                Self::write_v4_into_buf(into, src, dst, ecn, payload_length, protocol);
            },
            Header::V6 { src, dst, ecn, payload_length, protocol } => {
                Self::write_v6_into_buf(into, src, dst, ecn, payload_length, protocol);
            },
        }
    }

    fn write_v4_into_buf(
        into: &mut Vec<u8>,
        src: &[u8; 4],
        dst: &[u8; 4],
        ecn: &Option<Ecn>,
        payload_length: &u16,
        protocol: &u8,
    )
        requires
            *payload_length + 20 <= 0xffff,
        ensures
            final(into)@ == old(into)@ + v4_bytes(*src, *dst, *ecn, *payload_length, *protocol),
    {
        let mut header: [u8; 20] = [0u8; 20];
        header[0] = 0x45;
        header[1] = ecn_bits(*ecn);
        let total_length: u16 = *payload_length + 20;
        proof {
            lemma_u16_bytes(total_length);
        }
        header[2] = (total_length >> 8) as u8;
        header[3] = (total_length & 0xff) as u8;
        header[6] = 0x40;
        header[8] = 64;
        header[9] = *protocol;
        header[12] = src[0];
        header[13] = src[1];
        header[14] = src[2];
        header[15] = src[3];
        header[16] = dst[0];
        header[17] = dst[1];
        header[18] = dst[2];
        header[19] = dst[3];
        let ghost u = v4_unchecked_bytes(*src, *dst, *ecn, *payload_length, *protocol);
        assert(header@ =~= u);
        let checksum = checksum_arr(&header);
        let field: u16 = !checksum;
        proof {
            lemma_u16_bytes(field);
            lemma_u16_bytes(checksum);
        }
        header[10] = (field >> 8) as u8;
        header[11] = (field & 0xff) as u8;
        assert(header@ =~= v4_bytes(*src, *dst, *ecn, *payload_length, *protocol));
        append_bytes(into, header.as_slice());
    }

    fn write_v6_into_buf(
        into: &mut Vec<u8>,
        src: &[u8; 16],
        dst: &[u8; 16],
        ecn: &Option<Ecn>,
        payload_length: &u16,
        protocol: &u8,
    )
        ensures
            final(into)@ == old(into)@ + v6_bytes(*src, *dst, *ecn, *payload_length, *protocol),
    {
        let mut header: [u8; 40] = [0u8; 40];
        header[0] = 0x60;
        header[1] = ecn_bits(*ecn) * 16;
        proof {
            lemma_u16_bytes(*payload_length);
        }
        header[4] = (*payload_length >> 8) as u8;
        header[5] = (*payload_length & 0xff) as u8;
        header[6] = *protocol;
        header[7] = 64;
        let mut i: usize = 0;
        while i < 16
            invariant
                i <= 16,
                header@.len() == 40,
                header@[0] == 0x60u8,
                header@[1] == (spec_ecn_bits(*ecn) * 16) as u8,
                header@[2] == 0u8,
                header@[3] == 0u8,
                header@[4] == (*payload_length / 256) as u8,
                header@[5] == (*payload_length % 256) as u8,
                header@[6] == *protocol,
                header@[7] == 64u8,
                forall|j: int| 0 <= j < i ==> header@[8 + j] == src@[j],
                forall|j: int| 0 <= j < i ==> header@[24 + j] == dst@[j],
            decreases 16 - i,
        {
            header[8 + i] = src[i];
            header[24 + i] = dst[i];
            i = i + 1;
        }
        assert(header@ =~= v6_bytes(*src, *dst, *ecn, *payload_length, *protocol));
        append_bytes(into, header.as_slice());
    }

    /// Reads an IP header from the front of `from`, giving the header and the
    /// number of bytes it took.
    pub fn try_from_buf(from: &[u8]) -> (r: Result<(Header, usize), ParseError>)
        requires
            header_parse_defined(from@),
        ensures
            match r {
                Ok((h, n)) => spec_parse_header(from@) == Ok::<(Header, nat), ParseError>(
                    (h, n as nat),
                ),
                Err(e) => spec_parse_header(from@) == Err::<(Header, nat), ParseError>(e),
            },
    {
        let first_byte = from[0];
        proof {
            lemma_u8_nibbles(first_byte);
        }
        let version = first_byte >> 4;
        if version == 4 {
            Self::try_v4_from_buf(from, first_byte)
        } else if version == 6 {
            Self::try_v6_from_buf(from, first_byte)
        } else {
            Err(ParseError::InvalidVersion(version))
        }
    }

    fn try_v4_from_buf(from: &[u8], first_byte: u8) -> (r: Result<(Header, usize), ParseError>)
        requires
            header_parse_defined(from@),
            first_byte == from@[0],
            from@[0] / 16 == 4,
        ensures
            match r {
                Ok((h, n)) => spec_parse_header(from@) == Ok::<(Header, nat), ParseError>(
                    (h, n as nat),
                ),
                Err(e) => spec_parse_header(from@) == Err::<(Header, nat), ParseError>(e),
            },
    {
        let mut checksum_array: [u8; 20] = [0u8; 20];
        let mut i: usize = 0;
        while i < 20
            invariant
                i <= 20,
                from@.len() >= 20,
                checksum_array@.len() == 20,
                forall|j: int| 0 <= j < i ==> checksum_array@[j] == from@[j],
            decreases 20 - i,
        {
            checksum_array[i] = from[i];
            i = i + 1;
        }
        assert(checksum_array@ =~= from@.take(20));
        let ipv4_checksum = checksum_arr(&checksum_array);
        if ipv4_checksum != 0xffff {
            return Err(ParseError::InvalidChecksum(ipv4_checksum));
        }
        proof {
            lemma_u8_nibbles(first_byte);
        }
        let ihl = first_byte & 0b1111;
        if ihl != 5 {
            return Err(ParseError::InvalidIhl(ihl));
        }
        let ecn = ecn_from_bits(checksum_array[1]);
        let total_length: u16 = checksum_array[2] as u16 * 256 + checksum_array[3] as u16;
        let protocol = checksum_array[9];
        let src: [u8; 4] = [checksum_array[12], checksum_array[13], checksum_array[14], checksum_array[15]];
        let dst: [u8; 4] = [checksum_array[16], checksum_array[17], checksum_array[18], checksum_array[19]];
        let h = Header::V4 { src, dst, ecn, payload_length: total_length - 20, protocol };
        assert(src =~= array4(from@.subrange(12, 16)));
        assert(dst =~= array4(from@.subrange(16, 20)));
        Ok((h, 20))
    }

    fn try_v6_from_buf(from: &[u8], _first_byte: u8) -> (r: Result<(Header, usize), ParseError>)
        requires
            header_parse_defined(from@),
            from@[0] / 16 == 6,
        ensures
            match r {
                Ok((h, n)) => spec_parse_header(from@) == Ok::<(Header, nat), ParseError>(
                    (h, n as nat),
                ),
                Err(e) => spec_parse_header(from@) == Err::<(Header, nat), ParseError>(e),
            },
    {
        if from.len() - 1 < IPV6_HEADER_LEN - 1 {
            return Err(ParseError::NotEnoughForHeaders { expected: 40, had: from.len() - 1 + 1 });
        }
        let second_byte = from[1];
        proof {
            lemma_u8_nibbles(second_byte);
        }
        let ecn = ecn_from_bits(second_byte >> 4);
        let payload_length: u16 = from[4] as u16 * 256 + from[5] as u16;
        let next_header = from[6];
        let src: [u8; 16] = [
            from[8], from[9], from[10], from[11], from[12], from[13], from[14], from[15],
            from[16], from[17], from[18], from[19], from[20], from[21], from[22], from[23],
        ];
        let dst: [u8; 16] = [
            from[24], from[25], from[26], from[27], from[28], from[29], from[30], from[31],
            from[32], from[33], from[34], from[35], from[36], from[37], from[38], from[39],
        ];
        assert(src =~= array16(from@.subrange(8, 24)));
        assert(dst =~= array16(from@.subrange(24, 40)));
        Ok((Header::V6 { src, dst, ecn, payload_length, protocol: next_header }, 40))
    }
}

/// Filling in the checksum field makes the words of an IPv4 header sum to
/// the valid checksum.
pub proof fn lemma_v4_checksum_valid(
    src: [u8; 4],
    dst: [u8; 4],
    ecn: Option<Ecn>,
    payload_length: u16,
    protocol: u8,
)
    ensures
        words_checksum(v4_bytes(src, dst, ecn, payload_length, protocol)) == 0xffff,
{
    let u = v4_unchecked_bytes(src, dst, ecn, payload_length, protocol);
    let c = v4_checksum_field(u);
    let b = v4_bytes(src, dst, ecn, payload_length, protocol);
    assert(be_words(b) =~= be_words(u).update(5, be_word((c / 256) as u8, (c % 256) as u8)));
    assert(be_word((c / 256) as u8, (c % 256) as u8) == c);
    assert(be_words(u)[5] == 0);
    lemma_word_sum_update(be_words(u), 5, c);
    lemma_word_sum_nonneg(be_words(u));
    let s = crate::checksum::word_sum(be_words(u));
    assert((s + (0xffff - s % 0x10000)) % 0x10000 == 0xffff) by {
        vstd::arithmetic::div_mod::lemma_fundamental_div_mod(s, 0x10000);
        vstd::arithmetic::div_mod::lemma_mod_multiples_vanish(s / 0x10000, 0xffff, 0x10000);
    }
}

/// Reading back the bytes of a writable header gives the header, whatever
/// follows it.
pub proof fn lemma_header_roundtrip(h: Header, rest: Seq<u8>)
    requires
        h.spec_writable(),
    ensures
        header_parse_defined(h.spec_bytes() + rest),
        spec_parse_header(h.spec_bytes() + rest) == Ok::<(Header, nat), ParseError>(
            (h, h.spec_bytes().len()),
        ),
{
    let b = h.spec_bytes() + rest;
    match h {
        Header::V4 { src, dst, ecn, payload_length, protocol } => {
            let w = v4_bytes(src, dst, ecn, payload_length, protocol);
            lemma_v4_checksum_valid(src, dst, ecn, payload_length, protocol);
            assert(b.take(20) =~= w);
            crate::net::ecn::lemma_ecn_roundtrip(ecn);
            assert(array4(b.subrange(12, 16)) =~= src);
            assert(array4(b.subrange(16, 20)) =~= dst);
        },
        Header::V6 { src, dst, ecn, payload_length, protocol } => {
            crate::net::ecn::lemma_ecn_roundtrip(ecn);
            assert(b[1] / 16 == spec_ecn_bits(ecn));
            assert(array16(b.subrange(8, 24)) =~= src);
            assert(array16(b.subrange(24, 40)) =~= dst);
        },
    }
}

} // verus!
