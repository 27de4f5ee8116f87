//! UDP datagrams framed in one pass: the IP header and the UDP header are
//! one header, written and read together.
use vstd::prelude::*;

use crate::checksum::{
    be_words, bytes_to_be_words, checksum_arr, lemma_padded_sum_sees_last_byte,
    lemma_split_sum_is_padded_sum, pad_to_words, word_sum, words_checksum, wrapping_sum,
};
use crate::net::addr::{IpAddress, SocketAddress};
use crate::net::ecn::{Ecn, ecn_bits, ecn_from_bits, spec_ecn_bits, spec_ecn_from_bits};
use crate::net::ip::{append_bytes, array16, array4, be16, be16_value, v4_bytes};
use crate::net::udp::odd_tail;

pub use crate::net::error::ParseError;

verus! {

/// The IP protocol number of UDP.
pub const PROTOCOL: u8 = 0x11;

/// Length in bytes of an IPv6 header.
pub const IPV6_HEADER_LEN: usize = 40;

/// Length in bytes of an IPv4 header.
pub const IPV4_HEADER_LEN: usize = 20;

/// Length in bytes of a UDP header.
pub const UDP_HEADER_LEN: usize = 8;

/// Length in bytes of the longest IP header and a UDP header together.
pub const MAX_HEADER_LEN: usize = 48;

/// The source and destination addresses of either IP version.
#[allow(inconsistent_fields)]
#[derive(Clone, Copy, Debug, PartialEq, Eq)]
pub enum IpAddrs {
    V4 { src: [u8; 4], dst: [u8; 4] },
    V6 { src: [u8; 16], dst: [u8; 16] },
}

impl IpAddrs {
    pub open spec fn spec_is_v6(self) -> bool {
        self is V6
    }

    pub open spec fn spec_ip_addrs(self) -> (IpAddress, IpAddress) {
        match self {
            IpAddrs::V4 { src, dst } => (IpAddress::V4(src), IpAddress::V4(dst)),
            IpAddrs::V6 { src, dst } => (IpAddress::V6(src), IpAddress::V6(dst)),
        }
    }

    /// Whether the addresses are IPv6 addresses.
    pub fn is_v6(&self) -> (b: bool)
        ensures
            b == self.spec_is_v6(),
    {
        matches!(self, IpAddrs::V6 { .. })
    }

    /// Whether the addresses are IPv4 addresses.
    pub fn is_v4(&self) -> (b: bool)
        ensures
            b == !self.spec_is_v6(),
    {
        matches!(self, IpAddrs::V4 { .. })
    }

    /// The (source, destination) addresses.
    pub fn get_ip_addrs(&self) -> (a: (IpAddress, IpAddress))
        ensures
            a == self.spec_ip_addrs(),
    {
        match self {
            IpAddrs::V4 { src, dst } => (IpAddress::V4(*src), IpAddress::V4(*dst)),
            IpAddrs::V6 { src, dst } => (IpAddress::V6(*src), IpAddress::V6(*dst)),
        }
    }
}

/// The IP header and UDP header of a datagram. `payload_length` is the
/// length of the UDP body. A checksum of 0 means that none is set.
#[derive(Clone, Copy, Debug, PartialEq, Eq)]
pub struct Header {
    pub ip_addrs: IpAddrs,
    pub src_port: u16,
    pub dst_port: u16,
    pub payload_length: u16,
    pub checksum: u16,
    pub ecn: Option<Ecn>,
}

/// The pseudo header of an IPv6 datagram, over which the checksum runs.
pub struct Udpv6PseudoHeader {
    pub src_addr: [u8; 16],
    pub dst_addr: [u8; 16],
    pub udp_length: u16,
}

/// The pseudo header of an IPv4 datagram, over which the checksum runs.
pub struct Udpv4PseudoHeader {
    pub src_addr: [u8; 4],
    pub dst_addr: [u8; 4],
    pub udp_length: u16,
}

/// The pseudo header of either IP version.
pub enum UdpPseudoHeader {
    V4(Udpv4PseudoHeader),
    V6(Udpv6PseudoHeader),
}

/// The bytes of a pseudo header in this framing: source, destination, the
/// protocol and the UDP length.
pub open spec fn pseudo_bytes(src: Seq<u8>, dst: Seq<u8>, udp_length: u16) -> Seq<u8> {
    src + dst + seq![PROTOCOL] + be16(udp_length)
}

impl Udpv4PseudoHeader {
    pub open spec fn spec_bytes(&self) -> Seq<u8> {
        pseudo_bytes(self.src_addr@, self.dst_addr@, self.udp_length)
    }

    /// The bytes of the pseudo header.
    pub fn to_bytes(&self) -> (arr: [u8; 11])
        ensures
            arr@ == self.spec_bytes(),
    {
        let arr: [u8; 11] = [
            self.src_addr[0],
            self.src_addr[1],
            self.src_addr[2],
            self.src_addr[3],
            self.dst_addr[0],
            self.dst_addr[1],
            self.dst_addr[2],
            self.dst_addr[3],
            PROTOCOL,
            (self.udp_length / 256) as u8,
            (self.udp_length % 256) as u8,
        ];
        assert(arr@ =~= self.spec_bytes());
        arr
    }
}

impl Udpv6PseudoHeader {
    pub open spec fn spec_bytes(&self) -> Seq<u8> {
        pseudo_bytes(self.src_addr@, self.dst_addr@, self.udp_length)
    }

    /// The bytes of the pseudo header.
    pub fn to_bytes(&self) -> (arr: [u8; 35])
        ensures
            arr@ == self.spec_bytes(),
    {
        let mut arr: [u8; 35] = [0u8; 35];
        let mut i: usize = 0;
        while i < 16
            invariant
                i <= 16,
                arr@.len() == 35,
                forall|j: int| 0 <= j < i ==> arr@[j] == self.src_addr@[j],
                forall|j: int| 0 <= j < i ==> arr@[16 + j] == self.dst_addr@[j],
            decreases 16 - i,
        {
            arr[i] = self.src_addr[i];
            arr[16 + i] = self.dst_addr[i];
            i = i + 1;
        }
        arr[32] = PROTOCOL;
        arr[33] = (self.udp_length / 256) as u8;
        arr[34] = (self.udp_length % 256) as u8;
        assert(arr@ =~= self.spec_bytes());
        arr
    }
}

impl UdpPseudoHeader {
    pub open spec fn spec_bytes(&self) -> Seq<u8> {
        match self {
            UdpPseudoHeader::V4(h) => h.spec_bytes(),
            UdpPseudoHeader::V6(h) => h.spec_bytes(),
        }
    }

    /// The pseudo header of a header.
    pub fn new_from_header(udp_header: &Header) -> (p: UdpPseudoHeader)
        requires
            udp_header.payload_length + 8 <= 0xffff,
        ensures
            p.spec_bytes() == udp_header.spec_pseudo_bytes(),
    {
        match &udp_header.ip_addrs {
            IpAddrs::V4 { src, dst } => UdpPseudoHeader::V4(
                Udpv4PseudoHeader {
                    src_addr: *src,
                    dst_addr: *dst,
                    udp_length: udp_header.udp_length(),
                },
            ),
            IpAddrs::V6 { src, dst } => UdpPseudoHeader::V6(
                Udpv6PseudoHeader {
                    src_addr: *src,
                    dst_addr: *dst,
                    udp_length: udp_header.udp_length(),
                },
            ),
        }
    }

    /// Appends the bytes of the pseudo header to `buf`.
    pub fn write_into_buf(&self, buf: &mut Vec<u8>)
        ensures
            final(buf)@ == old(buf)@ + self.spec_bytes(),
    {
        match self {
            UdpPseudoHeader::V4(header) => {
                let b = header.to_bytes();
                append_bytes(buf, b.as_slice());
            },
            UdpPseudoHeader::V6(header) => {
                let b = header.to_bytes();
                append_bytes(buf, b.as_slice());
            },
        }
    }
}

/// The 48 bytes over which the header part of the checksum runs: the pseudo
/// header, the ports and the UDP length, padded with zeros.
pub open spec fn checksum_head(h: Header) -> Seq<u8> {
    let head = h.spec_pseudo_bytes() + be16(h.src_port) + be16(h.dst_port) + be16(
        h.spec_udp_length(),
    );
    head + Seq::new((48 - head.len()) as nat, |i: int| 0u8)
}

/// The checksum sum of a header and a body: the 16-bit wrapping sum of the
/// words of the padded head, of the body's words and of its odd last byte.
pub open spec fn spec_calculate_checksum(h: Header, data: Seq<u8>) -> u16 {
    ((words_checksum(checksum_head(h)) + (word_sum(be_words(data)) % 0x10000 + odd_tail(data))
        % 0x10000) % 0x10000) as u16
}

/// The UDP checksum sum of a header and a body is the 16-bit wrapping sum
/// of the big-endian words of the checksum head (pseudo header and UDP
/// header with a zero checksum, padded with zeros to 48 bytes) followed by
/// the whole body, an odd last byte padded with a zero byte.
pub proof fn lemma_checksum_covers_padded_body(h: Header, data: Seq<u8>)
    ensures
        spec_calculate_checksum(h, data) as int == words_checksum(checksum_head(h) + pad_to_words(data)),
{
    let head = h.spec_pseudo_bytes() + be16(h.src_port) + be16(h.dst_port) + be16(
        h.spec_udp_length(),
    );
    assert(head.len() <= 48);
    assert(checksum_head(h).len() == 48);
    lemma_split_sum_is_padded_sum(checksum_head(h), data);
    let v = (words_checksum(checksum_head(h)) + (word_sum(be_words(data)) % 0x10000
        + crate::net::udp::odd_tail(data)) % 0x10000) % 0x10000;
    assert(0 <= v < 0x10000);
}

/// Every byte of an odd-length body counts: replacing its last byte by
/// another changes the checksum sum, so a corrupted last byte is caught.
pub proof fn lemma_checksum_sees_last_byte(h: Header, data: Seq<u8>, x: u8)
    requires
        data.len() % 2 == 1,
        x != data.last(),
    ensures
        spec_calculate_checksum(h, data.update(data.len() - 1, x)) != spec_calculate_checksum(h, data),
{
    lemma_checksum_covers_padded_body(h, data);
    lemma_checksum_covers_padded_body(h, data.update(data.len() - 1, x));
    let head = h.spec_pseudo_bytes() + be16(h.src_port) + be16(h.dst_port) + be16(
        h.spec_udp_length(),
    );
    assert(head.len() <= 48);
    assert(checksum_head(h).len() == 48);
    lemma_padded_sum_sees_last_byte(checksum_head(h), data, x);
}

/// The bytes of the IPv6 header as this framing writes it: its version
/// field reads 4.
pub open spec fn v6_frame_bytes(
    src: [u8; 16],
    dst: [u8; 16],
    ecn: Option<Ecn>,
    payload_length: u16,
) -> Seq<u8> {
    seq![0x40u8, (spec_ecn_bits(ecn) * 16) as u8, 0u8, 0u8] + be16(payload_length) + seq![
        PROTOCOL,
        64u8,
    ] + src@ + dst@
}

/// The inputs on which reading a header runs to an answer: the 20 bytes
/// checked as an IPv4 header are there, and a header that passes the checks
/// has its UDP header, a total length that holds both headers, and a UDP
/// length that agrees with the body length the IP header gives.
pub open spec fn frame_parse_defined(b: Seq<u8>) -> bool {
    &&& b.len() >= 20
    &&& (b[0] / 16 == 4 && words_checksum(b.take(20)) == 0xffff && b[0] % 16 == 5 && b[9]
        == PROTOCOL) ==> {
        &&& b.len() >= 28
        &&& be16_value(b[2], b[3]) >= 28
        &&& be16_value(b[24], b[25]) >= 8
        &&& be16_value(b[24], b[25]) - 8 == be16_value(b[2], b[3]) - 28
    }
    &&& (b[0] / 16 == 6 && b.len() >= 40 && b[6] == PROTOCOL) ==> {
        &&& b.len() >= 48
        &&& be16_value(b[44], b[45]) >= 8
        &&& be16_value(b[44], b[45]) - 8 == be16_value(b[4], b[5])
    }
}

/// What reading a header from the front of `b` gives: the header and the
/// number of bytes it took, or the error.
#[verifier::opaque]
pub open spec fn spec_parse_frame(b: Seq<u8>) -> Result<(Header, nat), ParseError> {
    let version = b[0] / 16;
    if version == 4 {
        let c = words_checksum(b.take(20));
        if c != 0xffff {
            Err(ParseError::InvalidChecksum(c as u16))
        } else if b[0] % 16 != 5 {
            Err(ParseError::InvalidIhl(b[0] % 16))
        } else if b[9] != PROTOCOL {
            Err(ParseError::InvalidProtocolNumber(b[9]))
        } else {
            Ok(
                (
                    Header {
                        ip_addrs: IpAddrs::V4 {
                            src: array4(b.subrange(12, 16)),
                            dst: array4(b.subrange(16, 20)),
                        },
                        src_port: be16_value(b[20], b[21]) as u16,
                        dst_port: be16_value(b[22], b[23]) as u16,
                        payload_length: (be16_value(b[2], b[3]) - 28) as u16,
                        checksum: be16_value(b[26], b[27]) as u16,
                        ecn: spec_ecn_from_bits(b[1]),
                    },
                    28,
                ),
            )
        }
    } else if version == 6 {
        if b.len() < 40 {
            Err(ParseError::NotEnoughForHeaders { expected: 40, had: b.len() as usize })
        } else if b[6] != PROTOCOL {
            Err(ParseError::UnexpectedNextHeader(b[6]))
        } else {
            Ok(
                (
                    Header {
                        ip_addrs: IpAddrs::V6 {
                            src: array16(b.subrange(8, 24)),
                            dst: array16(b.subrange(24, 40)),
                        },
                        src_port: be16_value(b[40], b[41]) as u16,
                        dst_port: be16_value(b[42], b[43]) as u16,
                        payload_length: be16_value(b[4], b[5]) as u16,
                        checksum: be16_value(b[46], b[47]) as u16,
                        ecn: spec_ecn_from_bits(b[1] / 16),
                    },
                    48,
                ),
            )
        }
    } else {
        Err(ParseError::InvalidVersion(version))
    }
}

proof fn lemma_u8_nibbles(x: u8)
    ensures
        x >> 4u8 == x / 16,
        x & 15u8 == x % 16,
{
    assert(x >> 4u8 == x / 16) by (bit_vector);
    assert(x & 15u8 == x % 16) by (bit_vector);
}

impl Header {
    /// The UDP length field: the body and the UDP header.
    pub open spec fn spec_udp_length(self) -> u16 {
        (self.payload_length + 8) as u16
    }

    /// Whether the lengths the header writes fit their fields.
    pub open spec fn spec_writable(self) -> bool {
        match self.ip_addrs {
            IpAddrs::V4 { .. } => self.payload_length + 28 <= 0xffff,
            IpAddrs::V6 { .. } => self.payload_length + 8 <= 0xffff,
        }
    }

    pub open spec fn spec_pseudo_bytes(self) -> Seq<u8> {
        match self.ip_addrs {
            IpAddrs::V4 { src, dst } => pseudo_bytes(src@, dst@, self.spec_udp_length()),
            IpAddrs::V6 { src, dst } => pseudo_bytes(src@, dst@, self.spec_udp_length()),
        }
    }

    pub open spec fn spec_socket_addrs(self) -> (SocketAddress, SocketAddress) {
        (
            SocketAddress { ip: self.ip_addrs.spec_ip_addrs().0, port: self.src_port },
            SocketAddress { ip: self.ip_addrs.spec_ip_addrs().1, port: self.dst_port },
        )
    }

    /// The bytes of the IP header.
    pub open spec fn spec_ip_bytes(self) -> Seq<u8> {
        match self.ip_addrs {
            IpAddrs::V4 { src, dst } => v4_bytes(
                src,
                dst,
                self.ecn,
                self.spec_udp_length(),
                PROTOCOL,
            ),
            IpAddrs::V6 { src, dst } => v6_frame_bytes(src, dst, self.ecn, self.payload_length),
        }
    }

    /// The bytes of the IP header followed by the UDP header.
    pub open spec fn spec_bytes(self) -> Seq<u8> {
        self.spec_ip_bytes() + be16(self.src_port) + be16(self.dst_port) + be16(
            self.spec_udp_length(),
        ) + be16(self.checksum)
    }

    /// The (source, destination) socket addresses.
    pub fn get_socket_addrs(&self) -> (a: (SocketAddress, SocketAddress))
        ensures
            a == self.spec_socket_addrs(),
    {
        let (src, dst) = self.ip_addrs.get_ip_addrs();
        (SocketAddress::new(src, self.src_port), SocketAddress::new(dst, self.dst_port))
    }

    /// The UDP length: the body and the UDP header.
    fn udp_length(&self) -> (l: u16)
        requires
            self.payload_length + 8 <= 0xffff,
        ensures
            l == self.spec_udp_length(),
    {
        self.payload_length + UDP_HEADER_LEN as u16
    }

    /// The 16-bit wrapping sum over the pseudo header, the UDP header with
    /// a zero checksum, and the body.
    fn calculate_checksum(&self, data: &[u8]) -> (c: u16)
        requires
            self.payload_length + 8 <= 0xffff,
        ensures
            c == spec_calculate_checksum(*self, data@),
            c as int == words_checksum(checksum_head(*self) + pad_to_words(data@)),
    {
        proof {
            lemma_checksum_covers_padded_body(*self, data@);
        }
        let mut head: Vec<u8> = Vec::new();
        UdpPseudoHeader::new_from_header(self).write_into_buf(&mut head);
        let udp_length = self.udp_length();
        let ports_and_length: [u8; 6] = [
            (self.src_port / 256) as u8,
            (self.src_port % 256) as u8,
            (self.dst_port / 256) as u8,
            (self.dst_port % 256) as u8,
            (udp_length / 256) as u8,
            (udp_length % 256) as u8,
        ];
        append_bytes(&mut head, ports_and_length.as_slice());
        assert(head@ =~= self.spec_pseudo_bytes() + be16(self.src_port) + be16(self.dst_port)
            + be16(self.spec_udp_length()));
        let mut bytes: [u8; 48] = [0u8; 48];
        let mut i: usize = 0;
        while i < head.len()
            invariant
                head@.len() <= 48,
                i <= head@.len(),
                bytes@.len() == 48,
                forall|j: int| 0 <= j < i ==> bytes@[j] == head@[j],
                forall|j: int| head@.len() <= j < 48 ==> bytes@[j] == 0,
            decreases head@.len() - i,
        {
            bytes[i] = head[i];
            i = i + 1;
        }
        assert(bytes@ =~= checksum_head(*self));
        let headers_checksum = checksum_arr(&bytes);
        let data_words = bytes_to_be_words(data);
        let mut data_checksum = wrapping_sum(data_words.as_slice());
        if data.len() % 2 == 1 {
            let last: u8 = data[data.len() - 1];
            data_checksum = data_checksum.wrapping_add(last as u16 * 256);
        } else {
            data_checksum = data_checksum.wrapping_add(0);
        }
        headers_checksum.wrapping_add(data_checksum)
    }

    /// Sets the checksum, unless one is set already: the complement of the
    /// checksum sum, or none when that complement is 0.
    pub fn set_checksum(&mut self, data: &[u8])
        requires
            old(self).payload_length + 8 <= 0xffff,
        ensures
            old(self).checksum != 0 ==> *final(self) == *old(self),
            old(self).checksum == 0 ==> *final(self) == (Header {
                checksum: (0xffff - spec_calculate_checksum(*old(self), data@)) as u16,
                ..*old(self)
            }),
    {
        if self.checksum != 0 {
            return;
        }
        let c = self.calculate_checksum(data);
        self.checksum = 0xffff - c;
    }

    /// Whether the checksum holds for the body; true when none is set.
    pub fn check_checksum(&self, data: &[u8]) -> (b: bool)
        requires
            self.payload_length + 8 <= 0xffff,
            self.checksum != 0 ==> spec_calculate_checksum(*self, data@) + self.checksum <= 0xffff,
        ensures
            b == (self.checksum == 0 || spec_calculate_checksum(*self, data@) + self.checksum
                == 0xffff),
    {
        if self.checksum == 0 {
            return true;
        }
        self.calculate_checksum(data) + self.checksum == crate::checksum::VALID_CHECKSUM
    }

    /// Appends the IP header and the UDP header to `into`.
    pub fn to_bytes(&self, into: &mut Vec<u8>)
        requires
            self.spec_writable(),
        ensures
            final(into)@ == old(into)@ + self.spec_bytes(),
    {
        let udp_length = self.udp_length();
        match &self.ip_addrs {
            IpAddrs::V4 { src, dst } => {
                let ip_header = crate::net::ip::Header::V4 {
                    src: *src,
                    dst: *dst,
                    ecn: self.ecn,
                    payload_length: udp_length,
                    protocol: PROTOCOL,
                };
                ip_header.write_into_buf(into);
            },
            IpAddrs::V6 { src, dst } => {
                let mut header: [u8; 40] = [0u8; 40];
                header[0] = 0x40;
                header[1] = ecn_bits(self.ecn) * 16;
                header[4] = (self.payload_length / 256) as u8;
                header[5] = (self.payload_length % 256) as u8;
                header[6] = PROTOCOL;
                header[7] = 64;
                let mut i: usize = 0;
                while i < 16
                    invariant
                        i <= 16,
                        header@.len() == 40,
                        header@[0] == 0x40u8,
                        header@[1] == (spec_ecn_bits(self.ecn) * 16) as u8,
                        header@[2] == 0u8,
                        header@[3] == 0u8,
                        header@[4] == (self.payload_length / 256) as u8,
                        header@[5] == (self.payload_length % 256) as u8,
                        header@[6] == PROTOCOL,
                        header@[7] == 64u8,
                        forall|j: int| 0 <= j < i ==> header@[8 + j] == src@[j],
                        forall|j: int| 0 <= j < i ==> header@[24 + j] == dst@[j],
                    decreases 16 - i,
                {
                    header[8 + i] = src[i];
                    header[24 + i] = dst[i];
                    i = i + 1;
                }
                assert(header@ =~= v6_frame_bytes(*src, *dst, self.ecn, self.payload_length));
                append_bytes(into, header.as_slice());
            },
        }
        let udp_header: [u8; 8] = [
            (self.src_port / 256) as u8,
            (self.src_port % 256) as u8,
            (self.dst_port / 256) as u8,
            (self.dst_port % 256) as u8,
            (udp_length / 256) as u8,
            (udp_length % 256) as u8,
            (self.checksum / 256) as u8,
            (self.checksum % 256) as u8,
        ];
        append_bytes(into, udp_header.as_slice());
        assert(into@ =~= old(into)@ + self.spec_bytes());
    }

    /// Reads a header from the front of `from`, giving the header and the
    /// number of bytes it took. The first 20 bytes are checked as an IPv4
    /// header before the version is looked at.
    pub fn try_from_bytes(from: &[u8]) -> (r: Result<(Header, usize), ParseError>)
        requires
            frame_parse_defined(from@),
        ensures
            match r {
                Ok((h, n)) => spec_parse_frame(from@) == Ok::<(Header, nat), ParseError>(
                    (h, n as nat),
                ) && n <= from@.len(),
                Err(e) => spec_parse_frame(from@) == Err::<(Header, nat), ParseError>(e),
            },
    {
        proof {
            reveal(spec_parse_frame);
        }
        let mut first_row: [u8; 20] = [0u8; 20];
        let mut i: usize = 0;
        while i < 20
            invariant
                i <= 20,
                from@.len() >= 20,
                first_row@.len() == 20,
                forall|j: int| 0 <= j < i ==> first_row@[j] == from@[j],
            decreases 20 - i,
        {
            first_row[i] = from[i];
            i = i + 1;
        }
        assert(first_row@ =~= from@.take(20));
        let ipv4_checksum = checksum_arr(&first_row);
        let first_byte = from[0];
        proof {
            lemma_u8_nibbles(first_byte);
        }
        let version = first_byte >> 4;
        if version == 4 {
            if ipv4_checksum != 0xffff {
                return Err(ParseError::InvalidChecksum(ipv4_checksum));
            }
            let ihl = first_byte & 0b1111;
            if ihl != 5 {
                return Err(ParseError::InvalidIhl(ihl));
            }
            let ecn = ecn_from_bits(from[1]);
            let total_length: u16 = from[2] as u16 * 256 + from[3] as u16;
            let protocol = from[9];
            if protocol != PROTOCOL {
                return Err(ParseError::InvalidProtocolNumber(protocol));
            }
            let src: [u8; 4] = [from[12], from[13], from[14], from[15]];
            let dst: [u8; 4] = [from[16], from[17], from[18], from[19]];
            assert(src =~= array4(from@.subrange(12, 16)));
            assert(dst =~= array4(from@.subrange(16, 20)));
            let payload_length: u16 = total_length - (IPV4_HEADER_LEN + UDP_HEADER_LEN) as u16;
            let src_port: u16 = from[20] as u16 * 256 + from[21] as u16;
            let dst_port: u16 = from[22] as u16 * 256 + from[23] as u16;
            let checksum: u16 = from[26] as u16 * 256 + from[27] as u16;
            Ok(
                (
                    Header {
                        ip_addrs: IpAddrs::V4 { src, dst },
                        src_port,
                        dst_port,
                        payload_length,
                        checksum,
                        ecn,
                    },
                    28,
                ),
            )
        } else if version == 6 {
            if from.len() - 1 < IPV6_HEADER_LEN - 1 {
                return Err(
                    ParseError::NotEnoughForHeaders { expected: 40, had: from.len() - 1 + 1 },
                );
            }
            let second_byte = from[1];
            proof {
                lemma_u8_nibbles(second_byte);
            }
            let ecn = ecn_from_bits(second_byte >> 4);
            let payload_length: u16 = from[4] as u16 * 256 + from[5] as u16;
            let next_header = from[6];
            if next_header != PROTOCOL {
                return Err(ParseError::UnexpectedNextHeader(next_header));
            }
            let src: [u8; 16] = [
                from[8], from[9], from[10], from[11], from[12], from[13], from[14], from[15],
                from[16], from[17], from[18], from[19], from[20], from[21], from[22], from[23],
            ];
            let dst: [u8; 16] = [
                from[24], from[25], from[26], from[27], from[28], from[29], from[30], from[31],
                from[32], from[33], from[34], from[35], from[36], from[37], from[38], from[39],
            ];
            assert(src =~= array16(from@.subrange(8, 24)));
            assert(dst =~= array16(from@.subrange(24, 40)));
            let src_port: u16 = from[40] as u16 * 256 + from[41] as u16;
            let dst_port: u16 = from[42] as u16 * 256 + from[43] as u16;
            let checksum: u16 = from[46] as u16 * 256 + from[47] as u16;
            Ok(
                (
                    Header {
                        ip_addrs: IpAddrs::V6 { src, dst },
                        src_port,
                        dst_port,
                        payload_length,
                        checksum,
                        ecn,
                    },
                    48,
                ),
            )
        } else {
            Err(ParseError::InvalidVersion(version))
        }
    }
}

/// A datagram: its header and its body.
#[derive(Clone, Debug)]
pub struct Packet {
    pub header: Header,
    pub data: Vec<u8>,
}

/// The packet that bytes read as, when the header can be read and the body
/// it announces is there.
pub open spec fn spec_parse_packet(b: Seq<u8>) -> Result<(Header, Seq<u8>), ParseError> {
    match spec_parse_frame(b) {
        Ok((h, n)) => {
            let rest = b.skip(n as int);
            if h.payload_length > rest.len() {
                Err(
                    ParseError::NotEnoughForData {
                        expected: h.payload_length,
                        had: rest.len() as usize,
                    },
                )
            } else {
                Ok((h, rest.take(h.payload_length as int)))
            }
        },
        Err(e) => Err(e),
    }
}

impl Packet {
    /// A packet whose header announces the length of its body.
    pub open spec fn wf(&self) -> bool {
        self.header.payload_length == self.data@.len()
    }

    /// The header as `set_checksum` leaves it.
    pub open spec fn spec_checksummed_header(&self) -> Header {
        if self.header.checksum != 0 {
            self.header
        } else {
            Header {
                checksum: (0xffff - spec_calculate_checksum(self.header, self.data@)) as u16,
                ..self.header
            }
        }
    }

    /// The bytes `into_bytes` appends: the header with the checksum set,
    /// then the body.
    pub open spec fn spec_bytes(&self) -> Seq<u8> {
        self.spec_checksummed_header().spec_bytes() + self.data@
    }

    /// A datagram from `src` to `dst` carrying `data`. The checksum is set
    /// for IPv6 and left unset for IPv4.
    pub fn new(src: SocketAddress, dst: SocketAddress, data: &[u8], ecn: Option<Ecn>) -> (p:
        Packet)
        requires
            src.ip.spec_is_v4() == dst.ip.spec_is_v4(),
            data@.len() <= 0xffff,
            !src.ip.spec_is_v4() ==> data@.len() + 8 <= 0xffff,
        ensures
            p.wf(),
            p.data@ == data@,
            p.header.ip_addrs.spec_ip_addrs() == (src.ip, dst.ip),
            p.header.ecn == ecn,
            p.header.src_port == src.port,
            p.header.dst_port == dst.port,
            src.ip.spec_is_v4() ==> p.header.checksum == 0,
            !src.ip.spec_is_v4() ==> p.header.checksum == (0xffff - spec_calculate_checksum(
                p.header,
                data@,
            )) as u16,
    {
        let ip_addrs = match (src.ip, dst.ip) {
            (IpAddress::V4(s), IpAddress::V4(d)) => IpAddrs::V4 { src: s, dst: d },
            (IpAddress::V6(s), IpAddress::V6(d)) => IpAddrs::V6 { src: s, dst: d },
            _ => unreached(),
        };
        let mut header = Header {
            ecn,
            ip_addrs,
            src_port: src.port,
            dst_port: dst.port,
            payload_length: data.len() as u16,
            checksum: 0,
        };
        if header.ip_addrs.is_v6() {
            header.set_checksum(data);
        }
        let mut body: Vec<u8> = Vec::new();
        append_bytes(&mut body, data);
        Packet { header, data: body }
    }

    /// Splits the contents of a transmission into datagrams of
    /// `segment_size` bytes each (the whole contents when no segment size is
    /// given), sent from `src_ip` or else from the IP of `src_addr`, at the
    /// port of `src_addr`. Contents past the last whole segment are dropped.
    pub fn packets_from_transmit(
        destination: SocketAddress,
        ecn: Option<Ecn>,
        contents: &[u8],
        segment_size: Option<usize>,
        src_ip: Option<IpAddress>,
        src_addr: SocketAddress,
    ) -> (out: Vec<Packet>)
        requires
            ({
                let ss = match segment_size {
                    Some(s) => s as int,
                    None => contents@.len() as int,
                };
                &&& ss > 0
                &&& ss < 0xffff
                &&& ss + 8 <= 0xffff
            }),
            (match src_ip {
                Some(ip) => ip,
                None => src_addr.ip,
            }).spec_is_v4() == destination.ip.spec_is_v4(),
        ensures
            ({
                let ss = match segment_size {
                    Some(s) => s as int,
                    None => contents@.len() as int,
                };
                let from = match src_ip {
                    Some(ip) => ip,
                    None => src_addr.ip,
                };
                &&& out@.len() == (contents@.len() as int) / ss
                &&& forall|i: int|
                    0 <= i < out@.len() ==> {
                        &&& (#[trigger] out@[i]).wf()
                        &&& out@[i].data@ == contents@.subrange(i * ss, (i + 1) * ss)
                        &&& out@[i].header.ip_addrs.spec_ip_addrs() == (from, destination.ip)
                        &&& out@[i].header.ecn == ecn
                        &&& out@[i].header.src_port == src_addr.port
                        &&& out@[i].header.dst_port == destination.port
                        &&& from.spec_is_v4() ==> out@[i].header.checksum == 0
                        &&& !from.spec_is_v4() ==> out@[i].header.checksum == (0xffff
                            - spec_calculate_checksum(out@[i].header, out@[i].data@)) as u16
                    }
            }),
    {
        let segment_size: usize = match segment_size {
            Some(s) => s,
            None => contents.len(),
        };
        let count: usize = contents.len() / segment_size;
        let from = match src_ip {
            Some(ip) => ip,
            None => src_addr.ip,
        };
        let mut out: Vec<Packet> = Vec::new();
        let mut i: usize = 0;
        while i < count
            invariant
                count == (contents@.len() as int) / (segment_size as int),
                contents@.len() <= usize::MAX,
                segment_size > 0,
                segment_size + 8 <= 0xffff,
                from.spec_is_v4() == destination.ip.spec_is_v4(),
                i <= count,
                out@.len() == i,
                forall|k: int|
                    0 <= k < i ==> {
                        &&& (#[trigger] out@[k]).wf()
                        &&& out@[k].data@ == contents@.subrange(
                            k * segment_size,
                            (k + 1) * segment_size,
                        )
                        &&& out@[k].header.ip_addrs.spec_ip_addrs() == (from, destination.ip)
                        &&& out@[k].header.ecn == ecn
                        &&& out@[k].header.src_port == src_addr.port
                        &&& out@[k].header.dst_port == destination.port
                        &&& from.spec_is_v4() ==> out@[k].header.checksum == 0
                        &&& !from.spec_is_v4() ==> out@[k].header.checksum == (0xffff
                            - spec_calculate_checksum(out@[k].header, out@[k].data@)) as u16
                    },
            decreases count - i,
        {
            proof {
                let len = contents@.len() as int;
                let ss = segment_size as int;
                vstd::arithmetic::div_mod::lemma_fundamental_div_mod(len, ss);
                assert((i as int + 1) * ss <= len) by (nonlinear_arith)
                    requires
                        i < count,
                        count == len / ss,
                        len == ss * (len / ss) + len % ss,
                        len % ss >= 0,
                        ss > 0,
                ;
                assert((i as int + 1) * ss == i as int * ss + ss) by (nonlinear_arith);
                assert(i as int * ss + ss <= len) by (nonlinear_arith)
                    requires
                        (i as int + 1) * ss <= len,
                ;
            }
            let start: usize = i * segment_size;
            let end: usize = start + segment_size;
            let mut segment: Vec<u8> = Vec::new();
            let mut j: usize = start;
            while j < end
                invariant
                    start <= j <= end,
                    end <= contents@.len(),
                    segment@ == contents@.subrange(start as int, j as int),
                decreases end - j,
            {
                segment.push(contents[j]);
                j = j + 1;
                assert(segment@ =~= contents@.subrange(start as int, j as int));
            }
            let p = Packet::new(
                SocketAddress::new(from, src_addr.port),
                destination,
                segment.as_slice(),
                ecn,
            );
            out.push(p);
            i = i + 1;
        }
        out
    }

    /// Sets the checksum, unless one is set already.
    pub fn set_checksum(&mut self)
        requires
            old(self).header.payload_length + 8 <= 0xffff,
        ensures
            final(self).data@ == old(self).data@,
            final(self).header == old(self).spec_checksummed_header(),
    {
        self.header.set_checksum(self.data.as_slice());
    }

    /// Whether the checksum holds for the body; true when none is set.
    pub fn check_checksum(&self) -> (b: bool)
        requires
            self.header.payload_length + 8 <= 0xffff,
            self.header.checksum != 0 ==> spec_calculate_checksum(self.header, self.data@)
                + self.header.checksum <= 0xffff,
        ensures
            b == (self.header.checksum == 0 || spec_calculate_checksum(self.header, self.data@)
                + self.header.checksum == 0xffff),
    {
        self.header.check_checksum(self.data.as_slice())
    }

    /// Sets the checksum if unset, then appends the header and the body to
    /// `into`.
    pub fn into_bytes(self, into: &mut Vec<u8>)
        requires
            self.header.spec_writable(),
        ensures
            final(into)@ == old(into)@ + self.spec_bytes(),
    {
        let mut this = self;
        this.header.set_checksum(this.data.as_slice());
        this.header.to_bytes(into);
        append_bytes(into, this.data.as_slice());
        assert(into@ =~= old(into)@ + self.spec_bytes());
    }

    /// Reads a packet from `bytes`: the header, then as many body bytes as
    /// it announces; bytes past the body are ignored.
    pub fn try_from_bytes(bytes: &[u8]) -> (r: Result<Packet, ParseError>)
        requires
            frame_parse_defined(bytes@),
        ensures
            match r {
                Ok(p) => p.wf() && spec_parse_packet(bytes@) == Ok::<(Header, Seq<u8>), ParseError>(
                    (p.header, p.data@),
                ),
                Err(e) => spec_parse_packet(bytes@) == Err::<(Header, Seq<u8>), ParseError>(e),
            },
    {
        let (header, n) = match Header::try_from_bytes(bytes) {
            Ok(x) => x,
            Err(e) => return Err(e),
        };
        let payload_length = header.payload_length;
        let had: usize = bytes.len() - n;
        if payload_length as usize > had {
            return Err(ParseError::NotEnoughForData { expected: payload_length, had });
        }
        let mut data: Vec<u8> = Vec::new();
        let mut j: usize = n;
        let end: usize = n + payload_length as usize;
        while j < end
            invariant
                n <= j <= end,
                end <= bytes@.len(),
                data@ == bytes@.subrange(n as int, j as int),
            decreases end - j,
        {
            data.push(bytes[j]);
            j = j + 1;
            assert(data@ =~= bytes@.subrange(n as int, j as int));
        }
        assert(data@ =~= bytes@.skip(n as int).take(payload_length as int));
        Ok(Packet { header, data })
    }
}

/// An IPv4 header written out and read back gives the same header,
/// whatever follows it.
#[verifier::spinoff_prover]
pub proof fn lemma_v4_frame_roundtrip(h: Header, rest: Seq<u8>)
    requires
        h.spec_writable(),
        !h.ip_addrs.spec_is_v6(),
    ensures
        frame_parse_defined(h.spec_bytes() + rest),
        spec_parse_frame(h.spec_bytes() + rest) == Ok::<(Header, nat), ParseError>((h, 28)),
{
    reveal(spec_parse_frame);
    let b = h.spec_bytes() + rest;
    match h.ip_addrs {
        IpAddrs::V4 { src, dst } => {
            let udp_len = h.spec_udp_length();
            let iph = crate::net::ip::Header::V4 {
                src,
                dst,
                ecn: h.ecn,
                payload_length: udp_len,
                protocol: PROTOCOL,
            };
            let tail = be16(h.src_port) + be16(h.dst_port) + be16(udp_len) + be16(h.checksum)
                + rest;
            assert(iph.spec_bytes() == v4_bytes(src, dst, h.ecn, udp_len, PROTOCOL));
            assert(b =~= iph.spec_bytes() + tail);
            crate::net::ip::lemma_header_roundtrip(iph, tail);
            assert(b[9] == PROTOCOL);
            assert(be16_value(b[2], b[3]) == udp_len + 20);
            assert(b[20] == be16(h.src_port)[0] && b[21] == be16(h.src_port)[1]);
            assert(b[22] == be16(h.dst_port)[0] && b[23] == be16(h.dst_port)[1]);
            assert(b[24] == be16(udp_len)[0] && b[25] == be16(udp_len)[1]);
            assert(b[26] == be16(h.checksum)[0] && b[27] == be16(h.checksum)[1]);
        },
        IpAddrs::V6 { .. } => {},
    }
}

/// An IPv4 datagram written out and read back gives the same header, with
/// the checksum that writing set, and the same body; and it passes its
/// checksum check unless it carried a wrong checksum before it was written.
#[verifier::spinoff_prover]
#[verifier::rlimit(40)]
pub proof fn lemma_v4_packet_roundtrip(p: Packet)
    requires
        p.wf(),
        p.header.spec_writable(),
        !p.header.ip_addrs.spec_is_v6(),
    ensures
        frame_parse_defined(p.spec_bytes()),
        spec_parse_packet(p.spec_bytes()) == Ok::<(Header, Seq<u8>), ParseError>(
            (p.spec_checksummed_header(), p.data@),
        ),
        (p.header.checksum == 0 || spec_calculate_checksum(p.header, p.data@) + p.header.checksum
            == 0xffff) ==> (p.spec_checksummed_header().checksum != 0 ==> spec_calculate_checksum(
            p.spec_checksummed_header(),
            p.data@,
        ) + p.spec_checksummed_header().checksum == 0xffff),
{
    let h = p.spec_checksummed_header();
    let b = p.spec_bytes();
    lemma_v4_frame_roundtrip(h, p.data@);
    assert(h.spec_bytes().len() == 28);
    assert(b.skip(28) =~= p.data@);
    assert(b.skip(28).take(p.data@.len() as int) =~= p.data@);
    assert(checksum_head(h) =~= checksum_head(p.header));
}

} // verus!
