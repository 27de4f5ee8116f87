use vstd::prelude::*;

use crate::checksum::{
    be_words, bytes_to_be_words, checksum_arr, lemma_padded_sum_sees_last_byte,
    lemma_split_sum_is_padded_sum, pad_to_words, word_sum, words_checksum, wrapping_sum,
};
use crate::net::addr::{IpAddress, SocketAddress};
use crate::net::ecn::Ecn;
use crate::net::error::ParseError;
use crate::net::ip;
use crate::net::ip::{
    append_bytes, be16, be16_value, header_parse_defined, header_parse_is_defined, spec_parse_header,
};

verus! {

/// The IP protocol number of UDP.
pub const PROTOCOL: u8 = 0x11;

/// Length in bytes of a UDP header.
pub const UDP_HEADER_LEN: usize = 8;

/// Length in bytes of the longest IP header and a UDP header together.
pub const MAX_HEADER_LEN: usize = 48;

/// A UDP header with the IP header that carries it. A checksum of 0 means
/// that no checksum is set.
#[derive(Clone, Copy, Debug, PartialEq, Eq)]
pub struct Header {
    pub ip_header: ip::Header,
    pub src_port: u16,
    pub dst_port: u16,
    pub checksum: u16,
}

/// The pseudo header of an IPv6 UDP datagram, over which the checksum runs.
pub struct Udpv6PseudoHeader {
    pub src_addr: [u8; 16],
    pub dst_addr: [u8; 16],
    pub udp_length: u16,
}

/// The pseudo header of an IPv4 UDP datagram, over which the checksum runs.
pub struct Udpv4PseudoHeader {
    pub src_addr: [u8; 4],
    pub dst_addr: [u8; 4],
    pub udp_length: u16,
}

/// The pseudo header of either IP version.
pub enum UdpPseudoHeader {
    V4(Udpv4PseudoHeader),
    V6(Udpv6PseudoHeader),
}

/// The wire bytes of a pseudo header: source, destination, a zero byte,
/// the protocol and the UDP length.
pub open spec fn pseudo_bytes(src: Seq<u8>, dst: Seq<u8>, udp_length: u16) -> Seq<u8> {
    src + dst + seq![0u8, PROTOCOL] + be16(udp_length)
}

impl Udpv4PseudoHeader {
    pub open spec fn spec_bytes(&self) -> Seq<u8> {
        pseudo_bytes(self.src_addr@, self.dst_addr@, self.udp_length)
    }

    /// The 12 wire bytes of the pseudo header.
    pub fn to_bytes(&self) -> (arr: [u8; 12])
        ensures
            arr@ == self.spec_bytes(),
    {
        let mut arr: [u8; 12] = [0u8; 12];
        arr[0] = self.src_addr[0];
        arr[1] = self.src_addr[1];
        arr[2] = self.src_addr[2];
        arr[3] = self.src_addr[3];
        arr[4] = self.dst_addr[0];
        arr[5] = self.dst_addr[1];
        arr[6] = self.dst_addr[2];
        arr[7] = self.dst_addr[3];
        arr[9] = PROTOCOL;
        arr[10] = (self.udp_length / 256) as u8;
        arr[11] = (self.udp_length % 256) as u8;
        assert(arr@ =~= self.spec_bytes());
        arr
    }
}

impl Udpv6PseudoHeader {
    pub open spec fn spec_bytes(&self) -> Seq<u8> {
        pseudo_bytes(self.src_addr@, self.dst_addr@, self.udp_length)
    }

    /// The 36 wire bytes of the pseudo header.
    pub fn to_bytes(&self) -> (arr: [u8; 36])
        ensures
            arr@ == self.spec_bytes(),
    {
        let mut arr: [u8; 36] = [0u8; 36];
        let mut i: usize = 0;
        while i < 16
            invariant
                i <= 16,
                arr@.len() == 36,
                forall|j: int| 32 <= j < 36 ==> arr@[j] == 0,
                forall|j: int| 0 <= j < i ==> arr@[j] == self.src_addr@[j],
                forall|j: int| 0 <= j < i ==> arr@[16 + j] == self.dst_addr@[j],
            decreases 16 - i,
        {
            arr[i] = self.src_addr[i];
            arr[16 + i] = self.dst_addr[i];
            i = i + 1;
        }
        arr[33] = PROTOCOL;
        arr[34] = (self.udp_length / 256) as u8;
        arr[35] = (self.udp_length % 256) as u8;
        assert(arr@ =~= self.spec_bytes());
        arr
    }
}

impl UdpPseudoHeader {
    pub open spec fn spec_bytes(&self) -> Seq<u8> {
        match self {
            UdpPseudoHeader::V4(h) => h.spec_bytes(),
            UdpPseudoHeader::V6(h) => h.spec_bytes(),
        }
    }

    /// The pseudo header of a UDP header.
    pub fn new_from_header(udp_header: &Header) -> (p: UdpPseudoHeader)
        ensures
            p.spec_bytes() == udp_header.spec_pseudo_bytes(),
    {
        match &udp_header.ip_header {
            ip::Header::V4 { src, dst, .. } => UdpPseudoHeader::V4(
                Udpv4PseudoHeader {
                    src_addr: *src,
                    dst_addr: *dst,
                    udp_length: udp_header.udp_length(),
                },
            ),
            ip::Header::V6 { src, dst, .. } => UdpPseudoHeader::V6(
                Udpv6PseudoHeader {
                    src_addr: *src,
                    dst_addr: *dst,
                    udp_length: udp_header.udp_length(),
                },
            ),
        }
    }

    /// Appends the wire bytes of the pseudo header to `buf`.
    pub fn write_into_buf(&self, buf: &mut Vec<u8>)
        ensures
            final(buf)@ == old(buf)@ + self.spec_bytes(),
    {
        match self {
            UdpPseudoHeader::V4(header) => {
                let b = header.to_bytes();
                append_bytes(buf, b.as_slice());
            },
            UdpPseudoHeader::V6(header) => {
                let b = header.to_bytes();
                append_bytes(buf, b.as_slice());
            },
        }
    }
}

/// What the last byte of an odd-length body adds to the checksum, as the
/// high byte of a word.
pub open spec fn odd_tail(data: Seq<u8>) -> int {
    if data.len() % 2 == 1 {
        data.last() as int * 256
    } else {
        0
    }
}

/// The 48 bytes over which the header part of the UDP checksum runs: the
/// pseudo header, the ports and the UDP length, padded with zeros.
pub open spec fn checksum_head(h: Header) -> Seq<u8> {
    let head = h.spec_pseudo_bytes() + be16(h.src_port) + be16(h.dst_port) + be16(
        h.spec_udp_length(),
    );
    head + Seq::new((48 - head.len()) as nat, |i: int| 0u8)
}

/// The UDP checksum sum of a header and a body: the 16-bit wrapping sum of
/// the words of the padded head, of the body's words, and of the body's odd
/// last byte.
pub open spec fn spec_calculate_checksum(h: Header, data: Seq<u8>) -> u16 {
    ((words_checksum(checksum_head(h)) + (word_sum(be_words(data)) % 0x10000 + odd_tail(data))
        % 0x10000) % 0x10000) as u16
}

/// The UDP checksum sum of a header and a body is the 16-bit wrapping sum
/// of the big-endian words of the checksum head (pseudo header and UDP
/// header with a zero checksum, padded with zeros to 48 bytes) followed by
/// the whole body, an odd last byte padded with a zero byte.
pub proof fn lemma_checksum_covers_padded_body(h: Header, data: Seq<u8>)
    ensures
        spec_calculate_checksum(h, data) as int == words_checksum(checksum_head(h) + pad_to_words(data)),
{
    let head = h.spec_pseudo_bytes() + be16(h.src_port) + be16(h.dst_port) + be16(
        h.spec_udp_length(),
    );
    assert(head.len() <= 48);
    assert(checksum_head(h).len() == 48);
    lemma_split_sum_is_padded_sum(checksum_head(h), data);
    let v = (words_checksum(checksum_head(h)) + (word_sum(be_words(data)) % 0x10000
        + crate::net::udp::odd_tail(data)) % 0x10000) % 0x10000;
    assert(0 <= v < 0x10000);
}

/// Every byte of an odd-length body counts: replacing its last byte by
/// another changes the checksum sum, so a corrupted last byte is caught.
pub proof fn lemma_checksum_sees_last_byte(h: Header, data: Seq<u8>, x: u8)
    requires
        data.len() % 2 == 1,
        x != data.last(),
    ensures
        spec_calculate_checksum(h, data.update(data.len() - 1, x)) != spec_calculate_checksum(h, data),
{
    lemma_checksum_covers_padded_body(h, data);
    lemma_checksum_covers_padded_body(h, data.update(data.len() - 1, x));
    let head = h.spec_pseudo_bytes() + be16(h.src_port) + be16(h.dst_port) + be16(
        h.spec_udp_length(),
    );
    assert(head.len() <= 48);
    assert(checksum_head(h).len() == 48);
    lemma_padded_sum_sees_last_byte(checksum_head(h), data, x);
}

/// The inputs on which reading a UDP header runs to an answer: the IP
/// header can be read; after it, if it was read, the 8 bytes of the UDP
/// header are there and its length field repeats the IP payload length.
pub open spec fn udp_parse_defined(b: Seq<u8>) -> bool {
    &&& header_parse_defined(b)
    &&& spec_parse_header(b) matches Ok((iph, n)) ==> {
        &&& b.len() >= n + 8
        &&& be16_value(b[n as int + 4], b[n as int + 5]) == iph.spec_payload_length()
    }
}

/// What reading a UDP header from the front of `b` gives: the header and
/// the number of bytes it took, or the error.
pub open spec fn spec_parse_udp_header(b: Seq<u8>) -> Result<(Header, nat), ParseError> {
    match spec_parse_header(b) {
        Ok((iph, n)) => {
            let k = n as int;
            Ok(
                (
                    Header {
                        ip_header: iph,
                        src_port: be16_value(b[k], b[k + 1]) as u16,
                        dst_port: be16_value(b[k + 2], b[k + 3]) as u16,
                        checksum: be16_value(b[k + 6], b[k + 7]) as u16,
                    },
                    n + 8,
                ),
            )
        },
        Err(e) => Err(e),
    }
}

impl Header {
    pub open spec fn spec_udp_length(self) -> u16 {
        self.ip_header.spec_payload_length()
    }

    pub open spec fn spec_payload_length(self) -> u16 {
        (self.ip_header.spec_payload_length() - 8) as u16
    }

    pub open spec fn spec_pseudo_bytes(self) -> Seq<u8> {
        match self.ip_header {
            ip::Header::V4 { src, dst, .. } => pseudo_bytes(src@, dst@, self.spec_udp_length()),
            ip::Header::V6 { src, dst, .. } => pseudo_bytes(src@, dst@, self.spec_udp_length()),
        }
    }

    pub open spec fn spec_socket_addrs(self) -> (SocketAddress, SocketAddress) {
        (
            SocketAddress { ip: self.ip_header.spec_ip_addrs().0, port: self.src_port },
            SocketAddress { ip: self.ip_header.spec_ip_addrs().1, port: self.dst_port },
        )
    }

    /// The header readdressed from `src` to `dst`, with no checksum set.
    pub open spec fn spec_with_addrs(self, src: SocketAddress, dst: SocketAddress) -> Header {
        Header {
            ip_header: ip::ip_with_addrs(self.ip_header, src.ip, dst.ip),
            src_port: src.port,
            dst_port: dst.port,
            checksum: 0,
        }
    }

    /// The wire bytes of the IP header followed by the UDP header.
    pub open spec fn spec_bytes(self) -> Seq<u8> {
        self.ip_header.spec_bytes() + be16(self.src_port) + be16(self.dst_port) + be16(
            self.spec_udp_length(),
        ) + be16(self.checksum)
    }

    /// The length of the UDP body: the IP payload less the UDP header.
    pub fn payload_length(&self) -> (l: u16)
        requires
            self.ip_header.spec_payload_length() >= 8,
        ensures
            l == self.spec_payload_length(),
    {
        self.ip_header.payload_length() - UDP_HEADER_LEN as u16
    }

    /// The (source, destination) socket addresses.
    pub fn get_socket_addrs(&self) -> (a: (SocketAddress, SocketAddress))
        ensures
            a == self.spec_socket_addrs(),
    {
        let (src, dst) = self.ip_header.get_ip_addrs();
        (SocketAddress::new(src, self.src_port), SocketAddress::new(dst, self.dst_port))
    }

    /// The source socket address.
    pub fn get_src_addr(&self) -> (a: SocketAddress)
        ensures
            a == self.spec_socket_addrs().0,
    {
        self.get_socket_addrs().0
    }

    /// The destination socket address.
    pub fn get_dst_addr(&self) -> (a: SocketAddress)
        ensures
            a == self.spec_socket_addrs().1,
    {
        self.get_socket_addrs().1
    }

    /// The UDP length field: the IP payload length.
    fn udp_length(&self) -> (l: u16)
        ensures
            l == self.spec_udp_length(),
    {
        self.ip_header.payload_length()
    }

    /// The 16-bit wrapping sum over the pseudo header, the UDP header with a
    /// zero checksum, and the body.
    pub fn calculate_checksum(&self, data: &[u8]) -> (c: u16)
        ensures
            c == spec_calculate_checksum(*self, data@),
            c as int == words_checksum(checksum_head(*self) + pad_to_words(data@)),
    {
        proof {
            lemma_checksum_covers_padded_body(*self, data@);
        }
        let mut head: Vec<u8> = Vec::new();
        UdpPseudoHeader::new_from_header(self).write_into_buf(&mut head);
        append_bytes(&mut head, &[(self.src_port / 256) as u8, (self.src_port % 256) as u8]);
        append_bytes(&mut head, &[(self.dst_port / 256) as u8, (self.dst_port % 256) as u8]);
        let udp_length = self.udp_length();
        append_bytes(&mut head, &[(udp_length / 256) as u8, (udp_length % 256) as u8]);
        let mut bytes: [u8; 48] = [0u8; 48];
        let mut i: usize = 0;
        while i < head.len()
            invariant
                head@.len() <= 48,
                i <= head@.len(),
                bytes@.len() == 48,
                forall|j: int| 0 <= j < i ==> bytes@[j] == head@[j],
                forall|j: int| head@.len() <= j < 48 ==> bytes@[j] == 0,
            decreases head@.len() - i,
        {
            bytes[i] = head[i];
            i = i + 1;
        }
        assert(bytes@ =~= checksum_head(*self));
        let headers_checksum = checksum_arr(&bytes);
        let data_words = bytes_to_be_words(data);
        let mut data_checksum = wrapping_sum(data_words.as_slice());
        if data.len() % 2 == 1 {
            let last: u8 = data[data.len() - 1];
            data_checksum = data_checksum.wrapping_add(last as u16 * 256);
        } else {
            data_checksum = data_checksum.wrapping_add(0);
        }
        headers_checksum.wrapping_add(data_checksum)
    }

    /// Sets the checksum, unless one is set already: the complement of the
    /// checksum sum, or none when that complement is 0.
    pub fn set_checksum(&mut self, data: &[u8])
        ensures
            final(self).ip_header == old(self).ip_header,
            final(self).src_port == old(self).src_port,
            final(self).dst_port == old(self).dst_port,
            old(self).checksum != 0 ==> final(self).checksum == old(self).checksum,
            old(self).checksum == 0 ==> final(self).checksum == (0xffff
                - spec_calculate_checksum(*old(self), data@)) as u16,
    {
        if self.checksum != 0 {
            return;
        }
        let c = self.calculate_checksum(data);
        self.checksum = 0xffff - c;
    }

    /// Whether the checksum holds for the body; true when no checksum is set.
    pub fn check_checksum(&self, data: &[u8]) -> (b: bool)
        requires
            self.checksum != 0 ==> spec_calculate_checksum(*self, data@) + self.checksum <= 0xffff,
        ensures
            b == (self.checksum == 0 || spec_calculate_checksum(*self, data@) + self.checksum
                == 0xffff),
    {
        if self.checksum == 0 {
            return true;
        }
        self.calculate_checksum(data) + self.checksum == crate::checksum::VALID_CHECKSUM
    }

    /// Appends the wire bytes of the IP header and the UDP header to `into`.
    pub fn write_into_buf(&self, into: &mut Vec<u8>)
        requires
            self.ip_header.spec_writable(),
        ensures
            final(into)@ == old(into)@ + self.spec_bytes(),
    {
        self.ip_header.write_into_buf(into);
        let udp_length = self.udp_length();
        let udp_header: [u8; 8] = [
            (self.src_port / 256) as u8,
            (self.src_port % 256) as u8,
            (self.dst_port / 256) as u8,
            (self.dst_port % 256) as u8,
            (udp_length / 256) as u8,
            (udp_length % 256) as u8,
            (self.checksum / 256) as u8,
            (self.checksum % 256) as u8,
        ];
        append_bytes(into, udp_header.as_slice());
        assert(into@ =~= old(into)@ + self.spec_bytes());
    }

    /// Reads an IP header and a UDP header from the front of `from`, giving
    /// the header and the number of bytes they took.
    pub fn try_from_buf(from: &[u8]) -> (r: Result<(Header, usize), ParseError>)
        requires
            udp_parse_defined(from@),
        ensures
            match r {
                Ok((h, n)) => spec_parse_udp_header(from@) == Ok::<(Header, nat), ParseError>(
                    (h, n as nat),
                ),
                Err(e) => spec_parse_udp_header(from@) == Err::<(Header, nat), ParseError>(e),
            },
    {
        let (ip_header, n) = match ip::Header::try_from_buf(from) {
            Ok(x) => x,
            Err(e) => return Err(e),
        };
        let src_port: u16 = from[n] as u16 * 256 + from[n + 1] as u16;
        let dst_port: u16 = from[n + 2] as u16 * 256 + from[n + 3] as u16;
        let udp_length: u16 = from[n + 4] as u16 * 256 + from[n + 5] as u16;
        assert(udp_length == ip_header.spec_payload_length());
        let checksum: u16 = from[n + 6] as u16 * 256 + from[n + 7] as u16;
        Ok((Header { ip_header, src_port, dst_port, checksum }, n + 8))
    }
}

/// A UDP datagram: its headers and its body.
#[derive(Clone, Debug)]
pub struct Packet {
    pub header: Header,
    pub data: Vec<u8>,
}

/// The packet that bytes read as, when the headers can be read and the
/// body announced is there.
pub open spec fn spec_parse_packet(b: Seq<u8>) -> Result<(Header, Seq<u8>), ParseError> {
    match spec_parse_udp_header(b) {
        Ok((h, n)) => {
            let rest = b.skip(n as int);
            if h.spec_payload_length() > rest.len() {
                Err(
                    ParseError::NotEnoughForData {
                        expected: h.spec_payload_length(),
                        had: rest.len() as usize,
                    },
                )
            } else {
                Ok((h, rest.take(h.spec_payload_length() as int)))
            }
        },
        Err(e) => Err(e),
    }
}

/// The inputs on which reading a packet runs to an answer: the headers can
/// be read, and the IP payload they announce holds at least the UDP header.
pub open spec fn packet_parse_defined(b: Seq<u8>) -> bool {
    &&& udp_parse_defined(b)
    &&& spec_parse_udp_header(b) matches Ok((h, n)) ==> h.ip_header.spec_payload_length() >= 8
}

/// Whether reading a packet from `bytes` runs to an answer; see
/// `packet_parse_defined`.
pub fn packet_parse_is_defined(bytes: &[u8]) -> (b: bool)
    ensures
        b == packet_parse_defined(bytes@),
{
    if !header_parse_is_defined(bytes) {
        return false;
    }
    match ip::Header::try_from_buf(bytes) {
        Err(_) => true,
        Ok((iph, n)) => {
            if n > bytes.len() || bytes.len() - n < 8 {
                return false;
            }
            let field: u16 = (bytes[n + 4] as u16) * 256 + (bytes[n + 5] as u16);
            let payload_length = iph.payload_length();
            field == payload_length && payload_length >= 8
        },
    }
}

/// The header as setting the checksum for `data` leaves it.
pub open spec fn checksummed_header(h: Header, data: Seq<u8>) -> Header {
    if h.checksum != 0 {
        h
    } else {
        Header { checksum: (0xffff - spec_calculate_checksum(h, data)) as u16, ..h }
    }
}

/// The bytes of a datagram with header `h` and body `data` as it is
/// written: the headers with the checksum set, then the body.
pub open spec fn packet_bytes(h: Header, data: Seq<u8>) -> Seq<u8> {
    checksummed_header(h, data).spec_bytes() + data
}

impl Packet {
    /// A packet whose IP payload length is its body plus the UDP header.
    pub open spec fn wf(&self) -> bool {
        self.header.ip_header.spec_payload_length() == self.data@.len() + 8
    }

    /// The header as `set_checksum` leaves it.
    pub open spec fn spec_checksummed_header(&self) -> Header {
        checksummed_header(self.header, self.data@)
    }

    /// The bytes `write_into_buf` appends: the headers with the checksum set,
    /// then the body.
    pub open spec fn spec_bytes(&self) -> Seq<u8> {
        packet_bytes(self.header, self.data@)
    }

    /// A datagram from `src` to `dst` carrying `data`. The checksum is set
    /// for IPv6, where it is mandatory, and left unset for IPv4.
    pub fn new(src: SocketAddress, dst: SocketAddress, data: &[u8], ecn: Option<Ecn>) -> (p:
        Packet)
        requires
            src.ip.spec_is_v4() == dst.ip.spec_is_v4(),
            data@.len() + 8 <= 0xffff,
        ensures
            p.wf(),
            p.data@ == data@,
            p.header.ip_header.spec_ip_addrs() == (src.ip, dst.ip),
            p.header.ip_header.spec_ecn() == ecn,
            p.header.ip_header.spec_protocol() == PROTOCOL,
            p.header.src_port == src.port,
            p.header.dst_port == dst.port,
            src.ip.spec_is_v4() ==> p.header.checksum == 0,
            !src.ip.spec_is_v4() ==> p.header.checksum == (0xffff - spec_calculate_checksum(
                p.header,
                data@,
            )) as u16,
    {
        let ip_header = ip::Header::new(
            src.ip,
            dst.ip,
            ecn,
            data.len() as u16 + UDP_HEADER_LEN as u16,
            PROTOCOL,
        );
        let mut header = Header { ip_header, src_port: src.port, dst_port: dst.port, checksum: 0 };
        if header.ip_header.is_v6() {
            header.set_checksum(data);
        }
        let mut body: Vec<u8> = Vec::new();
        append_bytes(&mut body, data);
        Packet { header, data: body }
    }

    /// Splits the contents of a transmission into datagrams of
    /// `segment_size` bytes each (the whole contents when no segment size is
    /// given), sent from `src_ip` or else from the IP of `src_addr`, at the
    /// port of `src_addr`. Contents past the last whole segment are dropped.
    pub fn packets_from_transmit(
        destination: SocketAddress,
        ecn: Option<Ecn>,
        contents: &[u8],
        segment_size: Option<usize>,
        src_ip: Option<IpAddress>,
        src_addr: SocketAddress,
    ) -> (out: Vec<Packet>)
        requires
            ({
                let ss = match segment_size {
                    Some(s) => s as int,
                    None => contents@.len() as int,
                };
                &&& ss > 0
                &&& ss < 0xffff
                &&& ss + 8 <= 0xffff
            }),
            (match src_ip {
                Some(ip) => ip,
                None => src_addr.ip,
            }).spec_is_v4() == destination.ip.spec_is_v4(),
        ensures
            ({
                let ss = match segment_size {
                    Some(s) => s as int,
                    None => contents@.len() as int,
                };
                let from = match src_ip {
                    Some(ip) => ip,
                    None => src_addr.ip,
                };
                &&& out@.len() == (contents@.len() as int) / ss
                &&& forall|i: int|
                    0 <= i < out@.len() ==> {
                        &&& (#[trigger] out@[i]).wf()
                        &&& out@[i].data@ == contents@.subrange(i * ss, (i + 1) * ss)
                        &&& out@[i].header.ip_header.spec_ip_addrs() == (from, destination.ip)
                        &&& out@[i].header.ip_header.spec_ecn() == ecn
                        &&& out@[i].header.ip_header.spec_protocol() == PROTOCOL
                        &&& out@[i].header.src_port == src_addr.port
                        &&& out@[i].header.dst_port == destination.port
                        &&& from.spec_is_v4() ==> out@[i].header.checksum == 0
                        &&& !from.spec_is_v4() ==> out@[i].header.checksum == (0xffff
                            - spec_calculate_checksum(out@[i].header, out@[i].data@)) as u16
                    }
            }),
    {
        let segment_size: usize = match segment_size {
            Some(s) => s,
            None => contents.len(),
        };
        let count: usize = contents.len() / segment_size;
        let from = match src_ip {
            Some(ip) => ip,
            None => src_addr.ip,
        };
        let mut out: Vec<Packet> = Vec::new();
        let mut i: usize = 0;
        while i < count
            invariant
                count == (contents@.len() as int) / (segment_size as int),
                contents@.len() <= usize::MAX,
                segment_size > 0,
                segment_size + 8 <= 0xffff,
                from.spec_is_v4() == destination.ip.spec_is_v4(),
                i <= count,
                out@.len() == i,
                forall|k: int|
                    0 <= k < i ==> {
                        &&& (#[trigger] out@[k]).wf()
                        &&& out@[k].data@ == contents@.subrange(
                            k * segment_size,
                            (k + 1) * segment_size,
                        )
                        &&& out@[k].header.ip_header.spec_ip_addrs() == (from, destination.ip)
                        &&& out@[k].header.ip_header.spec_ecn() == ecn
                        &&& out@[k].header.ip_header.spec_protocol() == PROTOCOL
                        &&& out@[k].header.src_port == src_addr.port
                        &&& out@[k].header.dst_port == destination.port
                        &&& from.spec_is_v4() ==> out@[k].header.checksum == 0
                        &&& !from.spec_is_v4() ==> out@[k].header.checksum == (0xffff
                            - spec_calculate_checksum(out@[k].header, out@[k].data@)) as u16
                    },
            decreases count - i,
        {
            proof {
                let len = contents@.len() as int;
                let ss = segment_size as int;
                vstd::arithmetic::div_mod::lemma_fundamental_div_mod(len, ss);
                assert((i as int + 1) * ss <= len) by (nonlinear_arith)
                    requires
                        i < count,
                        count == len / ss,
                        len == ss * (len / ss) + len % ss,
                        len % ss >= 0,
                        ss > 0,
                ;
                assert((i as int + 1) * ss == i as int * ss + ss) by (nonlinear_arith);
                assert(i as int * ss + ss <= len) by (nonlinear_arith)
                    requires
                        (i as int + 1) * ss <= len,
                ;
            }
            let start: usize = i * segment_size;
            let end: usize = start + segment_size;
            let mut segment: Vec<u8> = Vec::new();
            let mut j: usize = start;
            while j < end
                invariant
                    start <= j <= end,
                    end <= contents@.len(),
                    segment@ == contents@.subrange(start as int, j as int),
                decreases end - j,
            {
                segment.push(contents[j]);
                j = j + 1;
                assert(segment@ =~= contents@.subrange(start as int, j as int));
            }
            let p = Packet::new(
                SocketAddress::new(from, src_addr.port),
                destination,
                segment.as_slice(),
                ecn,
            );
            out.push(p);
            i = i + 1;
        }
        out
    }

    /// Sets the checksum, unless one is set already.
    pub fn set_checksum(&mut self)
        ensures
            final(self).data@ == old(self).data@,
            final(self).header == old(self).spec_checksummed_header(),
    {
        self.header.set_checksum(self.data.as_slice());
    }

    /// Whether the checksum holds for the body; true when none is set.
    pub fn check_checksum(&self) -> (b: bool)
        requires
            self.header.checksum != 0 ==> spec_calculate_checksum(self.header, self.data@)
                + self.header.checksum <= 0xffff,
        ensures
            b == (self.header.checksum == 0 || spec_calculate_checksum(self.header, self.data@)
                + self.header.checksum == 0xffff),
    {
        self.header.check_checksum(self.data.as_slice())
    }

    /// Sets the checksum if unset, then appends the headers and the body to
    /// `into`.
    pub fn write_into_buf(self, into: &mut Vec<u8>)
        requires
            self.header.ip_header.spec_writable(),
        ensures
            final(into)@ == old(into)@ + self.spec_bytes(),
    {
        let mut this = self;
        this.header.set_checksum(this.data.as_slice());
        this.header.write_into_buf(into);
        append_bytes(into, this.data.as_slice());
        assert(into@ =~= old(into)@ + self.spec_bytes());
    }

    /// Reads a packet from `bytes`: the headers, then as many body bytes as
    /// they announce; bytes past the body are ignored.
    pub fn try_from_bytes(bytes: &[u8]) -> (r: Result<Packet, ParseError>)
        requires
            packet_parse_defined(bytes@),
        ensures
            match r {
                Ok(p) => p.wf() && spec_parse_packet(bytes@) == Ok::<(Header, Seq<u8>), ParseError>(
                    (p.header, p.data@),
                ),
                Err(e) => spec_parse_packet(bytes@) == Err::<(Header, Seq<u8>), ParseError>(e),
            },
    {
        let (header, n) = match Header::try_from_buf(bytes) {
            Ok(x) => x,
            Err(e) => return Err(e),
        };
        let payload_length = header.payload_length();
        let had: usize = bytes.len() - n;
        if payload_length as usize > had {
            return Err(ParseError::NotEnoughForData { expected: payload_length, had });
        }
        let mut data: Vec<u8> = Vec::new();
        let mut j: usize = n;
        let end: usize = n + payload_length as usize;
        while j < end
            invariant
                n <= j <= end,
                end <= bytes@.len(),
                data@ == bytes@.subrange(n as int, j as int),
            decreases end - j,
        {
            data.push(bytes[j]);
            j = j + 1;
            assert(data@ =~= bytes@.subrange(n as int, j as int));
        }
        assert(data@ =~= bytes@.skip(n as int).take(payload_length as int));
        Ok(Packet { header, data })
    }

    /// A copy of the body.
    pub fn body(&self) -> (b: Vec<u8>)
        ensures
            b@ == self.data@,
    {
        let mut b: Vec<u8> = Vec::new();
        append_bytes(&mut b, self.data.as_slice());
        b
    }

    /// The headers.
    pub fn header(&self) -> (h: &Header)
        ensures
            *h == self.header,
    {
        &self.header
    }

    /// Readdresses the packet to `addr`, whose IP version must be the
    /// packet's. A checksum set before no longer covers the new address, so
    /// it is cleared and set again when the packet is written.
    pub fn set_dst_addr(&mut self, addr: SocketAddress)
        requires
            addr.ip.spec_is_v4() == old(self).header.ip_header.spec_ip_addrs().0.spec_is_v4(),
        ensures
            final(self).data@ == old(self).data@,
            final(self).header.ip_header.spec_ip_addrs() == (
                old(self).header.ip_header.spec_ip_addrs().0,
                addr.ip,
            ),
            final(self).header.ip_header.spec_ecn() == old(self).header.ip_header.spec_ecn(),
            final(self).header.ip_header.spec_payload_length()
                == old(self).header.ip_header.spec_payload_length(),
            final(self).header.ip_header.spec_protocol()
                == old(self).header.ip_header.spec_protocol(),
            final(self).header.src_port == old(self).header.src_port,
            final(self).header.dst_port == addr.port,
            final(self).header.checksum == 0,
            final(self).header == old(self).header.spec_with_addrs(
                old(self).header.spec_socket_addrs().0,
                addr,
            ),
    {
        let (src, _) = self.header.ip_header.get_ip_addrs();
        match (src, addr.ip) {
            (IpAddress::V4(s), IpAddress::V4(d)) => self.header.ip_header.set_v4_address(s, d),
            (IpAddress::V6(s), IpAddress::V6(d)) => self.header.ip_header.set_v6_address(s, d),
            _ => unreached(),
        }
        self.header.dst_port = addr.port;
        self.header.checksum = 0;
    }

    /// Changes the packet's sender to `addr`, whose IP version must be the
    /// packet's. A checksum set before no longer covers the new address, so
    /// it is cleared and set again when the packet is written.
    pub fn set_src_addr(&mut self, addr: SocketAddress)
        requires
            addr.ip.spec_is_v4() == old(self).header.ip_header.spec_ip_addrs().1.spec_is_v4(),
        ensures
            final(self).data@ == old(self).data@,
            final(self).header.ip_header.spec_ip_addrs() == (
                addr.ip,
                old(self).header.ip_header.spec_ip_addrs().1,
            ),
            final(self).header.ip_header.spec_ecn() == old(self).header.ip_header.spec_ecn(),
            final(self).header.ip_header.spec_payload_length()
                == old(self).header.ip_header.spec_payload_length(),
            final(self).header.ip_header.spec_protocol()
                == old(self).header.ip_header.spec_protocol(),
            final(self).header.src_port == addr.port,
            final(self).header.dst_port == old(self).header.dst_port,
            final(self).header.checksum == 0,
            final(self).header == old(self).header.spec_with_addrs(
                addr,
                old(self).header.spec_socket_addrs().1,
            ),
    {
        let (_, dst) = self.header.ip_header.get_ip_addrs();
        match (addr.ip, dst) {
            (IpAddress::V4(s), IpAddress::V4(d)) => self.header.ip_header.set_v4_address(s, d),
            (IpAddress::V6(s), IpAddress::V6(d)) => self.header.ip_header.set_v6_address(s, d),
            _ => unreached(),
        }
        self.header.src_port = addr.port;
        self.header.checksum = 0;
    }
}

/// A datagram written out and read back gives the same headers, with the
/// checksum that writing set, and the same body; and it passes its checksum
/// check unless it carried a wrong checksum before it was written.
#[verifier::spinoff_prover]
#[verifier::rlimit(40)]
pub proof fn lemma_packet_roundtrip(p: Packet)
    requires
        p.wf(),
        p.header.ip_header.spec_writable(),
    ensures
        packet_parse_defined(p.spec_bytes()),
        spec_parse_packet(p.spec_bytes()) == Ok::<(Header, Seq<u8>), ParseError>(
            (p.spec_checksummed_header(), p.data@),
        ),
        (p.header.checksum == 0 || spec_calculate_checksum(p.header, p.data@) + p.header.checksum
            == 0xffff) ==> (p.spec_checksummed_header().checksum != 0 ==> spec_calculate_checksum(
            p.spec_checksummed_header(),
            p.data@,
        ) + p.spec_checksummed_header().checksum == 0xffff),
{
    let h = p.spec_checksummed_header();
    let b = p.spec_bytes();
    let iph = h.ip_header.spec_bytes();
    let rest = be16(h.src_port) + be16(h.dst_port) + be16(h.spec_udp_length()) + be16(h.checksum)
        + p.data@;
    assert(b =~= iph + rest);
    ip::lemma_header_roundtrip(h.ip_header, rest);
    let n = iph.len() as int;
    assert(b.skip(n + 8) =~= p.data@);
    assert(b.skip(n + 8).take(p.data@.len() as int) =~= p.data@);
    assert(checksum_head(h) =~= checksum_head(p.header));
}

} // verus!
