use dens::checksum::{checksum_arr, wrapping_sum};
use dens::net::addr::{IpAddress, SocketAddress};
use dens::net::ecn::Ecn;
use dens::net::error::ParseError;
use dens::net::ip;
use dens::net::routes::{AddressGenerator, Prefix, RouteError, Routes};
use dens::net::translator::{Forward, GenericNat, Symmetric};
use dens::sim::{MachineId, MachineIdCounter};
use dens::net::udp::{Packet, Udpv4PseudoHeader, Udpv6PseudoHeader};
use dens::udp;

fn v4(a: u8, b: u8, c: u8, d: u8, port: u16) -> SocketAddress {
    SocketAddress::new(IpAddress::V4([a, b, c, d]), port)
}

fn v6_doc(port: u16) -> SocketAddress {
    // 2001:db8:85a3::8a2e:370:7334
    SocketAddress::new(
        IpAddress::V6([
            0x20, 0x01, 0x0d, 0xb8, 0x85, 0xa3, 0, 0, 0, 0, 0x8a, 0x2e, 0x03, 0x70, 0x73, 0x34,
        ]),
        port,
    )
}

#[test]
fn lib_quinn() {
    // the UDP layer links against quinn-udp: the codepoints of a header read
    // back decode through it
    for ecn in [None, Some(Ecn::Ect0), Some(Ecn::Ect1), Some(Ecn::Ce)] {
        let p = Packet::new(v4(127, 0, 0, 1, 8080), v4(127, 0, 0, 1, 3000), b"ecn", ecn);
        let mut bytes = Vec::new();
        p.write_into_buf(&mut bytes);
        let (h, n) = ip::Header::try_from_buf(&bytes).unwrap();
        assert_eq!(n, 20);
        assert_eq!(h.ecn(), ecn);
    }
}

#[test]
fn udp_checksum() {
    let mut val = Packet::new(v4(127, 0, 0, 1, 8080), v4(127, 0, 0, 1, 3000), b"hello world!", None);
    val.set_checksum();
    assert!(val.check_checksum());
    let mut bytes = Vec::new();
    val.write_into_buf(&mut bytes);
    let val2 = Packet::try_from_bytes(&bytes).unwrap();
    assert!(val2.check_checksum());

    let val_ipv6 = Packet::new(v6_doc(8080), v6_doc(3000), b"hello world!", None);
    assert!(val_ipv6.check_checksum());
    let mut bytes = Vec::new();
    val_ipv6.write_into_buf(&mut bytes);
    let from_bytes = Packet::try_from_bytes(&bytes).unwrap();
    assert!(from_bytes.check_checksum());

    // the same round trip in the single-pass framing
    let mut val = udp::Packet::new(v4(127, 0, 0, 1, 8080), v4(127, 0, 0, 1, 3000), b"hello world!", None);
    val.set_checksum();
    assert!(val.check_checksum());
    let mut bytes = Vec::new();
    val.into_bytes(&mut bytes);
    let val2 = udp::Packet::try_from_bytes(&bytes).unwrap();
    assert!(val2.check_checksum());
}

#[test]
fn wrapping_sum_wraps_at_16_bits() {
    assert_eq!(wrapping_sum(&[]), 0);
    assert_eq!(wrapping_sum(&[1, 2, 3]), 6);
    assert_eq!(wrapping_sum(&[0xffff, 2]), 1);
    assert_eq!(checksum_arr(&[0x12, 0x34, 0xff, 0xff]), 0x1233);
}

#[test]
fn pseudo_headers_lay_out_addresses_protocol_and_length() {
    let h = Udpv4PseudoHeader { src_addr: [1, 2, 3, 4], dst_addr: [5, 6, 7, 8], udp_length: 0x0102 };
    assert_eq!(h.to_bytes(), [1, 2, 3, 4, 5, 6, 7, 8, 0, 0x11, 1, 2]);
    let h6 = Udpv6PseudoHeader { src_addr: [1; 16], dst_addr: [2; 16], udp_length: 9 };
    let b = h6.to_bytes();
    assert_eq!(&b[..16], &[1u8; 16]);
    assert_eq!(&b[16..32], &[2u8; 16]);
    assert_eq!(&b[32..], &[0, 0x11, 0, 9]);

    let s = udp::Udpv4PseudoHeader { src_addr: [1, 2, 3, 4], dst_addr: [5, 6, 7, 8], udp_length: 0x0102 };
    assert_eq!(s.to_bytes(), [1, 2, 3, 4, 5, 6, 7, 8, 0x11, 1, 2]);
    let s6 = udp::Udpv6PseudoHeader { src_addr: [1; 16], dst_addr: [2; 16], udp_length: 9 };
    assert_eq!(&s6.to_bytes()[32..], &[0x11, 0, 9]);
}

#[test]
fn ip_header_round_trip_and_ecn() {
    let h = ip::Header::new(IpAddress::V4([10, 0, 0, 1]), IpAddress::V4([10, 0, 0, 2]), Some(Ecn::Ce), 12, 0x11);
    let mut bytes = Vec::new();
    h.write_into_buf(&mut bytes);
    assert_eq!(bytes.len(), 20);
    assert_eq!(bytes[0], 0x45);
    assert_eq!(bytes[1], 3);
    assert_eq!(&bytes[2..4], &[0, 32]);
    let (back, n) = ip::Header::try_from_buf(&bytes).unwrap();
    assert_eq!(n, 20);
    assert_eq!(back, h);
    assert_eq!(back.ecn(), Some(Ecn::Ce));

    let h6 = ip::Header::new(v6_doc(0).ip, v6_doc(0).ip, Some(Ecn::Ect0), 7, 0x11);
    let mut bytes = Vec::new();
    h6.write_into_buf(&mut bytes);
    assert_eq!(bytes[0], 0x60);
    assert_eq!(bytes[1], 0x20);
    let (back, n) = ip::Header::try_from_buf(&bytes).unwrap();
    assert_eq!((back, n), (h6, 40));
    assert_eq!(back.ecn(), Some(Ecn::Ect0));
}

#[test]
fn ip_header_errors() {
    let h = ip::Header::new(IpAddress::V4([10, 0, 0, 1]), IpAddress::V4([10, 0, 0, 2]), None, 12, 0x11);
    let mut bytes = Vec::new();
    h.write_into_buf(&mut bytes);
    let mut bad_checksum = bytes.clone();
    bad_checksum[8] = 63;
    assert!(matches!(ip::Header::try_from_buf(&bad_checksum), Err(ParseError::InvalidChecksum(_))));
    let mut bad_version = bytes.clone();
    bad_version[0] = 0x55;
    assert_eq!(ip::Header::try_from_buf(&bad_version), Err(ParseError::InvalidVersion(5)));
    assert_eq!(
        ip::Header::try_from_buf(&[0x60, 0, 0, 0]),
        Err(ParseError::NotEnoughForHeaders { expected: 40, had: 4 })
    );
    // an IHL of 6 with a checksum that holds
    let mut long_ihl = bytes.clone();
    long_ihl[0] = 0x46;
    long_ihl[10] = 0;
    long_ihl[11] = 0;
    let c = checksum_arr::<20>(long_ihl[..20].try_into().unwrap());
    long_ihl[10..12].copy_from_slice(&(!c).to_be_bytes());
    assert_eq!(ip::Header::try_from_buf(&long_ihl), Err(ParseError::InvalidIhl(6)));
}

#[test]
fn packet_missing_body_is_refused() {
    let p = Packet::new(v4(1, 1, 1, 1, 1), v4(2, 2, 2, 2, 2), b"abcdef", None);
    let mut bytes = Vec::new();
    p.write_into_buf(&mut bytes);
    bytes.truncate(bytes.len() - 2);
    assert_eq!(
        Packet::try_from_bytes(&bytes).unwrap_err(),
        ParseError::NotEnoughForData { expected: 6, had: 4 }
    );
}

#[test]
fn packets_from_transmit_splits_into_segments() {
    let packets = Packet::packets_from_transmit(
        v4(2, 2, 2, 2, 80),
        Some(Ecn::Ect1),
        b"abcdefg",
        Some(3),
        None,
        v4(1, 1, 1, 1, 1000),
    );
    assert_eq!(packets.len(), 2);
    assert_eq!(packets[0].body(), b"abc".to_vec());
    assert_eq!(packets[1].body(), b"def".to_vec());
    assert_eq!(packets[1].header().get_socket_addrs(), (v4(1, 1, 1, 1, 1000), v4(2, 2, 2, 2, 80)));
}

#[test]
fn single_pass_frame_errors() {
    let p = udp::Packet::new(v4(1, 1, 1, 1, 1), v4(2, 2, 2, 2, 2), b"xyz", None);
    let mut bytes = Vec::new();
    p.into_bytes(&mut bytes);
    assert_eq!(bytes.len(), 31);
    let mut wrong_protocol = bytes.clone();
    wrong_protocol[9] = 6;
    // fix the IPv4 checksum so the protocol check is reached
    wrong_protocol[10] = 0;
    wrong_protocol[11] = 0;
    let c = checksum_arr::<20>(wrong_protocol[..20].try_into().unwrap());
    wrong_protocol[10..12].copy_from_slice(&(!c).to_be_bytes());
    assert_eq!(
        udp::Packet::try_from_bytes(&wrong_protocol).unwrap_err(),
        ParseError::InvalidProtocolNumber(6)
    );
    let mut short = bytes.clone();
    short.truncate(30);
    assert_eq!(
        udp::Packet::try_from_bytes(&short).unwrap_err(),
        ParseError::NotEnoughForData { expected: 3, had: 2 }
    );
}

fn internal() -> SocketAddress {
    v4(192, 168, 0, 1, 3000)
}

#[test]
fn same_src_same_port() {
    let mut nat = Symmetric::new();
    let port = nat.internal_addr_to_external_port(internal(), v4(8, 8, 8, 8, 3000), 0, 0, 1234);
    let port2 = nat.internal_addr_to_external_port(internal(), v4(6, 6, 6, 6, 3000), 0, 0, 1234);
    assert_ne!(port, port2);
}

#[test]
fn different_src_different_port() {
    let mut nat = Symmetric::new();
    let port = nat.internal_addr_to_external_port(internal(), v4(8, 8, 8, 8, 3000), 0, 0, 77);
    let port2 = nat.internal_addr_to_external_port(v4(192, 168, 0, 1, 3001), v4(8, 8, 8, 8, 3000), 0, 0, 77);
    assert_ne!(port, port2);
}

#[test]
fn get_src_from_port() {
    let mut nat = Symmetric::new();
    let port = nat.internal_addr_to_external_port(internal(), v4(8, 8, 8, 8, 3000), 0, 0, 5000);
    let src = nat.external_port_to_internal_addr(port, v4(8, 8, 8, 8, 3000), 10, 10).unwrap();
    assert_eq!(src, internal());
}

#[test]
fn different_from_ports() {
    let mut nat = Symmetric::new();
    let port = nat.internal_addr_to_external_port(internal(), v4(8, 8, 8, 8, 3000), 0, 0, 5000);
    assert!(nat.external_port_to_internal_addr(port, v4(8, 8, 8, 8, 3001), 10, 10).is_none());
}

#[test]
fn different_from_ips() {
    let mut nat = Symmetric::new();
    let port = nat.internal_addr_to_external_port(internal(), v4(8, 8, 8, 8, 3000), 0, 0, 5000);
    assert!(nat.external_port_to_internal_addr(port, v4(4, 4, 4, 4, 3000), 10, 10).is_none());
}

#[test]
fn mapping_expires_after_thirty_seconds() {
    let mut nat = Symmetric::new();
    let port = nat.internal_addr_to_external_port(internal(), v4(8, 8, 8, 8, 3000), 0, 0, 5000);
    assert_eq!(port, 5000);
    assert!(nat.external_port_to_internal_addr(port, v4(8, 8, 8, 8, 3000), 30_000_000_001, 30_000_000_001).is_none());
    // the port is free again for a new flow
    assert_eq!(
        nat.internal_addr_to_external_port(v4(192, 168, 0, 2, 1), v4(9, 9, 9, 9, 9), 30_000_000_002, 30_000_000_002, 5000),
        5000
    );
}

#[test]
fn the_firewall_keeps_its_own_clock() {
    // the router's clock and the firewall's clock are read separately
    let mut nat = Symmetric::new();
    let port = nat.internal_addr_to_external_port(internal(), v4(8, 8, 8, 8, 3000), 0, 100, 5000);
    // the mapping is live by the router's clock, but the hole has expired
    // by the firewall's
    assert!(nat.external_port_to_internal_addr(port, v4(8, 8, 8, 8, 3000), 10, 30_000_000_101).is_none());
    let mut nat = Symmetric::new();
    let port = nat.internal_addr_to_external_port(internal(), v4(8, 8, 8, 8, 3000), 0, 100, 5000);
    // both clocks within thirty seconds of the packet that opened them
    assert_eq!(
        nat.external_port_to_internal_addr(port, v4(8, 8, 8, 8, 3000), 10, 30_000_000_100),
        Some(internal())
    );
}

#[test]
fn taken_port_probes_upward() {
    let mut nat = Symmetric::new();
    assert_eq!(nat.internal_addr_to_external_port(internal(), v4(8, 8, 8, 8, 1), 0, 0, 0xffff), 0xffff);
    // the drawn port is taken: the next one, wrapping around, is used
    assert_eq!(nat.internal_addr_to_external_port(internal(), v4(8, 8, 8, 8, 2), 0, 0, 0xffff), 0);
    assert!(nat.has_free_port(0));
}

#[test]
fn translate_rewrites_outbound_and_inbound_packets() {
    let our_v4 = [203, 0, 113, 5];
    let our_v6 = [0u8; 16];
    let mut nat: GenericNat<_, _> = Symmetric::new();
    let remote = v4(8, 8, 8, 8, 53);
    let out = Packet::new(internal(), remote, b"query", None);
    let mut bytes = Vec::new();
    out.write_into_buf(&mut bytes);
    assert!(nat.needs_port(&bytes, our_v4, our_v6));
    let forwarded = match nat.translate(&bytes, our_v4, our_v6, 0, 0, 4242) {
        Forward::External(b) => b,
        _ => panic!("outbound packet not forwarded"),
    };
    let sent = Packet::try_from_bytes(&forwarded).unwrap();
    assert_eq!(sent.header().get_socket_addrs(), (v4(203, 0, 113, 5, 4242), remote));
    assert!(sent.check_checksum());
    assert_eq!(sent.body(), b"query".to_vec());

    let reply = Packet::new(remote, v4(203, 0, 113, 5, 4242), b"answer", None);
    let mut bytes = Vec::new();
    reply.write_into_buf(&mut bytes);
    assert!(!nat.needs_port(&bytes, our_v4, our_v6));
    let inbound = match nat.translate(&bytes, our_v4, our_v6, 5, 5, 1) {
        Forward::Internal(b) => b,
        _ => panic!("reply not let in"),
    };
    let delivered = Packet::try_from_bytes(&inbound).unwrap();
    assert_eq!(delivered.header().get_socket_addrs(), (remote, internal()));
    assert_eq!(delivered.body(), b"answer".to_vec());

    // a stranger is refused
    let stranger = Packet::new(v4(1, 2, 3, 4, 53), v4(203, 0, 113, 5, 4242), b"hi", None);
    let mut bytes = Vec::new();
    stranger.write_into_buf(&mut bytes);
    assert!(matches!(nat.translate(&bytes, our_v4, our_v6, 6, 6, 1), Forward::Drop));
}

#[test]
fn routes_pick_the_most_specific_range() {
    let mut counter = MachineIdCounter::new();
    let wide = MachineId::new(&mut counter);
    let narrow = MachineId::new(&mut counter);
    let mut routes = Routes::new();
    let p16 = Prefix { addr: IpAddress::V4([192, 168, 0, 0]), len: 16 };
    let p24 = Prefix { addr: IpAddress::V4([192, 168, 1, 0]), len: 24 };
    assert!(p16.is_valid() && p24.is_valid());
    assert!(!Prefix { addr: IpAddress::V4([192, 168, 1, 1]), len: 24 }.is_valid());
    routes.bind(wide, p16);
    routes.bind(narrow, p24);

    let to = |dst: [u8; 4]| {
        let p = Packet::new(v4(10, 0, 0, 1, 1), SocketAddress::new(IpAddress::V4(dst), 2), b"x", None);
        let mut bytes = Vec::new();
        p.write_into_buf(&mut bytes);
        bytes
    };
    assert_eq!(routes.route(&to([192, 168, 1, 7])), Ok(Some(narrow)));
    assert_eq!(routes.route(&to([192, 168, 2, 7])), Ok(Some(wide)));
    assert_eq!(routes.route(&to([10, 1, 1, 1])), Err(RouteError::HostUnreachable));

    // a partition drops the packet in its direction only
    routes.add_partition(IpAddress::V4([10, 0, 0, 1]), IpAddress::V4([192, 168, 1, 7]));
    assert!(routes.is_partitioned(IpAddress::V4([10, 0, 0, 1]), IpAddress::V4([192, 168, 1, 7])));
    assert!(!routes.is_partitioned(IpAddress::V4([192, 168, 1, 7]), IpAddress::V4([10, 0, 0, 1])));
    assert_eq!(routes.route(&to([192, 168, 1, 7])), Ok(None));
    routes.remove_partition(IpAddress::V4([10, 0, 0, 1]), IpAddress::V4([192, 168, 1, 7]));
    assert_eq!(routes.route(&to([192, 168, 1, 7])), Ok(Some(narrow)));

    // moving a host's range unbinds the old one
    routes.set_host_ip_range(narrow, Prefix { addr: IpAddress::V4([10, 1, 0, 0]), len: 16 });
    routes.set_host_ip_range(narrow, Prefix { addr: IpAddress::V4([10, 2, 0, 0]), len: 16 });
    assert_eq!(routes.route(&to([10, 1, 1, 1])), Err(RouteError::HostUnreachable));
    assert_eq!(routes.route(&to([10, 2, 1, 1])), Ok(Some(narrow)));
    assert_eq!(routes.machine_ip_prefix(&narrow), Some(Prefix { addr: IpAddress::V4([10, 2, 0, 0]), len: 16 }));

    assert_eq!(
        routes.route(&[0x70, 0, 0, 0]),
        Err(RouteError::PacketParse(ParseError::InvalidVersion(7)))
    );
}

#[test]
fn net_iters() {
    let mut counter = MachineIdCounter::new();
    let first = MachineId::new(&mut counter);
    let second = MachineId::new(&mut counter);
    let mut routes = Routes::new();
    let mut addresses = AddressGenerator::new();
    let mapped = |o: [u8; 4]| [0, 0, 0, 0, 0, 0, 0, 0, 0, 0, 0xff, 0xff, o[0], o[1], o[2], o[3]];
    assert_eq!(routes.add_machine(first, &mut addresses), Some(([192, 168, 0, 0], mapped([192, 168, 0, 0]))));
    assert_eq!(routes.add_machine(second, &mut addresses), Some(([192, 168, 0, 1], mapped([192, 168, 0, 1]))));
    let p = Packet::new(v4(10, 0, 0, 1, 1), v4(192, 168, 0, 1, 2), b"x", None);
    let mut bytes = Vec::new();
    p.write_into_buf(&mut bytes);
    assert_eq!(routes.route(&bytes), Ok(Some(second)));
}

#[test]
fn address_generator_runs_out_with_its_range() {
    let mut counter = MachineIdCounter::new();
    let host = MachineId::new(&mut counter);
    let mut routes = Routes::new();
    let mut small = AddressGenerator::new_with_ipv4_prefix(Prefix { addr: IpAddress::V4([10, 0, 0, 0]), len: 30 });
    for last in 0u8..4 {
        let (v4, v6) = routes.add_machine(host, &mut small).unwrap();
        assert_eq!(v4, [10, 0, 0, last]);
        assert_eq!(v6[15], last);
        assert_eq!(v6[10..12], [0xff, 0xff]);
    }
    assert_eq!(routes.add_machine(host, &mut small), None);
    // a single address hands nothing out
    let mut single = AddressGenerator::new_with_ipv4_prefix(Prefix { addr: IpAddress::V4([10, 0, 0, 9]), len: 32 });
    assert_eq!(routes.add_machine(host, &mut single), None);
}
