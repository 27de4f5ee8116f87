use dens::net::addr::{IpAddress, SocketAddress};
use dens::net::error::ParseError;
use dens::net::udp::{packet_parse_is_defined, Packet};
use dens::os_mock::{BindError, Delivery, Outgoing, SocketTable, EPHEMERAL_START};
use dens::socket::{SocketError, SocketState, MAX_DATAGRAM_BODY};
use dens::net::ecn::Ecn;

const LOCAL_V4: IpAddress = IpAddress::V4([127, 0, 0, 1]);
const LOCAL_V6: IpAddress = IpAddress::V6([0, 0, 0, 0, 0, 0, 0, 0, 0, 0, 0, 0, 0, 0, 0, 1]);
const ANY_V4: IpAddress = IpAddress::V4([0, 0, 0, 0]);

fn loopback_host() -> SocketTable {
    let mut t = SocketTable::new();
    t.add_net(LOCAL_V4, 1);
    t.add_net(LOCAL_V6, 2);
    t
}

fn at(ip: IpAddress, port: u16) -> SocketAddress {
    SocketAddress::new(ip, port)
}

#[test]
fn binding_an_address_twice_fails() {
    let mut t = loopback_host();
    assert_eq!(t.bind_to_addr(at(LOCAL_V4, 8080), 10), Ok(at(LOCAL_V4, 8080)));
    assert_eq!(t.bind_to_addr(at(LOCAL_V4, 8080), 11), Err(BindError::AddrInUse(at(LOCAL_V4, 8080))));
    assert_eq!(t.socket_at(&at(LOCAL_V4, 8080)), Some(10));
    // the same port on another address is free
    assert_eq!(t.bind_to_addr(at(LOCAL_V6, 8080), 12), Ok(at(LOCAL_V6, 8080)));
}

#[test]
fn unspecified_address_binds_every_interface() {
    let mut t = loopback_host();
    assert_eq!(t.bind_to_addr(at(ANY_V4, 3000), 7), Ok(at(ANY_V4, 3000)));
    assert_eq!(t.socket_at(&at(LOCAL_V4, 3000)), Some(7));
    assert_eq!(t.socket_at(&at(LOCAL_V6, 3000)), Some(7));
    assert!(t.port_taken(&LOCAL_V4, 3000));
    assert!(t.port_taken(&ANY_V4, 3000));
    assert_eq!(t.bind_to_addr(at(LOCAL_V4, 3000), 8), Err(BindError::AddrInUse(at(LOCAL_V4, 3000))));
    // a port bound on one interface is taken for the unspecified address
    t.bind_to_addr(at(LOCAL_V6, 4000), 9).unwrap();
    assert!(t.port_taken(&ANY_V4, 4000));
    assert!(!t.port_taken(&LOCAL_V4, 4000));
}

#[test]
fn port_zero_picks_ephemeral_ports_in_turn() {
    let mut t = loopback_host();
    assert!(t.has_free_port(&LOCAL_V4));
    assert_eq!(t.bind_to_addr(at(LOCAL_V4, 0), 1), Ok(at(LOCAL_V4, EPHEMERAL_START)));
    // a port taken ahead of the search is skipped
    t.bind_to_addr(at(LOCAL_V4, EPHEMERAL_START + 2), 2).unwrap();
    assert_eq!(t.pick_unused_port(&LOCAL_V4), EPHEMERAL_START + 1);
    assert_eq!(t.bind_to_addr(at(LOCAL_V4, 0), 3), Ok(at(LOCAL_V4, EPHEMERAL_START + 3)));
}

#[test]
fn incoming_datagrams_go_to_the_bound_socket() {
    let mut t = loopback_host();
    t.bind_to_addr(at(LOCAL_V4, 8080), 10).unwrap();
    let p = Packet::new(at(LOCAL_V4, 5000), at(LOCAL_V4, 8080), b"ping", None);
    let mut bytes = Vec::new();
    p.write_into_buf(&mut bytes);
    assert!(packet_parse_is_defined(&bytes));
    match t.deliver(&bytes) {
        Delivery::Deliver(handle, packet) => {
            assert_eq!(handle, 10);
            assert_eq!(packet.data, b"ping".to_vec());
        }
        _ => panic!("not delivered"),
    }
    let q = Packet::new(at(LOCAL_V4, 5000), at(LOCAL_V4, 9999), b"x", None);
    let mut bytes = Vec::new();
    q.write_into_buf(&mut bytes);
    assert!(matches!(t.deliver(&bytes), Delivery::Unbound(a) if a == at(LOCAL_V4, 9999)));
    assert!(packet_parse_is_defined(&[0x70]));
    assert!(matches!(t.deliver(&[0x70]), Delivery::Malformed(ParseError::InvalidVersion(7))));
    // a truncated IPv4 header cannot be read at all
    assert!(!packet_parse_is_defined(&[0x45, 0, 0]));
    assert!(!packet_parse_is_defined(&[]));
}

#[test]
fn outgoing_datagrams_leave_from_their_source() {
    let mut t = loopback_host();
    let p = Packet::new(at(LOCAL_V4, 8080), at(LOCAL_V4, 3000), b"hi", None);
    let mut expected = Vec::new();
    p.clone().write_into_buf(&mut expected);
    match t.route_outgoing(p) {
        Outgoing::Send { net, bytes, source_rewritten } => {
            assert_eq!(net, 1);
            assert_eq!(bytes, expected);
            assert!(!source_rewritten);
        }
        _ => panic!("not sent"),
    }
    let stray = Packet::new(at(IpAddress::V4([10, 0, 0, 1]), 1), at(LOCAL_V4, 3000), b"hi", None);
    assert!(matches!(t.route_outgoing(stray), Outgoing::Unreachable { source_rewritten: false }));
    // from the unspecified address: the public address of the version
    t.set_public_ips([127, 0, 0, 1], [0, 0, 0, 0, 0, 0, 0, 0, 0, 0, 0, 0, 0, 0, 0, 1]);
    let unspecified = Packet::new(at(ANY_V4, 8080), at(LOCAL_V4, 3000), b"hi", None);
    let mut expected = Vec::new();
    let mut rewritten = unspecified.clone();
    rewritten.set_src_addr(at(LOCAL_V4, 8080));
    rewritten.write_into_buf(&mut expected);
    match t.route_outgoing(unspecified) {
        Outgoing::Send { net, bytes, source_rewritten } => {
            assert_eq!(net, 1);
            assert_eq!(bytes, expected);
            assert!(source_rewritten);
        }
        _ => panic!("not sent"),
    }
}

#[test]
fn sending_needs_a_peer_and_cuts_long_bodies() {
    let mut s = SocketState::new(at(LOCAL_V4, 8080));
    assert_eq!(s.peer_addr(), Err(SocketError::NotConnected));
    assert!(matches!(s.datagram_to_peer(b"hello"), Err(SocketError::NotConnected)));
    s.connect(Some(at(LOCAL_V4, 3000)));
    assert_eq!(s.peer_addr(), Ok(at(LOCAL_V4, 3000)));
    let p = s.datagram_to_peer(b"hello").unwrap();
    assert_eq!(p.data, b"hello".to_vec());
    assert_eq!(p.header.get_socket_addrs(), (at(LOCAL_V4, 8080), at(LOCAL_V4, 3000)));
    let long = vec![7u8; 2000];
    let q = s.datagram_to(&long, at(LOCAL_V4, 4000), Some(Ecn::Ce));
    assert_eq!(q.data.len(), MAX_DATAGRAM_BODY);
    assert_eq!(q.header.ip_header.ecn(), Some(Ecn::Ce));
}

#[test]
fn a_held_datagram_is_peeked_then_consumed() {
    let mut s = SocketState::new(at(ANY_V4, 8080));
    let first = Packet::new(at(LOCAL_V4, 5000), at(LOCAL_V4, 8080), b"abcdef", Some(Ecn::Ect1));
    let second = Packet::new(at(LOCAL_V4, 6000), at(LOCAL_V4, 8080), b"zz", None);
    s.fill_peeked(first);
    // a datagram already held is not replaced
    s.fill_peeked(second.clone());
    assert_eq!(s.peek_sender(), at(LOCAL_V4, 5000));
    assert_eq!(s.peek_from(3), (b"abc".to_vec(), at(LOCAL_V4, 5000)));
    assert_eq!(s.peek_from(100), (b"abcdef".to_vec(), at(LOCAL_V4, 5000)));
    // reading takes what fits and drops the rest of the datagram
    let (chunk, from, ecn) = s.read_peeked_with_ecn(4);
    assert_eq!((chunk, from, ecn), (b"abcd".to_vec(), at(LOCAL_V4, 5000), Some(Ecn::Ect1)));
    assert!(s.peeked.is_none());
    assert_eq!(s.local_addr(), at(LOCAL_V4, 8080));
    s.fill_peeked(second);
    assert_eq!(s.read_peeked(10), (b"zz".to_vec(), at(LOCAL_V4, 6000)));
}

#[test]
fn a_connected_socket_takes_in_only_its_peer() {
    let mut s = SocketState::new(at(LOCAL_V4, 8080));
    let other = Packet::new(at(LOCAL_V4, 6000), at(LOCAL_V4, 8080), b"no", None);
    let peer = Packet::new(at(LOCAL_V4, 3000), at(LOCAL_V4, 8080), b"yes", None);
    // held before connecting, from another sender: dropped on connect
    s.fill_peeked(other.clone());
    assert!(s.peeked.is_some());
    s.connect(Some(at(LOCAL_V4, 3000)));
    assert!(s.peeked.is_none());
    // after connecting, another sender's datagram is not taken in
    s.fill_peeked(other);
    assert!(s.peeked.is_none());
    s.fill_peeked(peer);
    assert_eq!(s.read_peeked(10), (b"yes".to_vec(), at(LOCAL_V4, 3000)));
}
