use dens::cose::{Any, DecodeError, HeaderMap, IntOrStr};
use dens::host::{Dns, DnsError, Generator, Ipv4, Ipv6};
use dens::max_sized_string::{MaxSizedString, MaxStringError};
use dens::net::addr::{IpAddress, SocketAddress};
use dens::sim::{HasMachineId, MachineId, MachineIdCounter};

#[test]
fn machine_ids_count_up() {
    let mut counter = MachineIdCounter::new();
    let a = MachineId::new(&mut counter);
    let b = MachineId::new(&mut counter);
    assert_eq!(a.id, 0);
    assert_eq!(b.id, 1);
    assert_ne!(a, b);
    assert_eq!(a.id(), a);
}

#[test]
fn max_sized_string_bounds_length_in_bytes() {
    let s = MaxSizedString::<5>::try_from_string("abcd".to_string()).unwrap();
    assert_eq!(s.inner(), "abcd");
    assert_eq!(s.into_inner(), "abcd".to_string());
    assert_eq!(MaxSizedString::<5>::try_from_string("abcde".to_string()).unwrap().inner(), "abcde");
    assert_eq!(MaxSizedString::<5>::try_from_string("abcdef".to_string()).unwrap_err(), "abcdef");
    // "é" is two bytes long
    assert!(MaxSizedString::<3>::try_from_str("aéb").is_err());
    assert!(MaxSizedString::<4>::try_from_str("aéb").is_ok());
    assert!(MaxSizedString::<5>::try_from_str("aéb").is_ok());
    // a decoded string may use all N bytes
    assert!(MaxSizedString::<5>::try_from_decoded("abcde".to_string()).is_ok());
    assert!(MaxSizedString::<5>::try_from_decoded("abcdef".to_string()).is_err());
}

#[test]
fn header_map_counts_present_headers_and_rest() {
    let raw = [0x01u8];
    let map = HeaderMap {
        alg: Some(IntOrStr::Int(-7)),
        crit: None,
        content_type: Some(IntOrStr::Str("text")),
        kid: Some(&[1, 2][..]),
        iv: None,
        partial_iv: None,
        rest: vec![(IntOrStr::Int(99), Any(&raw))],
    };
    assert_eq!(map.len(), 4);
}

#[test]
fn header_map_encodes_generic_headers_by_label_then_the_rest() {
    let raw = [0x01u8];
    let crit = [IntOrStr::Int(1), IntOrStr::Str("x")];
    let map = HeaderMap {
        alg: Some(IntOrStr::Int(-7)),
        crit: Some(&crit[..]),
        content_type: None,
        kid: Some(&b"ab"[..]),
        iv: None,
        partial_iv: Some(&[][..]),
        rest: vec![(IntOrStr::Int(100), Any(&raw))],
    };
    let mut out = vec![0xffu8];
    map.encode(&mut out);
    assert_eq!(
        out,
        vec![
            0xff, // what was there before
            0xa5, // a map of five entries
            0x01, 0x26, // 1: -7
            0x02, 0x82, 0x01, 0x61, b'x', // 2: [1, "x"]
            0x04, 0x42, b'a', b'b', // 4: h'6162'
            0x06, 0x40, // 6: h''
            0x18, 0x64, 0x01, // 100: the raw item
        ]
    );
}

#[test]
fn dns_knows_localhost_and_added_names() {
    let mut dns = Dns::new();
    assert_eq!(
        dns.lookup("localhost").unwrap(),
        vec![IpAddress::V4([127, 0, 0, 1]), IpAddress::V6([0, 0, 0, 0, 0, 0, 0, 0, 0, 0, 0, 0, 0, 0, 0, 1])]
    );
    assert_eq!(dns.lookup("example.com"), Err(DnsError::NotFound));
    dns.insert("example.com", IpAddress::V4([10, 0, 0, 10]));
    dns.extend("example.com", vec![IpAddress::V4([10, 0, 0, 11])]);
    assert_eq!(
        dns.resolve("example.com", 80).unwrap(),
        vec![
            SocketAddress::new(IpAddress::V4([10, 0, 0, 10]), 80),
            SocketAddress::new(IpAddress::V4([10, 0, 0, 11]), 80)
        ]
    );
}

#[test]
fn generators_hand_out_addresses_in_order() {
    let mut g = Generator::new();
    assert_eq!(g.next(), IpAddress::V4([192, 168, 0, 1]));
    assert_eq!(g.next(), IpAddress::V4([192, 168, 0, 2]));
    let mut g = Generator::V4(0x1ff);
    assert_eq!(g.next(), IpAddress::V4([192, 168, 1, 0xff]));
    let mut g6 = Generator::V6(0x0001_0002_0003_0004);
    assert_eq!(
        g6.next(),
        IpAddress::V6([0xfe, 0x80, 0, 0, 0, 0, 0, 0, 0, 1, 0, 2, 0, 3, 0, 4])
    );
    let mut v4 = Ipv4::new();
    assert_eq!(v4.next(), [192, 168, 0, 1]);
    let mut v6 = Ipv6::new();
    assert_eq!(v6.next(), [0xfe, 0x80, 0, 0, 0, 0, 0, 0, 0, 0, 0, 0, 0, 0, 0, 1]);
    let mut wrap = Ipv4(u32::MAX);
    assert_eq!(wrap.next(), [192, 168, 0xff, 0xff]);
    assert_eq!(wrap.0, 0);
}

fn roundtrip(bytes: &[u8], expected: IntOrStr) {
    let (out, end) = IntOrStr::decode(bytes, 0).unwrap();
    assert_eq!(expected, out);
    assert_eq!(end, bytes.len());
    let mut encoded = Vec::new();
    out.encode(&mut encoded);
    assert_eq!(bytes.to_vec(), encoded);
}

#[test]
fn types_int() {
    // -7
    roundtrip(&[0x26], IntOrStr::Int(-7));
}

#[test]
fn types_str() {
    // "test"
    roundtrip(&[0x64, b't', b'e', b's', b't'], IntOrStr::Str("test"));
}

#[test]
fn int_or_str_int() {
    roundtrip(&[0x26], IntOrStr::Int(-7));
}

#[test]
fn int_or_str_str() {
    roundtrip(&[0x64, b't', b'e', b's', b't'], IntOrStr::Str("test"));
}

#[test]
fn int_or_str_wider_heads_and_refusals() {
    roundtrip(&[0x19, 0x03, 0xe8], IntOrStr::Int(1000));
    roundtrip(&[0x3b, 0x7f, 0xff, 0xff, 0xff, 0xff, 0xff, 0xff, 0xff], IntOrStr::Int(i64::MIN));
    roundtrip(&[0x1b, 0x7f, 0xff, 0xff, 0xff, 0xff, 0xff, 0xff, 0xff], IntOrStr::Int(i64::MAX));
    // reading goes on from the position given
    assert_eq!(IntOrStr::decode(&[0x01, 0x17], 1), Ok((IntOrStr::Int(23), 2)));
    // an unsigned integer above i64::MAX is no i64
    assert_eq!(
        IntOrStr::decode(&[0x1b, 0x80, 0, 0, 0, 0, 0, 0, 0], 0),
        Err(DecodeError::NotIntOrStr { at: 0 })
    );
    // a byte string is neither
    assert_eq!(IntOrStr::decode(&[0x41, 0x00], 0), Err(DecodeError::NotIntOrStr { at: 0 }));
    // text that is not UTF-8, and text cut short
    assert_eq!(IntOrStr::decode(&[0x61, 0xff], 0), Err(DecodeError::NotIntOrStr { at: 0 }));
    assert_eq!(IntOrStr::decode(&[0x62, b'a'], 0), Err(DecodeError::NotIntOrStr { at: 0 }));
    assert_eq!(IntOrStr::decode(&[], 0), Err(DecodeError::NotIntOrStr { at: 0 }));
}

#[test]
fn any_keeps_an_item_as_its_bytes() {
    // the array [1, 2], then a stray byte
    let bytes = [0x82, 0x01, 0x02, 0xff];
    let (item, end) = Any::decode(&bytes, 0).unwrap();
    assert_eq!(end, 3);
    assert_eq!(item.0, &bytes[..3]);
    let mut out = vec![0xaa];
    item.encode(&mut out);
    assert_eq!(out, vec![0xaa, 0x82, 0x01, 0x02]);
    // an array cut short
    assert!(matches!(Any::decode(&[0x82, 0x01], 0), Err(DecodeError::Malformed { at: 0 })));
}

#[test]
fn max_sized_string_cbor() {
    // "abc" then a stray byte
    let bytes = [0x63, b'a', b'b', b'c', 0x00];
    let (s, end) = MaxSizedString::<3>::decode(&bytes, 0).unwrap();
    assert_eq!(s.inner(), "abc");
    assert_eq!(end, 4);
    assert_eq!(s.cbor_len(), 4);
    let mut out = Vec::new();
    s.encode(&mut out);
    assert_eq!(out, bytes[..4].to_vec());
    // one byte over the bound; the error points past the string
    assert_eq!(MaxSizedString::<2>::decode(&bytes, 0).unwrap_err(), MaxStringError::TooLong { at: 4 });
    assert_eq!(MaxSizedString::<3>::decode(&[0x01], 0).unwrap_err(), MaxStringError::NotText { at: 0 });
    let long = MaxSizedString::<100>::try_from_string("x".repeat(30)).unwrap();
    assert_eq!(long.cbor_len(), 32);
}
