use evergreen::body::{decode_shipment, encode_bytes, encode_shipment, BodyError};
use evergreen::shipment::{Shipment, SpringTank};
use evergreen::uid::UniqueId;
use evergreen::utils::SocksHost;
use evergreen::wire::WireError;

fn sample_tank(host: SocksHost, data: Vec<u8>, ended: bool) -> SpringTank {
    SpringTank { id: UniqueId::new(3), ended, host, port: 443, data }
}

fn sample_shipment() -> Shipment {
    Shipment {
        ship_id: UniqueId::new(77),
        order: 12,
        order_request: 4,
        reset: false,
        tanks: vec![
            sample_tank(SocksHost::Ipv4([10, 0, 0, 1]), vec![1, 2, 3], false),
            sample_tank(SocksHost::Domain("example.com".to_string()), vec![], true),
            sample_tank(SocksHost::Ipv6([0xfe, 0x80, 0, 0, 0, 0, 0, 0, 0, 0, 0, 0, 0, 0, 0, 1]), vec![9; 300], false),
        ],
    }
}

fn uid_bytes(index: u64, created: u64, pepper: u64) -> Vec<u8> {
    let mut v = Vec::new();
    v.extend_from_slice(&index.to_le_bytes());
    v.extend_from_slice(&created.to_le_bytes());
    v.extend_from_slice(&pepper.to_le_bytes());
    v
}

#[test]
fn shipment_roundtrip_through_bytes() {
    let s = sample_shipment();
    let bytes = s.to_bytes();
    let back = Shipment::read(&bytes).unwrap();
    assert_eq!(back.ship_id, s.ship_id);
    assert_eq!(back.order, 12);
    assert_eq!(back.order_request, 4);
    assert!(!back.reset);
    assert_eq!(back.tanks.len(), 3);
    assert_eq!(back.tanks[0].host, SocksHost::Ipv4([10, 0, 0, 1]));
    assert_eq!(back.tanks[0].data, vec![1, 2, 3]);
    assert_eq!(back.tanks[1].host, SocksHost::Domain("example.com".to_string()));
    assert!(back.tanks[1].ended);
    assert_eq!(back.tanks[2].data, vec![9; 300]);
    assert_eq!(back.tanks[2].port, 443);
}

#[test]
fn shipment_roundtrip_through_base64_body() {
    let s = sample_shipment();
    let text = encode_shipment(&s);
    assert!(!text.ends_with('='));
    let back = decode_shipment(&text).unwrap();
    assert_eq!(back.to_bytes(), s.to_bytes());
    let padded = format!("{}==", encode_bytes(&[1u8]));
    assert!(matches!(decode_shipment(&padded), Err(BodyError::InvalidShipment(WireError::Eof))));
}

#[test]
fn shipment_wire_layout() {
    let mut bytes = uid_bytes(1, 2, 3);
    bytes.extend_from_slice(&5u64.to_le_bytes());
    bytes.extend_from_slice(&0u64.to_le_bytes());
    bytes.push(1);
    bytes.extend_from_slice(&1u16.to_le_bytes());
    bytes.extend_from_slice(&uid_bytes(7, 8, 9));
    bytes.push(0);
    bytes.extend_from_slice(&[3, 3, b'a', b'.', b'b']);
    bytes.extend_from_slice(&80u16.to_le_bytes());
    bytes.extend_from_slice(&2u32.to_le_bytes());
    bytes.extend_from_slice(&[0xAA, 0xBB]);
    let s = Shipment::read(&bytes).unwrap();
    assert_eq!(s.order, 5);
    assert!(s.reset);
    assert_eq!(s.tanks.len(), 1);
    assert_eq!(s.tanks[0].host, SocksHost::Domain("a.b".to_string()));
    assert_eq!(s.tanks[0].port, 80);
    assert_eq!(s.tanks[0].data, vec![0xAA, 0xBB]);
    assert_eq!(s.to_bytes(), bytes);
    let mut longer = bytes.clone();
    longer.extend_from_slice(&[1, 2, 3]);
    assert_eq!(Shipment::read(&longer).unwrap().to_bytes(), bytes);
}

#[test]
fn shipment_flag_byte_other_than_one_reads_false() {
    let mut bytes = uid_bytes(1, 2, 3);
    bytes.extend_from_slice(&5u64.to_le_bytes());
    bytes.extend_from_slice(&0u64.to_le_bytes());
    bytes.push(2);
    bytes.extend_from_slice(&0u16.to_le_bytes());
    let s = Shipment::read(&bytes).unwrap();
    assert!(!s.reset);
}

#[test]
fn shipment_read_errors() {
    let bytes = sample_shipment().to_bytes();
    for cut in [0usize, 10, 24, 42, 43, 60, bytes.len() - 1] {
        assert!(matches!(Shipment::read(&bytes[..cut]), Err(WireError::Eof)), "cut {cut}");
    }
    let mut bad_kind = uid_bytes(1, 2, 3);
    bad_kind.extend_from_slice(&[0; 17]);
    bad_kind.extend_from_slice(&1u16.to_le_bytes());
    bad_kind.extend_from_slice(&uid_bytes(1, 1, 1));
    bad_kind.push(0);
    bad_kind.push(9);
    assert!(matches!(Shipment::read(&bad_kind), Err(WireError::InvalidHostKind)));
    let mut bad_domain = uid_bytes(1, 2, 3);
    bad_domain.extend_from_slice(&[0; 17]);
    bad_domain.extend_from_slice(&1u16.to_le_bytes());
    bad_domain.extend_from_slice(&uid_bytes(1, 1, 1));
    bad_domain.push(0);
    bad_domain.extend_from_slice(&[3, 2, 0xff, 0xfe]);
    assert!(matches!(Shipment::read(&bad_domain), Err(WireError::InvalidDomain)));
    assert!(matches!(decode_shipment("***"), Err(BodyError::InvalidBase64)));
}

#[test]
fn uid_write_read() {
    let id = UniqueId::new(42);
    let mut out = vec![0xEE];
    id.write(&mut out);
    assert_eq!(out.len(), 25);
    assert_eq!(&out[1..9], &42u64.to_le_bytes());
    assert_eq!(UniqueId::read(&out, 1).unwrap(), id);
    assert!(matches!(UniqueId::read(&out, 2), Err(WireError::Eof)));
}

#[test]
fn host_read_and_needed_length() {
    let buf = [3u8, 3, b'x', b'.', b'y', 0, 80];
    let (h, n) = SocksHost::read(&buf, 0).unwrap();
    assert_eq!(h, SocksHost::Domain("x.y".to_string()));
    assert_eq!(n, 5);
    assert_eq!(SocksHost::read_len(&[]), 1);
    assert_eq!(SocksHost::read_len(&[1]), 5);
    assert_eq!(SocksHost::read_len(&[4]), 17);
    assert_eq!(SocksHost::read_len(&[3]), 2);
    assert_eq!(SocksHost::read_len(&[3, 9]), 11);
    assert!(matches!(SocksHost::read(&[3, 9, 1], 0), Err(WireError::Eof)));
    assert!(matches!(SocksHost::read(&[7], 0), Err(WireError::InvalidHostKind)));
    let (h4, n4) = SocksHost::read(&[0, 1, 127, 0, 0, 1], 1).unwrap();
    assert_eq!(h4, SocksHost::Ipv4([127, 0, 0, 1]));
    assert_eq!(n4, 5);
    let mut out = Vec::new();
    h.write(&mut out);
    assert_eq!(out, vec![3, 3, b'x', b'.', b'y']);
}

#[test]
fn host_addr_and_text() {
    assert_eq!(SocksHost::Ipv4([192, 168, 0, 10]).to_addr(8080), "192.168.0.10:8080");
    assert_eq!(SocksHost::Domain("example.org".into()).to_addr(0), "example.org:0");
    let v6 = SocksHost::Ipv6([0x20, 0x01, 0x0d, 0xb8, 0, 0, 0, 0, 0, 0, 0, 0, 0xab, 0xcd, 0x00, 0x01]);
    assert_eq!(v6.to_addr(443), "2001:0db8:0000:0000:0000:0000:abcd:0001:443");
    assert_eq!(v6.to_text(), "::00:01");
    assert_eq!(SocksHost::Ipv4([1, 2, 3, 4]).to_text(), "1.2.3.4");
    assert_eq!(SocksHost::Domain("d".into()).to_text(), "d");
    assert_eq!(v6.duplicate(), v6);
}

#[test]
fn base64_body_text() {
    assert_eq!(encode_bytes(b"hello"), "aGVsbG8");
    assert_eq!(encode_bytes(b""), "");
    assert_eq!(encode_bytes(&[0xfb, 0xff]), "+/8");
}
