use hydra::addr::{IpAddress, SockAddr};
use hydra::nat_traversal::{
    binding_request, detect_nat_type, parse_mapped_address, parse_stun_response, punch_answered,
    stun_response_readable, NatTraversal, NatType, StunError, UdpHolePuncher,
};

fn any_addr() -> SockAddr {
    SockAddr { ip: IpAddress::V4(0), port: 0 }
}

#[test]
fn test_stun_request() {
    let traversal = NatTraversal::new(any_addr());
    let request = traversal.build_stun_request().unwrap();

    assert_eq!(request.len(), 20);
    assert_eq!(request[0], 0x00);
    assert_eq!(request[1], 0x01);
    assert_eq!(request[4], 0x21);
    assert_eq!(request[5], 0x12);
    assert_eq!(request[6], 0xA4);
    assert_eq!(request[7], 0x42);
}

#[test]
fn binding_request_layout() {
    let id = [7u8; 12];
    let r = binding_request(&id);
    assert_eq!(&r[..8], &[0x00, 0x01, 0x00, 0x00, 0x21, 0x12, 0xA4, 0x42]);
    assert_eq!(&r[8..], &id);
}

fn response_with(attr_type: u16, value: &[u8]) -> Vec<u8> {
    let mut r = vec![0x01, 0x01];
    let len = (4 + value.len()) as u16;
    r.extend_from_slice(&len.to_be_bytes());
    r.extend_from_slice(&[0x21, 0x12, 0xA4, 0x42]);
    r.extend_from_slice(&[0u8; 12]);
    r.extend_from_slice(&attr_type.to_be_bytes());
    r.extend_from_slice(&(value.len() as u16).to_be_bytes());
    r.extend_from_slice(value);
    r
}

#[test]
fn parses_xor_mapped_ipv4() {
    // 203.0.113.5:54321, XOR-ed with the magic cookie.
    let port: u16 = 54321 ^ 0x2112;
    let ip = [203 ^ 0x21, 0 ^ 0x12, 113 ^ 0xA4, 5 ^ 0x42];
    let mut value = vec![0x00, 0x01];
    value.extend_from_slice(&port.to_be_bytes());
    value.extend_from_slice(&ip);
    let resp = response_with(0x0020, &value);
    assert!(stun_response_readable(&resp));
    let addr = parse_stun_response(&resp).unwrap();
    assert_eq!(addr, SockAddr { ip: IpAddress::V4(u32::from_be_bytes([203, 0, 113, 5])), port: 54321 });
}

#[test]
fn parses_plain_mapped_ipv6_after_other_attribute() {
    let mut value = vec![0x00, 0x02, 0x1F, 0x90];
    let ip: [u8; 16] = [0x20, 0x01, 0x0d, 0xb8, 0, 0, 0, 0, 0, 0, 0, 0, 0, 0, 0, 1];
    value.extend_from_slice(&ip);
    // An unknown attribute of 5 bytes first (padded to 8), then the address.
    let mut resp = vec![0x01, 0x01];
    let total = (4 + 8 + 4 + value.len()) as u16;
    resp.extend_from_slice(&total.to_be_bytes());
    resp.extend_from_slice(&[0x21, 0x12, 0xA4, 0x42]);
    resp.extend_from_slice(&[0u8; 12]);
    resp.extend_from_slice(&[0x80, 0x22, 0x00, 0x05, 1, 2, 3, 4, 5, 0, 0, 0]);
    resp.extend_from_slice(&[0x00, 0x01]);
    resp.extend_from_slice(&(value.len() as u16).to_be_bytes());
    resp.extend_from_slice(&value);
    let addr = parse_stun_response(&resp).unwrap();
    assert_eq!(addr, SockAddr { ip: IpAddress::V6(u128::from_be_bytes(ip)), port: 8080 });
}

#[test]
fn stun_errors() {
    assert_eq!(parse_stun_response(&[0u8; 10]), Err(StunError::ResponseTooShort));
    let mut r = response_with(0x0001, &[0, 1, 0, 80, 1, 2, 3, 4]);
    r[1] = 0x11;
    assert_eq!(parse_stun_response(&r), Err(StunError::UnexpectedMessageType(0x0111)));
    let mut r = response_with(0x0001, &[0, 1, 0, 80, 1, 2, 3, 4]);
    r[4] = 0;
    assert_eq!(parse_stun_response(&r), Err(StunError::InvalidMagicCookie));
    let r = response_with(0x0003, &[0, 1, 0, 80, 1, 2, 3, 4]);
    assert_eq!(parse_stun_response(&r), Err(StunError::NoMappedAddress));
    let r = response_with(0x0001, &[0, 9, 0, 80, 1, 2, 3, 4]);
    assert_eq!(parse_stun_response(&r), Err(StunError::UnknownAddressFamily(9)));
    assert_eq!(parse_mapped_address(&[0, 1, 0], false), Err(StunError::MappedAddressTooShort));
    assert_eq!(parse_mapped_address(&[0, 2, 0, 80, 1, 2, 3, 4], false), Err(StunError::Ipv6MappedAddressTooShort));
}

#[test]
fn unreadable_response_is_detected() {
    // The header announces attributes that are not there.
    let mut r = vec![0x01, 0x01, 0x00, 0x08, 0x21, 0x12, 0xA4, 0x42];
    r.extend_from_slice(&[0u8; 12]);
    assert!(!stun_response_readable(&r));
    assert!(stun_response_readable(&[0u8; 3]));
}

#[test]
fn nat_type_decisions() {
    let local = SockAddr { ip: IpAddress::V4(0x0A00_0001), port: 5000 };
    assert_eq!(detect_nat_type(None, local), NatType::Unknown);
    let same = SockAddr { ip: IpAddress::V4(0x0A00_0001), port: 6000 };
    assert_eq!(detect_nat_type(Some(same), local), NatType::Open);
    let other = SockAddr { ip: IpAddress::V4(0xCB00_7105), port: 5000 };
    assert_eq!(detect_nat_type(Some(other), local), NatType::FullCone);
    let t = NatTraversal::new(local);
    let r = t.conclude(Some(other), local);
    assert!(r.success);
    assert_eq!(r.nat_type, NatType::FullCone);
    assert_eq!(t.stun_servers().len(), 3);
    assert_eq!(t.stun_servers()[0], "stun.l.google.com:19302");
    let t = t.with_stun_servers(vec!["127.0.0.1:3478".to_string()]);
    assert_eq!(t.stun_servers().len(), 1);
}

#[test]
fn hole_punch_answer() {
    let a = SockAddr { ip: IpAddress::V4(1), port: 1 };
    let b = SockAddr { ip: IpAddress::V4(2), port: 2 };
    let p = UdpHolePuncher::new(a, b);
    assert_eq!(p.target_addr(), b);
    assert!(punch_answered(b, b, b"HYDRA_PUNCH"));
    assert!(!punch_answered(a, b, b"HYDRA_PUNCH"));
    assert!(!punch_answered(b, b, b"HYDRA_PUNCX"));
}
