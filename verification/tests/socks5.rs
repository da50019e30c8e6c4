use hydra::addr::{IpAddress, SockAddr};
use hydra::socks5::{
    check_greeting, greeting_reply, node_accepted, parse_request, reply, Socks5Error, Socks5Target,
    REPLY_ADDRESS_TYPE_NOT_SUPPORTED, REPLY_COMMAND_NOT_SUPPORTED, REPLY_SUCCEEDED,
};

#[test]
fn greeting() {
    assert!(check_greeting(&[5, 1, 0]).is_ok());
    assert_eq!(check_greeting(&[5]), Err(Socks5Error::InvalidGreeting));
    assert_eq!(check_greeting(&[4, 1, 0]), Err(Socks5Error::InvalidGreeting));
    assert_eq!(greeting_reply(), vec![5, 0]);
}

#[test]
fn connect_ipv4() {
    let req = [5, 1, 0, 1, 93, 184, 216, 34, 0x01, 0xBB];
    match parse_request(&req).unwrap() {
        Socks5Target::Addr(a) => {
            assert_eq!(a, SockAddr { ip: IpAddress::V4(u32::from_be_bytes([93, 184, 216, 34])), port: 443 })
        },
        _ => panic!("expected an address"),
    }
}

#[test]
fn connect_domain() {
    let mut req = vec![5, 1, 0, 3, 11];
    req.extend_from_slice(b"example.com");
    req.extend_from_slice(&[0x00, 0x50]);
    match parse_request(&req).unwrap() {
        Socks5Target::Domain { name, port } => {
            assert_eq!(name, b"example.com".to_vec());
            assert_eq!(port, 80);
        },
        _ => panic!("expected a domain"),
    }
}

#[test]
fn connect_ipv6() {
    let mut req = vec![5, 1, 0, 4];
    let ip: [u8; 16] = [0x20, 0x01, 0x0d, 0xb8, 0, 0, 0, 0, 0, 0, 0, 0, 0, 0, 0, 1];
    req.extend_from_slice(&ip);
    req.extend_from_slice(&[0x1F, 0x90]);
    match parse_request(&req).unwrap() {
        Socks5Target::Addr(a) => assert_eq!(a, SockAddr { ip: IpAddress::V6(u128::from_be_bytes(ip)), port: 8080 }),
        _ => panic!("expected an address"),
    }
}

#[test]
fn request_errors() {
    assert_eq!(parse_request(&[5, 1, 0, 1, 1, 2]).unwrap_err(), Socks5Error::InvalidRequest);
    assert_eq!(parse_request(&[4, 1, 0, 1, 1, 2, 3, 4, 0, 80]).unwrap_err(), Socks5Error::InvalidRequest);
    let e = parse_request(&[5, 2, 0, 1, 1, 2, 3, 4, 0, 80]).unwrap_err();
    assert_eq!(e, Socks5Error::UnsupportedCommand);
    assert_eq!(e.reply_code(), Some(REPLY_COMMAND_NOT_SUPPORTED));
    assert_eq!(parse_request(&[5, 1, 0, 1, 1, 2, 3, 4, 0]).unwrap_err(), Socks5Error::InvalidIpv4Address);
    assert_eq!(parse_request(&[5, 1, 0, 3, 5, b'a', b'b']).unwrap_err(), Socks5Error::InvalidDomainLength);
    assert_eq!(parse_request(&[5, 1, 0, 4, 1, 2, 3, 4, 5, 6, 7]).unwrap_err(), Socks5Error::InvalidIpv6Address);
    let e = parse_request(&[5, 1, 0, 9, 1, 2, 3, 4, 0, 80]).unwrap_err();
    assert_eq!(e, Socks5Error::UnsupportedAddressType);
    assert_eq!(e.reply_code(), Some(REPLY_ADDRESS_TYPE_NOT_SUPPORTED));
    assert_eq!(Socks5Error::InvalidRequest.reply_code(), None);
}

#[test]
fn replies() {
    assert_eq!(reply(REPLY_SUCCEEDED), vec![5, 0, 0, 1, 0, 0, 0, 0, 0, 0]);
    assert_eq!(reply(0x05), vec![5, 5, 0, 1, 0, 0, 0, 0, 0, 0]);
    assert!(node_accepted(&[0, 0]));
    assert!(!node_accepted(&[0]));
    assert!(!node_accepted(&[1, 0]));
}
