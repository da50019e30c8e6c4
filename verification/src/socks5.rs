//! The SOCKS5 side of the local proxy: checking the client's greeting,
//! reading its CONNECT request, and the replies sent back.
use vstd::prelude::*;
use crate::addr::{IpAddress, SockAddr};
use crate::wire::{be_value, be16, read_be16, read_be32, be_u128};

verus! {

/// Protocol version byte of SOCKS5.
pub const SOCKS_VERSION: u8 = 0x05;
/// The CONNECT command.
pub const CMD_CONNECT: u8 = 0x01;
/// Address type: IPv4.
pub const ATYP_IPV4: u8 = 0x01;
/// Address type: domain name.
pub const ATYP_DOMAIN: u8 = 0x03;
/// Address type: IPv6.
pub const ATYP_IPV6: u8 = 0x04;
/// Reply: succeeded.
pub const REPLY_SUCCEEDED: u8 = 0x00;
/// Reply: general failure (the node could not be reached).
pub const REPLY_GENERAL_FAILURE: u8 = 0x01;
/// Reply: connection refused (the node could not reach the target).
pub const REPLY_CONNECTION_REFUSED: u8 = 0x05;
/// Reply: command not supported.
pub const REPLY_COMMAND_NOT_SUPPORTED: u8 = 0x07;
/// Reply: address type not supported.
pub const REPLY_ADDRESS_TYPE_NOT_SUPPORTED: u8 = 0x08;

/// Why a SOCKS5 exchange was refused.
#[derive(Debug, Clone, Copy, PartialEq, Eq, Structural)]
pub enum Socks5Error {
    InvalidGreeting,
    InvalidRequest,
    UnsupportedCommand,
    InvalidIpv4Address,
    InvalidDomainLength,
    InvalidIpv6Address,
    UnsupportedAddressType,
}

/// Where a CONNECT request asks to go.
#[derive(Debug, Clone)]
pub enum Socks5Target {
    /// A literal address.
    Addr(SockAddr),
    /// A domain name (its raw bytes, to be resolved) and a port.
    Domain { name: Vec<u8>, port: u16 },
}

/// A request target as a mathematical value.
pub enum TargetView {
    Addr(SockAddr),
    Domain(Seq<u8>, u16),
}

impl View for Socks5Target {
    type V = TargetView;

    open spec fn view(&self) -> TargetView {
        match self {
            Socks5Target::Addr(a) => TargetView::Addr(*a),
            Socks5Target::Domain { name, port } => TargetView::Domain(name@, *port),
        }
    }
}

/// Whether a client greeting is acceptable: at least two bytes, version 5.
pub open spec fn greeting_valid(msg: Seq<u8>) -> bool {
    msg.len() >= 2 && msg[0] == SOCKS_VERSION
}

/// What a CONNECT request (the bytes received) asks for, or why it is refused.
pub open spec fn request_outcome(msg: Seq<u8>) -> Result<TargetView, Socks5Error> {
    if msg.len() < 7 || msg[0] != SOCKS_VERSION {
        Err(Socks5Error::InvalidRequest)
    } else if msg[1] != CMD_CONNECT {
        Err(Socks5Error::UnsupportedCommand)
    } else if msg[3] == ATYP_IPV4 {
        if msg.len() < 10 {
            Err(Socks5Error::InvalidIpv4Address)
        } else {
            Ok(TargetView::Addr(SockAddr {
                ip: IpAddress::V4(be_value(msg.subrange(4, 8)) as u32),
                port: be16(msg[8], msg[9]) as u16,
            }))
        }
    } else if msg[3] == ATYP_DOMAIN {
        let n = msg[4] as int;
        if msg.len() < 5 + n + 2 {
            Err(Socks5Error::InvalidDomainLength)
        } else {
            Ok(TargetView::Domain(msg.subrange(5, 5 + n), be16(msg[5 + n], msg[6 + n]) as u16))
        }
    } else if msg[3] == ATYP_IPV6 {
        if msg.len() < 22 {
            Err(Socks5Error::InvalidIpv6Address)
        } else {
            Ok(TargetView::Addr(SockAddr {
                ip: IpAddress::V6(be_value(msg.subrange(4, 20)) as u128),
                port: be16(msg[20], msg[21]) as u16,
            }))
        }
    } else {
        Err(Socks5Error::UnsupportedAddressType)
    }
}

/// The ten-byte reply carrying `code`, with an all-zero IPv4 bound address.
pub open spec fn reply_bytes(code: u8) -> Seq<u8> {
    seq![SOCKS_VERSION, code, 0x00, ATYP_IPV4, 0, 0, 0, 0, 0, 0]
}

/// Whether the node's answer to a connect request reports success: at least
/// two bytes, the first zero.
pub open spec fn node_reply_ok(resp: Seq<u8>) -> bool {
    resp.len() >= 2 && resp[0] == 0
}

/// Checks a client greeting.
pub fn check_greeting(msg: &[u8]) -> (r: Result<(), Socks5Error>)
    ensures
        r is Ok <==> greeting_valid(msg@),
        r matches Err(e) ==> e == Socks5Error::InvalidGreeting,
{
    if msg.len() < 2 || msg[0] != SOCKS_VERSION {
        Err(Socks5Error::InvalidGreeting)
    } else {
        Ok(())
    }
}

/// The reply to a greeting: version 5, no authentication required.
pub fn greeting_reply() -> (r: Vec<u8>)
    ensures
        r@ == seq![SOCKS_VERSION, 0x00u8],
{
    let mut r = Vec::new();
    r.push(SOCKS_VERSION);
    r.push(0x00);
    assert(r@ =~= seq![SOCKS_VERSION, 0x00u8]);
    r
}

/// Reads a CONNECT request.
pub fn parse_request(msg: &[u8]) -> (r: Result<Socks5Target, Socks5Error>)
    ensures
        match r {
            Ok(t) => request_outcome(msg@) == Ok::<TargetView, Socks5Error>(t@),
            Err(e) => request_outcome(msg@) == Err::<TargetView, Socks5Error>(e),
        },
{
    let n = msg.len();
    if n < 7 || msg[0] != SOCKS_VERSION {
        return Err(Socks5Error::InvalidRequest);
    }
    if msg[1] != CMD_CONNECT {
        return Err(Socks5Error::UnsupportedCommand);
    }
    let atyp = msg[3];
    if atyp == ATYP_IPV4 {
        if n < 10 {
            return Err(Socks5Error::InvalidIpv4Address);
        }
        let ip = read_be32(msg, 4);
        let port = read_be16(msg, 8);
        assert(request_outcome(msg@) == Ok::<TargetView, Socks5Error>(TargetView::Addr(SockAddr { ip: IpAddress::V4(ip), port })));
        Ok(Socks5Target::Addr(SockAddr { ip: IpAddress::V4(ip), port }))
    } else if atyp == ATYP_DOMAIN {
        let len = msg[4] as usize;
        if n < 5 + len + 2 {
            return Err(Socks5Error::InvalidDomainLength);
        }
        let mut name: Vec<u8> = Vec::new();
        name.extend_from_slice(&msg[5..5 + len]);
        let port = read_be16(msg, 5 + len);
        assert(name@ =~= msg@.subrange(5, 5 + len));
        Ok(Socks5Target::Domain { name, port })
    } else if atyp == ATYP_IPV6 {
        if n < 22 {
            return Err(Socks5Error::InvalidIpv6Address);
        }
        let part = &msg[4..20];
        assert(part@ =~= msg@.subrange(4, 20));
        let ip = be_u128(part);
        let port = read_be16(msg, 20);
        Ok(Socks5Target::Addr(SockAddr { ip: IpAddress::V6(ip), port }))
    } else {
        Err(Socks5Error::UnsupportedAddressType)
    }
}

impl Socks5Error {
    /// The reply code sent to the client before closing, for the errors
    /// that are answered; the others close the connection silently.
    pub fn reply_code(&self) -> (code: Option<u8>)
        ensures
            code == match *self {
                Socks5Error::UnsupportedCommand => Some(REPLY_COMMAND_NOT_SUPPORTED),
                Socks5Error::UnsupportedAddressType => Some(REPLY_ADDRESS_TYPE_NOT_SUPPORTED),
                _ => None::<u8>,
            },
    {
        match self {
            Socks5Error::UnsupportedCommand => Some(REPLY_COMMAND_NOT_SUPPORTED),
            Socks5Error::UnsupportedAddressType => Some(REPLY_ADDRESS_TYPE_NOT_SUPPORTED),
            _ => None,
        }
    }
}

/// The reply carrying `code`.
pub fn reply(code: u8) -> (r: Vec<u8>)
    ensures
        r@ == reply_bytes(code),
{
    let mut r: Vec<u8> = Vec::new();
    r.push(SOCKS_VERSION);
    r.push(code);
    r.push(0x00);
    r.push(ATYP_IPV4);
    let mut i: usize = 0;
    while i < 6
        invariant
            i <= 6,
            r@ == seq![SOCKS_VERSION, code, 0x00u8, ATYP_IPV4] + Seq::new(i as nat, |j: int| 0u8),
        decreases 6 - i,
    {
        r.push(0);
        i = i + 1;
        assert(r@ =~= seq![SOCKS_VERSION, code, 0x00u8, ATYP_IPV4] + Seq::new(i as nat, |j: int| 0u8));
    }
    assert(r@ =~= reply_bytes(code));
    r
}

/// Whether the node accepted the connect request.
pub fn node_accepted(resp: &[u8]) -> (ok: bool)
    ensures
        ok == node_reply_ok(resp@),
{
    resp.len() >= 2 && resp[0] == 0
}

} // verus!
