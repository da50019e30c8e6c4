//! NAT traversal: STUN binding requests and responses, and the NAT type
//! decided from what the STUN server reports.
use vstd::prelude::*;
use vstd::string::StringExecFns;
use crate::addr::{IpAddress, SockAddr};
use crate::wire::{be_value, be16, read_be16, read_be32, be_u128};

verus! {

/// STUN magic cookie.
pub const STUN_MAGIC_COOKIE: u32 = 0x2112A442;
/// Message type of a Binding Response.
pub const STUN_BINDING_RESPONSE: u16 = 0x0101;
/// Attribute type MAPPED-ADDRESS.
pub const ATTR_MAPPED_ADDRESS: u16 = 0x0001;
/// Attribute type XOR-MAPPED-ADDRESS.
pub const ATTR_XOR_MAPPED_ADDRESS: u16 = 0x0020;
/// Size of the STUN header.
pub const STUN_HEADER_LEN: usize = 20;

/// The kind of NAT the local host sits behind.
#[derive(Debug, Clone, Copy, PartialEq, Eq, Structural)]
pub enum NatType {
    /// No NAT (the public address is the local one).
    Open,
    /// Full-cone NAT (easiest to traverse).
    FullCone,
    /// Restricted-cone NAT.
    RestrictedCone,
    /// Port-restricted-cone NAT.
    PortRestrictedCone,
    /// Symmetric NAT (hardest to traverse).
    Symmetric,
    /// Not known.
    Unknown,
}

/// Why a STUN response could not be used.
#[derive(Debug, Clone, Copy, PartialEq, Eq, Structural)]
pub enum StunError {
    /// Shorter than a STUN header.
    ResponseTooShort,
    /// Not a Binding Response; carries the message type found.
    UnexpectedMessageType(u16),
    /// The magic cookie is wrong.
    InvalidMagicCookie,
    /// No (XOR-)MAPPED-ADDRESS attribute.
    NoMappedAddress,
    /// The address attribute is shorter than an IPv4 address needs.
    MappedAddressTooShort,
    /// The address attribute is shorter than an IPv6 address needs.
    Ipv6MappedAddressTooShort,
    /// Unknown address family; carries the family byte.
    UnknownAddressFamily(u8),
}

/// The first eight bytes of a Binding Request: type 0x0001, length 0, and
/// the magic cookie.
pub open spec fn binding_request_header() -> Seq<u8> {
    seq![0x00u8, 0x01, 0x00, 0x00, 0x21, 0x12, 0xA4, 0x42]
}

/// `x` rounded up to a multiple of four.
pub open spec fn align4(x: int) -> int {
    ((x + 3) / 4) * 4
}

/// Outcome of walking the attributes of a STUN message.
pub enum AttrWalk {
    /// An address attribute: where its value starts, its length, and
    /// whether it is the XOR form.
    Found(int, int, bool),
    /// The walk ended without one.
    NotFound,
    /// The walk would read an attribute header past the end of the data.
    OutOfBounds,
}

/// Walks the attributes from `offset` while a header fits before `end`.
pub open spec fn attr_walk(data: Seq<u8>, offset: int, end: int) -> AttrWalk
    decreases (if offset <= end { end - offset } else { 0 }),
{
    if offset < 0 || offset + 4 > end {
        AttrWalk::NotFound
    } else if offset + 4 > data.len() {
        AttrWalk::OutOfBounds
    } else {
        let attr_type = be16(data[offset], data[offset + 1]);
        let attr_len = be16(data[offset + 2], data[offset + 3]) as int;
        if offset + 4 + attr_len > data.len() {
            AttrWalk::NotFound
        } else if attr_type == ATTR_MAPPED_ADDRESS || attr_type == ATTR_XOR_MAPPED_ADDRESS {
            AttrWalk::Found(offset + 4, attr_len, attr_type == ATTR_XOR_MAPPED_ADDRESS)
        } else {
            attr_walk(data, align4(offset + 4 + attr_len), end)
        }
    }
}

/// Where the attribute walk of a response starts and may go.
pub open spec fn response_walk(data: Seq<u8>) -> AttrWalk {
    attr_walk(data, 20, 20 + be16(data[2], data[3]) as int)
}

/// Whether reading `data` as a STUN response stays within it: the checks
/// before the attribute walk fail, or the walk never reads past the end.
pub open spec fn response_readable(data: Seq<u8>) -> bool {
    data.len() < 20 || be16(data[0], data[1]) != STUN_BINDING_RESPONSE
        || be_value(data.subrange(4, 8)) != STUN_MAGIC_COOKIE
        || !(response_walk(data) is OutOfBounds)
}

/// The address bytes of an attribute value, unmasked when it is XORed:
/// IPv4 with the magic cookie, IPv6 (as this protocol does it) with 0x21.
pub open spec fn address_bytes(attr: Seq<u8>, xor: bool, n: nat) -> Seq<u8> {
    Seq::new(
        n,
        |i: int|
            if !xor {
                attr[4 + i]
            } else if n == 4 {
                attr[4 + i] ^ binding_request_header()[4 + i]
            } else {
                attr[4 + i] ^ 0x21u8
            },
    )
}

/// The port carried by an address attribute value.
pub open spec fn mapped_port(attr: Seq<u8>, xor: bool) -> u16 {
    let p = be16(attr[2], attr[3]) as u16;
    if xor {
        p ^ 0x2112u16
    } else {
        p
    }
}

/// The address that a (XOR-)MAPPED-ADDRESS value carries.
pub open spec fn mapped_address(attr: Seq<u8>, xor: bool) -> Result<SockAddr, StunError> {
    if attr.len() < 8 {
        Err(StunError::MappedAddressTooShort)
    } else if attr[1] == 0x01 {
        Ok(SockAddr {
            ip: IpAddress::V4(be_value(address_bytes(attr, xor, 4)) as u32),
            port: mapped_port(attr, xor),
        })
    } else if attr[1] == 0x02 {
        if attr.len() < 20 {
            Err(StunError::Ipv6MappedAddressTooShort)
        } else {
            Ok(SockAddr {
                ip: IpAddress::V6(be_value(address_bytes(attr, xor, 16)) as u128),
                port: mapped_port(attr, xor),
            })
        }
    } else {
        Err(StunError::UnknownAddressFamily(attr[1]))
    }
}

/// The public address a Binding Response reports, or why there is none.
pub open spec fn stun_response_outcome(data: Seq<u8>) -> Result<SockAddr, StunError> {
    if data.len() < 20 {
        Err(StunError::ResponseTooShort)
    } else if be16(data[0], data[1]) != STUN_BINDING_RESPONSE {
        Err(StunError::UnexpectedMessageType(be16(data[0], data[1]) as u16))
    } else if be_value(data.subrange(4, 8)) != STUN_MAGIC_COOKIE {
        Err(StunError::InvalidMagicCookie)
    } else {
        match response_walk(data) {
            AttrWalk::Found(start, len, xor) => mapped_address(data.subrange(start, start + len), xor),
            _ => Err(StunError::NoMappedAddress),
        }
    }
}

/// The NAT type judged from the public address STUN reported (if any)
/// and the socket's local address.
pub open spec fn nat_type_of(public_addr: Option<SockAddr>, local_addr: SockAddr) -> NatType {
    match public_addr {
        None => NatType::Unknown,
        Some(p) => if p.ip == local_addr.ip {
            NatType::Open
        } else {
            NatType::FullCone
        },
    }
}

/// A Binding Request with the given 12-byte transaction id.
pub fn binding_request(transaction_id: &[u8]) -> (r: Vec<u8>)
    requires
        transaction_id@.len() == 12,
    ensures
        r@ == binding_request_header() + transaction_id@,
{
    let mut r: Vec<u8> = Vec::new();
    r.push(0x00);
    r.push(0x01);
    r.push(0x00);
    r.push(0x00);
    r.push(0x21);
    r.push(0x12);
    r.push(0xA4);
    r.push(0x42);
    assert(r@ =~= binding_request_header());
    r.extend_from_slice(transaction_id);
    r
}

/// `n` random bytes from `rand::rngs::OsRng`'s `try_fill_bytes`, or `None`
/// when the operating system's generator fails. Only their number is
/// stated.
#[verifier::external_body]
fn os_random_bytes(n: usize) -> (r: Option<Vec<u8>>)
    ensures
        r matches Some(v) ==> v@.len() == n,
{
    let mut buf = vec![0u8; n];
    match rand::RngCore::try_fill_bytes(&mut rand::rngs::OsRng, &mut buf) {
        Ok(()) => Some(buf),
        Err(_) => None,
    }
}

fn align_up4(x: usize) -> (r: usize)
    requires
        x + 3 <= usize::MAX,
    ensures
        r == align4(x as int),
        x <= r <= x + 3,
{
    assert(x <= ((x + 3) / 4) * 4 <= x + 3) by (nonlinear_arith);
    let y = x + 3;
    let r = y & !3usize;
    assert(r == (y / 4) * 4) by (bit_vector)
        requires
            y == x + 3,
            r == y & !3usize,
    ;
    r
}

/// Walks the attributes from `offset` to `end`; the caller has checked that
/// the walk stays within `data`.
fn walk_attributes(data: &[u8], offset: usize, end: usize) -> (w: Option<(usize, usize, bool)>)
    requires
        end <= 20 + 65535,
        offset <= end + 65535 + 7,
        !(attr_walk(data@, offset as int, end as int) is OutOfBounds),
    ensures
        match attr_walk(data@, offset as int, end as int) {
            AttrWalk::Found(s, l, x) => w == Some((s as usize, l as usize, x)) && 0 <= s && 0 <= l
                && s + l <= data@.len(),
            _ => w is None,
        },
        w matches Some((s, l, x)) ==> s + l <= data@.len(),
{
    let len = data.len();
    let mut off = offset;
    while off + 4 <= end
        invariant
            end <= 20 + 65535,
            off <= end + 65535 + 7,
            len == data@.len(),
            attr_walk(data@, off as int, end as int) == attr_walk(data@, offset as int, end as int),
            !(attr_walk(data@, off as int, end as int) is OutOfBounds),
        decreases end + 65535 + 8 - off,
    {
        let attr_type = read_be16(data, off);
        let attr_len = read_be16(data, off + 2) as usize;
        if off + 4 + attr_len > len {
            return None;
        }
        if attr_type == ATTR_MAPPED_ADDRESS || attr_type == ATTR_XOR_MAPPED_ADDRESS {
            return Some((off + 4, attr_len, attr_type == ATTR_XOR_MAPPED_ADDRESS));
        }
        off = align_up4(off + 4 + attr_len);
    }
    None
}

/// Whether `parse_stun_response` can read `data` without going past its end.
pub fn stun_response_readable(data: &[u8]) -> (ok: bool)
    ensures
        ok == response_readable(data@),
{
    if data.len() < STUN_HEADER_LEN || read_be16(data, 0) != STUN_BINDING_RESPONSE
        || read_be32(data, 4) != STUN_MAGIC_COOKIE {
        return true;
    }
    let len = data.len();
    let end = STUN_HEADER_LEN + read_be16(data, 2) as usize;
    let mut off: usize = STUN_HEADER_LEN;
    while off + 4 <= end
        invariant
            end <= 20 + 65535,
            off <= end + 65535 + 7,
            len == data@.len(),
            len >= 20,
            end == 20 + be16(data@[2], data@[3]),
            be16(data@[0], data@[1]) == STUN_BINDING_RESPONSE,
            be_value(data@.subrange(4, 8)) == STUN_MAGIC_COOKIE,
            attr_walk(data@, off as int, end as int) == response_walk(data@),
        decreases end + 65535 + 8 - off,
    {
        if off + 4 > len {
            return false;
        }
        let attr_type = read_be16(data, off);
        let attr_len = read_be16(data, off + 2) as usize;
        if off + 4 + attr_len > len {
            return true;
        }
        if attr_type == ATTR_MAPPED_ADDRESS || attr_type == ATTR_XOR_MAPPED_ADDRESS {
            return true;
        }
        off = align_up4(off + 4 + attr_len);
    }
    true
}

/// Reads a (XOR-)MAPPED-ADDRESS attribute value.
pub fn parse_mapped_address(data: &[u8], is_xor: bool) -> (r: Result<SockAddr, StunError>)
    ensures
        r == mapped_address(data@, is_xor),
{
    if data.len() < 8 {
        return Err(StunError::MappedAddressTooShort);
    }
    let family = data[1];
    let raw_port = read_be16(data, 2);
    let port = if is_xor {
        raw_port ^ 0x2112
    } else {
        raw_port
    };
    if family == 0x01 {
        let mask: [u8; 4] = [0x21, 0x12, 0xA4, 0x42];
        let mut ip: Vec<u8> = Vec::new();
        let mut i: usize = 0;
        while i < 4
            invariant
                i <= 4,
                data@.len() >= 8,
                mask@ == binding_request_header().subrange(4, 8),
                ip@ == address_bytes(data@, is_xor, 4).subrange(0, i as int),
            decreases 4 - i,
        {
            let b = if is_xor {
                data[4 + i] ^ mask[i]
            } else {
                data[4 + i]
            };
            ip.push(b);
            i = i + 1;
            assert(ip@ =~= address_bytes(data@, is_xor, 4).subrange(0, i as int));
        }
        assert(ip@ =~= address_bytes(data@, is_xor, 4));
        let v = read_be32(ip.as_slice(), 0);
        assert(ip@.subrange(0, 4) =~= ip@);
        Ok(SockAddr { ip: IpAddress::V4(v), port })
    } else if family == 0x02 {
        if data.len() < 20 {
            return Err(StunError::Ipv6MappedAddressTooShort);
        }
        let mut ip: Vec<u8> = Vec::new();
        let mut i: usize = 0;
        while i < 16
            invariant
                i <= 16,
                data@.len() >= 20,
                ip@ == address_bytes(data@, is_xor, 16).subrange(0, i as int),
            decreases 16 - i,
        {
            let b = if is_xor {
                data[4 + i] ^ 0x21
            } else {
                data[4 + i]
            };
            ip.push(b);
            i = i + 1;
            assert(ip@ =~= address_bytes(data@, is_xor, 16).subrange(0, i as int));
        }
        assert(ip@ =~= address_bytes(data@, is_xor, 16));
        let v = be_u128(ip.as_slice());
        Ok(SockAddr { ip: IpAddress::V6(v), port })
    } else {
        Err(StunError::UnknownAddressFamily(family))
    }
}

/// Reads a Binding Response and gives the address it reports.
pub fn parse_stun_response(data: &[u8]) -> (r: Result<SockAddr, StunError>)
    requires
        response_readable(data@),
    ensures
        r == stun_response_outcome(data@),
{
    if data.len() < STUN_HEADER_LEN {
        return Err(StunError::ResponseTooShort);
    }
    let msg_type = read_be16(data, 0);
    if msg_type != STUN_BINDING_RESPONSE {
        return Err(StunError::UnexpectedMessageType(msg_type));
    }
    let magic = read_be32(data, 4);
    if magic != STUN_MAGIC_COOKIE {
        return Err(StunError::InvalidMagicCookie);
    }
    let msg_len = read_be16(data, 2) as usize;
    match walk_attributes(data, STUN_HEADER_LEN, STUN_HEADER_LEN + msg_len) {
        Some((start, len, xor)) => {
            let attr = &data[start..start + len];
            assert(attr@ == data@.subrange(start as int, start + len));
            parse_mapped_address(attr, xor)
        },
        None => Err(StunError::NoMappedAddress),
    }
}

/// The STUN servers tried by default, in order.
pub open spec fn default_stun_servers() -> Seq<Seq<char>> {
    seq!["stun.l.google.com:19302"@, "stun1.l.google.com:19302"@, "stun2.l.google.com:19302"@]
}

/// What a traversal attempt found.
#[derive(Debug, Clone)]
pub struct NatTraversalResult {
    /// The local address the socket was bound to.
    pub local_addr: SockAddr,
    /// The public address a STUN server reported, if any did.
    pub public_addr: Option<SockAddr>,
    /// The NAT type judged from it.
    pub nat_type: NatType,
    /// Whether a public address was found.
    pub success: bool,
}

/// Settings for NAT traversal: where to bind and which STUN servers to ask.
pub struct NatTraversal {
    local_addr: SockAddr,
    stun_servers: Vec<String>,
}

impl NatTraversal {
    /// The address to bind.
    pub closed spec fn local(&self) -> SockAddr {
        self.local_addr
    }

    /// The STUN servers to ask, in order.
    pub closed spec fn servers(&self) -> Seq<Seq<char>> {
        self.stun_servers@.map_values(|s: String| s@)
    }

    /// Traversal from `local_addr` with the default STUN servers.
    pub fn new(local_addr: SockAddr) -> (t: NatTraversal)
        ensures
            t.local() == local_addr,
            t.servers() == default_stun_servers(),
    {
        let mut servers: Vec<String> = Vec::new();
        servers.push(String::from_str("stun.l.google.com:19302"));
        servers.push(String::from_str("stun1.l.google.com:19302"));
        servers.push(String::from_str("stun2.l.google.com:19302"));
        let t = NatTraversal { local_addr, stun_servers: servers };
        assert(t.servers() =~= default_stun_servers());
        t
    }

    /// The same settings with other STUN servers.
    pub fn with_stun_servers(self, servers: Vec<String>) -> (t: NatTraversal)
        ensures
            t.local() == self.local(),
            t.servers() == servers@.map_values(|s: String| s@),
    {
        NatTraversal { local_addr: self.local_addr, stun_servers: servers }
    }

    /// The address to bind.
    pub fn local_addr(&self) -> (a: SockAddr)
        ensures
            a == self.local(),
    {
        self.local_addr
    }

    /// The STUN servers to ask, in order.
    pub fn stun_servers(&self) -> (s: &Vec<String>)
        ensures
            s@.map_values(|x: String| x@) == self.servers(),
    {
        &self.stun_servers
    }

    /// A Binding Request with a fresh random transaction id; `None` when
    /// the random generator fails.
    pub fn build_stun_request(&self) -> (r: Option<Vec<u8>>)
        ensures
            r matches Some(v) ==> v@.len() == 20 && v@.subrange(0, 8) == binding_request_header(),
    {
        let id = match os_random_bytes(12) {
            Some(id) => id,
            None => return None,
        };
        let r = binding_request(id.as_slice());
        assert(r@.subrange(0, 8) =~= binding_request_header());
        Some(r)
    }

    /// The outcome of a traversal from what it observed: the public address
    /// STUN reported (if any) and the address the socket is bound to.
    pub fn conclude(&self, public_addr: Option<SockAddr>, bound_addr: SockAddr) -> (r: NatTraversalResult)
        ensures
            r.local_addr == self.local(),
            r.public_addr == public_addr,
            r.nat_type == nat_type_of(public_addr, bound_addr),
            r.success == public_addr is Some,
    {
        NatTraversalResult {
            local_addr: self.local_addr,
            public_addr,
            nat_type: detect_nat_type(public_addr, bound_addr),
            success: public_addr.is_some(),
        }
    }
}

/// The probe both sides send when punching a hole.
pub open spec fn punch_probe() -> Seq<u8> {
    seq![0x48u8, 0x59, 0x44, 0x52, 0x41, 0x5F, 0x50, 0x55, 0x4E, 0x43, 0x48]
}

/// The probe both sides send when punching a hole ("HYDRA_PUNCH").
pub fn punch_probe_bytes() -> (r: Vec<u8>)
    ensures
        r@ == punch_probe(),
{
    let r: Vec<u8> = vec![0x48u8, 0x59, 0x44, 0x52, 0x41, 0x5F, 0x50, 0x55, 0x4E, 0x43, 0x48];
    assert(r@ =~= punch_probe());
    r
}

/// Whether a datagram answers the hole punch: it comes from the target and
/// is the probe itself.
pub fn punch_answered(from: SockAddr, target: SockAddr, payload: &[u8]) -> (ok: bool)
    ensures
        ok == (from == target && payload@ == punch_probe()),
{
    if from != target || payload.len() != 11 {
        return false;
    }
    let probe = punch_probe_bytes();
    let mut i: usize = 0;
    while i < 11
        invariant
            i <= 11,
            payload@.len() == 11,
            probe@ == punch_probe(),
            forall|j: int| 0 <= j < i ==> payload@[j] == probe@[j],
        decreases 11 - i,
    {
        if payload[i] != probe[i] {
            return false;
        }
        i = i + 1;
    }
    assert(payload@ =~= punch_probe());
    true
}

/// Settings for punching a UDP hole from a local address to a target.
pub struct UdpHolePuncher {
    local_addr: SockAddr,
    target_addr: SockAddr,
}

impl UdpHolePuncher {
    /// The address to bind.
    pub closed spec fn local(&self) -> SockAddr {
        self.local_addr
    }

    /// The peer to punch towards.
    pub closed spec fn target(&self) -> SockAddr {
        self.target_addr
    }

    /// A puncher from `local_addr` towards `target_addr`.
    pub fn new(local_addr: SockAddr, target_addr: SockAddr) -> (p: UdpHolePuncher)
        ensures
            p.local() == local_addr,
            p.target() == target_addr,
    {
        UdpHolePuncher { local_addr, target_addr }
    }

    /// The address to bind.
    pub fn local_addr(&self) -> (a: SockAddr)
        ensures
            a == self.local(),
    {
        self.local_addr
    }

    /// The peer to punch towards.
    pub fn target_addr(&self) -> (a: SockAddr)
        ensures
            a == self.target(),
    {
        self.target_addr
    }
}

/// The NAT type judged from the public address STUN reported (if any) and
/// the socket's local address: unknown without a public address, open when
/// the public IP is the local one, full cone otherwise.
pub fn detect_nat_type(public_addr: Option<SockAddr>, local_addr: SockAddr) -> (t: NatType)
    ensures
        t == nat_type_of(public_addr, local_addr),
{
    match public_addr {
        None => NatType::Unknown,
        Some(p) => if p.ip == local_addr.ip {
            NatType::Open
        } else {
            NatType::FullCone
        },
    }
}

proof fn lemma_be_value4(s: Seq<u8>)
    requires
        s.len() == 4,
    ensures
        be_value(s) == s[0] as nat * 0x100_0000 + s[1] as nat * 0x1_0000 + s[2] as nat * 0x100 + s[3] as nat,
{
    reveal_with_fuel(be_value, 5);
    let s3 = s.drop_last();
    let s2 = s3.drop_last();
    let s1 = s2.drop_last();
    let s0 = s1.drop_last();
    assert(s0.len() == 0);
    assert(s1[0] == s[0]);
    assert(s2[0] == s[0] && s2[1] == s[1]);
    assert(s3[0] == s[0] && s3[1] == s[1] && s3[2] == s[2]);
}

/// What an IPv4 (XOR-)MAPPED-ADDRESS value says: the plain form carries the
/// address bytes and the port as they are, big-endian; the XOR form carries
/// them masked with the magic cookie (the port with its high half). An IPv6
/// value in the plain form carries its sixteen address bytes as they are.
pub proof fn mapped_address_reads_the_value(attr: Seq<u8>)
    requires
        attr.len() >= 8,
    ensures
        attr[1] == 0x01 ==> mapped_address(attr, false) == Ok::<SockAddr, StunError>(
            SockAddr {
                ip: IpAddress::V4(
                    (attr[4] as nat * 0x100_0000 + attr[5] as nat * 0x1_0000 + attr[6] as nat * 0x100
                        + attr[7] as nat) as u32,
                ),
                port: (attr[2] as nat * 256 + attr[3] as nat) as u16,
            },
        ),
        attr[1] == 0x01 ==> mapped_address(attr, true) == Ok::<SockAddr, StunError>(
            SockAddr {
                ip: IpAddress::V4(
                    ((attr[4] ^ 0x21u8) as nat * 0x100_0000 + (attr[5] ^ 0x12u8) as nat * 0x1_0000 + (attr[6]
                        ^ 0xA4u8) as nat * 0x100 + (attr[7] ^ 0x42u8) as nat) as u32,
                ),
                port: ((attr[2] as nat * 256 + attr[3] as nat) as u16) ^ 0x2112u16,
            },
        ),
        attr[1] == 0x02 && attr.len() >= 20 ==> mapped_address(attr, false) == Ok::<SockAddr, StunError>(
            SockAddr {
                ip: IpAddress::V6(be_value(attr.subrange(4, 20)) as u128),
                port: (attr[2] as nat * 256 + attr[3] as nat) as u16,
            },
        ),
{
    let plain = address_bytes(attr, false, 4);
    let masked = address_bytes(attr, true, 4);
    lemma_be_value4(plain);
    lemma_be_value4(masked);
    assert(binding_request_header()[4] == 0x21u8);
    assert(binding_request_header()[5] == 0x12u8);
    assert(binding_request_header()[6] == 0xA4u8);
    assert(binding_request_header()[7] == 0x42u8);
    if attr.len() >= 20 {
        assert(address_bytes(attr, false, 16) =~= attr.subrange(4, 20));
    }
}

} // verus!
