//! Socket addresses as plain values.
use vstd::prelude::*;

verus! {

/// An IP address: IPv4 as its 32-bit number, IPv6 as its 128-bit number
/// (both in network byte order, as `std::net` reads them).
#[derive(Debug, Clone, Copy, PartialEq, Eq, Structural)]
pub enum IpAddress {
    V4(u32),
    V6(u128),
}

/// An IP address and a port.
#[derive(Debug, Clone, Copy, PartialEq, Eq, Structural)]
pub struct SockAddr {
    pub ip: IpAddress,
    pub port: u16,
}

} // verus!
