//! Configuration of a node as clients see it.
use vstd::prelude::*;
use crate::addr::{IpAddress, SockAddr};

verus! {

/// Where a node listens and how much it accepts.
#[derive(Debug, Clone, Copy, PartialEq, Eq, Structural)]
pub struct NodeConfig {
    pub address: SockAddr,
    pub max_connections: u32,
    pub buffer_size: usize,
}

impl NodeConfig {
    /// All interfaces on port 8080, 1000 connections, 64 KiB buffers.
    pub fn default() -> (c: NodeConfig)
        ensures
            c == (NodeConfig {
                address: SockAddr { ip: IpAddress::V4(0), port: 8080 },
                max_connections: 1000,
                buffer_size: 65536,
            }),
    {
        NodeConfig {
            address: SockAddr { ip: IpAddress::V4(0), port: 8080 },
            max_connections: 1000,
            buffer_size: 65536,
        }
    }
}

} // verus!
