//! Configuration of the node server.
use vstd::prelude::*;
use vstd::string::StringExecFns;
use crate::addr::{IpAddress, SockAddr};

verus! {

/// Settings of a node server.
#[derive(Debug, Clone)]
pub struct NodeConfig {
    pub listen_addr: SockAddr,
    pub max_connections: u32,
    pub buffer_size: usize,
    pub log_level: String,
}

impl NodeConfig {
    /// Listen on all interfaces, port 8080; 1000 connections; 64 KiB
    /// buffers; log level "info".
    pub fn default() -> (c: NodeConfig)
        ensures
            c.listen_addr == (SockAddr { ip: IpAddress::V4(0), port: 8080 }),
            c.max_connections == 1000,
            c.buffer_size == 65536,
            c.log_level@ == "info"@,
    {
        NodeConfig {
            listen_addr: SockAddr { ip: IpAddress::V4(0), port: 8080 },
            max_connections: 1000,
            buffer_size: 65536,
            log_level: String::from_str("info"),
        }
    }
}

} // verus!
