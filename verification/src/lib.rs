//! Core logic of the Hydra multipath proxy: the chunk wire format, splitting
//! and reassembly of streams, SOCKS5 and STUN message handling, token and
//! password authentication, node scheduling and traffic accounting.

pub mod addr;
pub mod wire;
pub mod buffer;
pub mod clock;
pub mod entropy;
pub mod packet;
pub mod splitter;
pub mod assembler;
pub mod reassembly;
pub mod socks5;
pub mod nat_traversal;
pub mod text;
pub mod auth;
pub mod traffic;
pub mod session;
pub mod scheduler;
pub mod crypto;
pub mod buf_pool;
pub mod node;
pub mod config;
pub mod handler;
pub mod pool;
pub mod share_link;
pub mod console;
pub mod share_url;
