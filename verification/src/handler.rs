//! What a node does with the chunk packets it receives.
use vstd::prelude::*;
use crate::packet::Packet;

verus! {

/// Why a received packet was refused.
#[derive(Debug, Clone, Copy, PartialEq, Eq, Structural)]
pub enum HandlerError {
    /// The payload does not match the packet's checksum.
    InvalidChecksum,
}

/// The acknowledgement sent for an accepted packet ("OK").
pub open spec fn ack_bytes() -> Seq<u8> {
    seq![0x4Fu8, 0x4B]
}

/// Handles the streams of a client connection.
pub struct ConnectionHandler;

impl ConnectionHandler {
    /// A handler.
    pub fn new() -> (h: ConnectionHandler) {
        ConnectionHandler
    }

    /// The answer to a received packet: the acknowledgement when its
    /// checksum matches, a refusal otherwise.
    pub fn answer(&self, packet: &Packet) -> (r: Result<Vec<u8>, HandlerError>)
        ensures
            packet.checksum_ok() ==> (r matches Ok(a) && a@ == ack_bytes()),
            !packet.checksum_ok() ==> r == Err::<Vec<u8>, HandlerError>(HandlerError::InvalidChecksum),
    {
        if !packet.verify_checksum() {
            return Err(HandlerError::InvalidChecksum);
        }
        let ack: Vec<u8> = vec![0x4Fu8, 0x4B];
        assert(ack@ =~= ack_bytes());
        Ok(ack)
    }
}

} // verus!
