use bytes::Bytes;
use hydra::handler::{ConnectionHandler, HandlerError};
use hydra::packet::{Packet, PACKET_MAGIC};

#[test]
fn crc32_check_value() {
    assert_eq!(Packet::calculate_checksum(b"123456789"), 0xCBF43926);
    assert_eq!(Packet::calculate_checksum(b""), 0);
    assert_eq!(Packet::calculate_checksum(b"a"), 0xE8B7BE43);
}

#[test]
fn new_packet_fields() {
    let p = Packet::new(7, 3, 9, 40, Bytes::from("hello"));
    assert_eq!(p.magic, PACKET_MAGIC);
    assert_eq!(p.session_id, 7);
    assert_eq!(p.stream_id, 3);
    assert_eq!(p.chunk_id, 9);
    assert_eq!(p.offset, 40);
    assert_eq!(p.length, 5);
    assert_eq!(p.payload, b"hello".to_vec());
    assert!(p.verify_checksum());
}

#[test]
fn tampered_packet_fails_checksum() {
    let mut p = Packet::new(1, 1, 1, 0, Bytes::from("Hello, Hydra!"));
    p.payload[0] = b'J';
    assert!(!p.verify_checksum());
    let h = ConnectionHandler::new();
    assert!(matches!(h.answer(&p), Err(HandlerError::InvalidChecksum)));
    let good = Packet::new(1, 1, 1, 0, Bytes::from("Hello, Hydra!"));
    assert_eq!(h.answer(&good).unwrap(), b"OK".to_vec());
}
