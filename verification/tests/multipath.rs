use bytes::Bytes;
use hydra::assembler::Assembler;
use hydra::splitter::Splitter;

#[test]
fn test_chunk_reassembly() {
    let test_data = Bytes::from("Hello, World! This is a test message.");
    let mut splitter = Splitter::new(10);
    let mut assembler = Assembler::new();

    let packets = splitter.split(test_data.clone(), 1, 1);
    assert_eq!(packets.len(), 4);

    let mut reordered_packets = packets.clone();
    if reordered_packets.len() >= 3 {
        reordered_packets.swap(0, 2);
    }

    let mut assembled_data: Vec<u8> = Vec::new();
    for packet in reordered_packets {
        if let Some(assembled) = assembler.add_packet(packet) {
            assembled_data.extend_from_slice(&assembled);
        }
    }
    assert_eq!(assembled_data, test_data.to_vec());
}

#[test]
fn split_layout() {
    let data = Bytes::from("abcdefghijk");
    let mut s = Splitter::new(4);
    let ps = s.split(data, 5, 6);
    assert_eq!(ps.len(), 3);
    assert_eq!(ps[0].payload, b"abcd".to_vec());
    assert_eq!(ps[2].payload, b"ijk".to_vec());
    assert_eq!(ps[2].offset, 8);
    assert_eq!(ps[2].length, 3);
    assert_eq!(ps[1].chunk_id, 1);
    // Chunk ids continue across calls.
    let more = s.split(Bytes::from("xy"), 5, 6);
    assert_eq!(more[0].chunk_id, 3);
    assert_eq!(more[0].offset, 0);
    assert_eq!(s.get_chunk_size(), 4);
    s.set_chunk_size(2);
    assert_eq!(s.get_chunk_size(), 2);
    assert!(s.split(Bytes::new(), 0, 0).is_empty());
}

#[test]
fn in_order_reassembly_hands_out_each_chunk() {
    let data: Vec<u8> = (0..100u8).collect();
    let mut s = Splitter::new(7);
    let mut a = Assembler::new();
    let mut out = Vec::new();
    for p in s.split(Bytes::from(data.clone()), 1, 1) {
        let expected = p.payload.clone();
        let got = a.add_packet(p).unwrap();
        assert_eq!(got.to_vec(), expected);
        out.extend_from_slice(&got);
    }
    assert_eq!(out, data);
}

#[test]
fn reversed_reassembly_waits_for_the_first_chunk() {
    let data: Vec<u8> = (0..50u8).collect();
    let mut s = Splitter::new(10);
    let mut a = Assembler::new();
    let mut ps = s.split(Bytes::from(data.clone()), 1, 1);
    ps.reverse();
    let mut outputs = Vec::new();
    for p in ps {
        outputs.push(a.add_packet(p));
    }
    assert!(outputs[..4].iter().all(|o| o.is_none()));
    assert_eq!(outputs[4].as_ref().unwrap().to_vec(), data);
}

#[test]
fn corrupted_packet_is_dropped_and_reset_clears() {
    let mut s = Splitter::new(3);
    let mut a = Assembler::new();
    let mut ps = s.split(Bytes::from("abcdef"), 1, 1);
    ps[0].checksum ^= 1;
    let second = ps.pop().unwrap();
    let first = ps.pop().unwrap();
    assert!(a.add_packet(first).is_none());
    assert!(a.add_packet(second).is_none());
    a.reset();
    let mut s = Splitter::new(3);
    let ps = s.split(Bytes::from("abcdef"), 1, 1);
    let mut out = Vec::new();
    for p in ps {
        if let Some(b) = a.add_packet(p) {
            out.extend_from_slice(&b);
        }
    }
    assert_eq!(out, b"abcdef".to_vec());
}

#[test]
fn split_checked_splits_like_split() {
    let mut s = Splitter::new(4);
    let ok = s.split_checked(Bytes::from("abcdefgh"), 1, 1).unwrap();
    assert_eq!(ok.len(), 2);
    assert_eq!(ok[1].chunk_id, 1);
    let mut ones = Splitter::new(1);
    assert_eq!(ones.split_checked(Bytes::from(vec![0u8; 3]), 1, 1).map(|p| p.len()), Some(3));
    assert_eq!(ones.split_checked(Bytes::from("z"), 1, 1).unwrap()[0].chunk_id, 3);
    assert!(s.split_checked(Bytes::new(), 1, 1).unwrap().is_empty());
}
