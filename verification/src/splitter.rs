//! Cutting a stream into fixed-size chunk packets.
use vstd::prelude::*;
use crate::buffer::{bytes_view, bytes_to_vec, bytes_copy_from_slice, bytes_len};
use crate::packet::{Packet, PacketView, PACKET_MAGIC, checksum_of};

verus! {

/// Number of chunks of at most `size` bytes that cover `len` bytes.
pub open spec fn chunk_count(len: nat, size: nat) -> nat
    recommends
        size > 0,
{
    if len == 0 {
        0
    } else {
        ((len - 1) as nat / size + 1) as nat
    }
}

/// Start of chunk `i` (clamped to the end of the data).
pub open spec fn chunk_start(len: nat, size: nat, i: int) -> int {
    if i * size <= len {
        i * size
    } else {
        len as int
    }
}

/// The bytes of chunk `i`: `size` bytes from `i * size`, fewer for the last.
pub open spec fn chunk_bytes(data: Seq<u8>, size: nat, i: int) -> Seq<u8> {
    data.subrange(chunk_start(data.len(), size, i), chunk_start(data.len(), size, i + 1))
}

/// The packet that carries chunk `i` of `data`.
pub open spec fn chunk_packet(
    data: Seq<u8>,
    size: nat,
    session_id: u64,
    stream_id: u32,
    first_id: u32,
    i: int,
) -> PacketView {
    let payload = chunk_bytes(data, size, i);
    PacketView {
        magic: PACKET_MAGIC,
        session_id,
        stream_id,
        chunk_id: (first_id + i) as u32,
        offset: (i * size) as u64,
        length: payload.len() as u32,
        payload,
        checksum: checksum_of(payload),
    }
}

/// The packets that `split` produces for `data`.
pub open spec fn split_packets(
    data: Seq<u8>,
    size: nat,
    session_id: u64,
    stream_id: u32,
    first_id: u32,
) -> Seq<PacketView> {
    Seq::new(
        chunk_count(data.len(), size),
        |i: int| chunk_packet(data, size, session_id, stream_id, first_id, i),
    )
}

proof fn lemma_chunk_count(len: nat, size: nat, i: nat)
    requires
        size > 0,
        i > 0,
        (i - 1) * size < len,
        len <= i * size,
    ensures
        chunk_count(len, size) == i,
{
    let q = (i - 1) as nat;
    assert((len - 1) as nat / size == q) by (nonlinear_arith)
        requires
            q * size < len,
            len <= (q + 1) * size,
            size > 0,
            len > 0,
    {
        let r = (len - 1) as nat;
        assert(q * size <= r);
        assert(r < (q + 1) * size);
        vstd::arithmetic::div_mod::lemma_fundamental_div_mod(r as int, size as int);
    }
}

/// Splits streams into chunk packets of a fixed size, numbering the chunks
/// across calls.
pub struct Splitter {
    chunk_size: usize,
    next_chunk_id: u32,
}

impl Splitter {
    /// The configured chunk size.
    pub closed spec fn size(&self) -> usize {
        self.chunk_size
    }

    /// The id the next chunk will get.
    pub closed spec fn next_id(&self) -> u32 {
        self.next_chunk_id
    }

    /// A splitter with the given chunk size, numbering from 0.
    pub fn new(chunk_size: usize) -> (s: Splitter)
        ensures
            s.size() == chunk_size,
            s.next_id() == 0,
    {
        Splitter { chunk_size, next_chunk_id: 0 }
    }

    /// Cuts `data` into packets of `chunk_size` bytes (the last may be
    /// shorter), numbered consecutively from the splitter's next id, with
    /// each packet's offset the position of its chunk in `data`.
    pub fn split(&mut self, data: bytes::Bytes, session_id: u64, stream_id: u32) -> (packets: Vec<Packet>)
        requires
            old(self).size() > 0,
            old(self).next_id() + chunk_count(bytes_view(data).len(), old(self).size() as nat)
                <= u32::MAX,
        ensures
            final(self).size() == old(self).size(),
            final(self).next_id() == old(self).next_id() + chunk_count(
                bytes_view(data).len(),
                old(self).size() as nat,
            ),
            packets@.len() == chunk_count(bytes_view(data).len(), old(self).size() as nat),
            forall|i: int|
                0 <= i < packets@.len() ==> #[trigger] packets@[i]@ == split_packets(
                    bytes_view(data),
                    old(self).size() as nat,
                    session_id,
                    stream_id,
                    old(self).next_id(),
                )[i],
    {
        let v = bytes_to_vec(&data);
        let ghost d = v@;
        let ghost size = self.chunk_size as nat;
        let ghost first = self.next_chunk_id;
        let len = v.len();
        let cs = self.chunk_size;
        let mut packets: Vec<Packet> = Vec::new();
        let mut offset: usize = 0;
        let mut i: usize = 0;
        while offset < len
            invariant
                len == d.len(),
                v@ == d,
                cs == size,
                size > 0,
                first == old(self).next_id(),
                size == old(self).size(),
                self.chunk_size == cs,
                first + chunk_count(d.len(), size) <= u32::MAX,
                offset <= len,
                offset == chunk_start(len as nat, size, i as int),
                i > 0 ==> (i - 1) * size < len,
                offset < len ==> offset == i * size,
                self.next_chunk_id == first + i,
                packets@.len() == i,
                forall|j: int|
                    0 <= j < i ==> #[trigger] packets@[j]@ == chunk_packet(
                        d,
                        size,
                        session_id,
                        stream_id,
                        first,
                        j,
                    ),
            decreases len - offset,
        {
            let end = if len - offset < cs {
                len
            } else {
                offset + cs
            };
            proof {
                assert((i + 1) * size == i * size + size) by (nonlinear_arith);
                assert(end == chunk_start(len as nat, size, i + 1));
                assert(i * size < len);
            }
            let chunk = &v.as_slice()[offset..end];
            let chunk_data = bytes_copy_from_slice(chunk);
            assert(bytes_view(chunk_data) =~= chunk_bytes(d, size, i as int));
            assert(i < chunk_count(d.len(), size)) by (nonlinear_arith)
                requires
                    i * size < len,
                    len == d.len(),
                    size > 0,
            {
                let r = (len - 1) as nat;
                vstd::arithmetic::div_mod::lemma_fundamental_div_mod(r as int, size as int);
                assert(i * size <= r);
            }
            let packet = Packet::new(session_id, stream_id, self.next_chunk_id, offset as u64, chunk_data);
            packets.push(packet);
            offset = end;
            self.next_chunk_id = self.next_chunk_id + 1;
            i = i + 1;
        }
        proof {
            if i > 0 {
                assert(len <= i * size) by (nonlinear_arith)
                    requires
                        offset == chunk_start(len as nat, size, i as int),
                        offset >= len,
                        size > 0,
                {
                }
                lemma_chunk_count(len as nat, size, i as nat);
            }
        }
        packets
    }

    /// Like `split`, but gives `None` (changing nothing) when numbering the
    /// chunks would run past the largest chunk id.
    pub fn split_checked(&mut self, data: bytes::Bytes, session_id: u64, stream_id: u32) -> (r: Option<Vec<Packet>>)
        requires
            old(self).size() > 0,
        ensures
            r is None <==> old(self).next_id() + chunk_count(bytes_view(data).len(), old(self).size() as nat)
                > u32::MAX,
            r is None ==> final(self).size() == old(self).size() && final(self).next_id() == old(self).next_id(),
            r matches Some(packets) ==> {
                &&& final(self).size() == old(self).size()
                &&& final(self).next_id() == old(self).next_id() + chunk_count(
                    bytes_view(data).len(),
                    old(self).size() as nat,
                )
                &&& packets@.len() == chunk_count(bytes_view(data).len(), old(self).size() as nat)
                &&& forall|i: int|
                    0 <= i < packets@.len() ==> #[trigger] packets@[i]@ == split_packets(
                        bytes_view(data),
                        old(self).size() as nat,
                        session_id,
                        stream_id,
                        old(self).next_id(),
                    )[i]
            },
    {
        let n = bytes_len(&data);
        let count: usize = if n == 0 {
            0
        } else {
            (n - 1) / self.chunk_size + 1
        };
        assert(count == chunk_count(n as nat, self.chunk_size as nat));
        let room: u32 = u32::MAX - self.next_chunk_id;
        if count > room as usize {
            return None;
        }
        Some(self.split(data, session_id, stream_id))
    }

    /// Changes the chunk size for later splits.
    pub fn set_chunk_size(&mut self, size: usize)
        ensures
            final(self).size() == size,
            final(self).next_id() == old(self).next_id(),
    {
        self.chunk_size = size;
    }

    /// The configured chunk size.
    pub fn get_chunk_size(&self) -> (size: usize)
        ensures
            size == self.size(),
    {
        self.chunk_size
    }
}

} // verus!
