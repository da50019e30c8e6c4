//! Putting chunk packets back together in stream order.
use vstd::prelude::*;
use crate::buffer::{bytes_view, bytes_from_vec};
use crate::packet::{Packet, PacketView};

verus! {

/// Index of the first stored packet whose chunk id is `id`, or -1.
pub open spec fn index_of_chunk(store: Seq<PacketView>, id: u32) -> int
    decreases store.len(),
{
    if store.len() == 0 {
        -1
    } else if store.last().chunk_id == id && index_of_chunk(store.drop_last(), id) < 0 {
        store.len() - 1
    } else {
        index_of_chunk(store.drop_last(), id)
    }
}

/// Index of the first stored packet that starts at `offset`, or -1.
pub open spec fn index_at_offset(store: Seq<PacketView>, offset: u64) -> int
    decreases store.len(),
{
    if store.len() == 0 {
        -1
    } else if store.last().offset == offset && index_at_offset(store.drop_last(), offset) < 0 {
        store.len() - 1
    } else {
        index_at_offset(store.drop_last(), offset)
    }
}

/// The store after keeping `p` under its chunk id: it replaces a packet
/// with the same id, or joins the end.
pub open spec fn store_insert(store: Seq<PacketView>, p: PacketView) -> Seq<PacketView> {
    let k = index_of_chunk(store, p.chunk_id);
    if k >= 0 {
        store.update(k, p)
    } else {
        store.push(p)
    }
}

/// Reassembly from `offset`: repeatedly take the first stored packet that
/// starts where the data so far ends. Gives the bytes collected, the packets
/// left, and the offset reached.
pub open spec fn drain_from(store: Seq<PacketView>, offset: u64) -> (Seq<u8>, Seq<PacketView>, u64)
    decreases store.len(),
{
    let k = index_at_offset(store, offset);
    if 0 <= k < store.len() {
        let p = store[k];
        let rest = drain_from(store.remove(k), (offset + p.length) as u64);
        (p.payload + rest.0, rest.1, rest.2)
    } else {
        (Seq::empty(), store, offset)
    }
}

/// What an assembler holds: the packets waiting for their turn and the
/// offset of the next byte to be delivered.
pub struct AssemblerState {
    pub pending: Seq<PacketView>,
    pub expected_offset: u64,
}

/// The state of a fresh assembler.
pub open spec fn initial_state() -> AssemblerState {
    AssemblerState { pending: Seq::empty(), expected_offset: 0 }
}

/// Effect of `add_packet`: the new state and the bytes handed out, if any.
pub open spec fn add_packet_step(st: AssemblerState, p: PacketView) -> (AssemblerState, Option<Seq<u8>>) {
    if !p.checksum_ok() {
        (st, None)
    } else {
        let d = drain_from(store_insert(st.pending, p), st.expected_offset);
        if d.0.len() > 0 {
            (AssemblerState { pending: d.1, expected_offset: d.2 }, Some(d.0))
        } else {
            (AssemblerState { pending: d.1, expected_offset: st.expected_offset }, None)
        }
    }
}

/// A state an assembler can be in: chunk ids are distinct and every pending
/// packet's byte range ends within `u64`.
pub open spec fn state_ok(st: AssemblerState) -> bool {
    &&& forall|i: int, j: int|
        0 <= i < st.pending.len() && 0 <= j < st.pending.len() && i != j
            ==> #[trigger] st.pending[i].chunk_id != #[trigger] st.pending[j].chunk_id
    &&& forall|i: int| 0 <= i < st.pending.len() ==> #[trigger] st.pending[i].end_fits()
}

/// Reorders chunk packets: packets are kept by chunk id, and whenever the
/// packet at the expected offset is present the contiguous data from there
/// is handed out.
pub struct Assembler {
    chunks: Vec<Packet>,
    expected_offset: u64,
}

impl View for Assembler {
    type V = AssemblerState;

    closed spec fn view(&self) -> AssemblerState {
        AssemblerState {
            pending: self.chunks@.map_values(|p: Packet| p@),
            expected_offset: self.expected_offset,
        }
    }
}

pub(crate) proof fn lemma_index_of_chunk(store: Seq<PacketView>, id: u32)
    ensures
        -1 <= index_of_chunk(store, id) < store.len(),
        index_of_chunk(store, id) >= 0 ==> store[index_of_chunk(store, id)].chunk_id == id,
        index_of_chunk(store, id) < 0 ==> forall|j: int| 0 <= j < store.len() ==> store[j].chunk_id != id,
        index_of_chunk(store, id) >= 0 ==> forall|j: int|
            0 <= j < index_of_chunk(store, id) ==> store[j].chunk_id != id,
    decreases store.len(),
{
    if store.len() > 0 {
        let prefix = store.drop_last();
        lemma_index_of_chunk(prefix, id);
        assert(forall|j: int| 0 <= j < prefix.len() ==> prefix[j] == store[j]);
    }
}

pub(crate) proof fn lemma_index_at_offset(store: Seq<PacketView>, offset: u64)
    ensures
        -1 <= index_at_offset(store, offset) < store.len(),
        index_at_offset(store, offset) >= 0 ==> store[index_at_offset(store, offset)].offset == offset,
        index_at_offset(store, offset) < 0 ==> forall|j: int|
            0 <= j < store.len() ==> store[j].offset != offset,
        index_at_offset(store, offset) >= 0 ==> forall|j: int|
            0 <= j < index_at_offset(store, offset) ==> store[j].offset != offset,
    decreases store.len(),
{
    if store.len() > 0 {
        let prefix = store.drop_last();
        lemma_index_at_offset(prefix, offset);
        assert(forall|j: int| 0 <= j < prefix.len() ==> prefix[j] == store[j]);
    }
}

/// The first index in `store` at which `pred` holds is `k` exactly when
/// `index_at_offset` says so.
proof fn lemma_index_at_offset_is_first(store: Seq<PacketView>, offset: u64, k: int)
    requires
        -1 <= k < store.len(),
        k >= 0 ==> store[k].offset == offset,
        forall|j: int| 0 <= j < store.len() && (k < 0 || j < k) ==> store[j].offset != offset,
    ensures
        index_at_offset(store, offset) == k,
{
    lemma_index_at_offset(store, offset);
}

proof fn lemma_index_of_chunk_is_first(store: Seq<PacketView>, id: u32, k: int)
    requires
        -1 <= k < store.len(),
        k >= 0 ==> store[k].chunk_id == id,
        forall|j: int| 0 <= j < store.len() && (k < 0 || j < k) ==> store[j].chunk_id != id,
    ensures
        index_of_chunk(store, id) == k,
{
    lemma_index_of_chunk(store, id);
}

impl Assembler {
    /// Whether the assembler's state is one it can be in.
    pub closed spec fn well_formed(&self) -> bool {
        state_ok(self@)
    }

    /// An assembler expecting offset 0, with nothing pending.
    pub fn new() -> (a: Assembler)
        ensures
            a@ == initial_state(),
            a.well_formed(),
    {
        let a = Assembler { chunks: Vec::new(), expected_offset: 0 };
        assert(a@.pending =~= Seq::<PacketView>::empty());
        a
    }

    /// Accepts a packet. A packet whose checksum does not match is dropped
    /// and nothing changes. Otherwise it is kept under its chunk id, and the
    /// data that is now contiguous from the expected offset is handed out.
    pub fn add_packet(&mut self, packet: Packet) -> (out: Option<bytes::Bytes>)
        requires
            old(self).well_formed(),
            packet@.checksum_ok() ==> packet@.end_fits(),
        ensures
            final(self).well_formed(),
            final(self)@ == add_packet_step(old(self)@, packet@).0,
            match add_packet_step(old(self)@, packet@).1 {
                Some(d) => out matches Some(b) && bytes_view(b) == d,
                None => out is None,
            },
            out matches Some(b) ==> bytes_view(b).len() > 0,
    {
        if !packet.verify_checksum() {
            return None;
        }
        self.insert_chunk(packet);
        self.try_assemble()
    }

    fn insert_chunk(&mut self, packet: Packet)
        requires
            old(self).well_formed(),
            packet@.end_fits(),
        ensures
            final(self).well_formed(),
            final(self)@ == (AssemblerState {
                pending: store_insert(old(self)@.pending, packet@),
                expected_offset: old(self)@.expected_offset,
            }),
    {
        let ghost old_store = self@.pending;
        let mut k: usize = 0;
        while k < self.chunks.len() && self.chunks[k].chunk_id != packet.chunk_id
            invariant
                k <= self.chunks@.len(),
                self@.pending == old_store,
                old_store.len() == self.chunks@.len(),
                forall|j: int| 0 <= j < k ==> old_store[j].chunk_id != packet.chunk_id,
            decreases self.chunks@.len() - k,
        {
            k = k + 1;
        }
        if k < self.chunks.len() {
            proof {
                lemma_index_of_chunk_is_first(old_store, packet.chunk_id, k as int);
            }
            self.chunks.set(k, packet);
            assert(self@.pending =~= store_insert(old_store, packet@));
            proof {
                let st = self@.pending;
                assert forall|i: int, j: int|
                    0 <= i < st.len() && 0 <= j < st.len() && i != j implies #[trigger] st[i].chunk_id
                        != #[trigger] st[j].chunk_id by {
                    assert(st[i].chunk_id == old_store[i].chunk_id);
                    assert(st[j].chunk_id == old_store[j].chunk_id);
                }
                assert forall|i: int| 0 <= i < st.len() implies #[trigger] st[i].end_fits() by {
                    if i != k {
                        assert(st[i] == old_store[i]);
                    }
                }
            }
        } else {
            proof {
                lemma_index_of_chunk_is_first(old_store, packet.chunk_id, -1);
            }
            self.chunks.push(packet);
            assert(self@.pending =~= store_insert(old_store, packet@));
            proof {
                let st = self@.pending;
                assert forall|i: int, j: int|
                    0 <= i < st.len() && 0 <= j < st.len() && i != j implies #[trigger] st[i].chunk_id
                        != #[trigger] st[j].chunk_id by {
                    if i < old_store.len() {
                        assert(st[i] == old_store[i]);
                    }
                    if j < old_store.len() {
                        assert(st[j] == old_store[j]);
                    }
                }
                assert forall|i: int| 0 <= i < st.len() implies #[trigger] st[i].end_fits() by {
                    if i < old_store.len() {
                        assert(st[i] == old_store[i]);
                    }
                }
            }
        }
    }

    fn try_assemble(&mut self) -> (out: Option<bytes::Bytes>)
        requires
            old(self).well_formed(),
        ensures
            final(self).well_formed(),
            ({
                let d = drain_from(old(self)@.pending, old(self)@.expected_offset);
                &&& final(self)@.pending == d.1
                &&& if d.0.len() > 0 {
                    &&& final(self)@.expected_offset == d.2
                    &&& out matches Some(b) && bytes_view(b) == d.0
                } else {
                    &&& final(self)@.expected_offset == old(self)@.expected_offset
                    &&& out is None
                }
            }),
    {
        let ghost d = drain_from(self@.pending, self.expected_offset);
        let mut assembled: Vec<u8> = Vec::new();
        let mut current_offset = self.expected_offset;
        loop
            invariant
                self.well_formed(),
                self.expected_offset == old(self)@.expected_offset,
                ({
                    let r = drain_from(self@.pending, current_offset);
                    &&& d.0 == assembled@ + r.0
                    &&& d.1 == r.1
                    &&& d.2 == r.2
                }),
            ensures
                self.well_formed(),
                self.expected_offset == old(self)@.expected_offset,
                d.0 == assembled@,
                d.1 == self@.pending,
                d.2 == current_offset,
            decreases self.chunks@.len(),
        {
            let ghost store = self@.pending;
            let mut k: usize = 0;
            while k < self.chunks.len() && self.chunks[k].offset != current_offset
                invariant
                    k <= self.chunks@.len(),
                    self@.pending == store,
                    store.len() == self.chunks@.len(),
                    forall|j: int| 0 <= j < k ==> store[j].offset != current_offset,
                decreases self.chunks@.len() - k,
            {
                k = k + 1;
            }
            if k == self.chunks.len() {
                proof {
                    lemma_index_at_offset_is_first(store, current_offset, -1);
                }
                break;
            }
            proof {
                lemma_index_at_offset_is_first(store, current_offset, k as int);
            }
            let packet = self.chunks.remove(k);
            assert(store[k as int] == packet@);
            assert(self@.pending =~= store.remove(k as int));
            assert(packet@.end_fits());
            assembled.extend_from_slice(packet.payload.as_slice());
            current_offset = current_offset + packet.length as u64;
            proof {
                let p = store[k as int];
                let rest = self@.pending;
                assert forall|i: int, j: int|
                    0 <= i < rest.len() && 0 <= j < rest.len() && i != j implies #[trigger] rest[i].chunk_id
                        != #[trigger] rest[j].chunk_id by {
                    let i2 = if i < k { i } else { i + 1 };
                    let j2 = if j < k { j } else { j + 1 };
                    assert(rest[i] == store[i2]);
                    assert(rest[j] == store[j2]);
                }
                assert forall|i: int| 0 <= i < rest.len() implies #[trigger] rest[i].end_fits() by {
                    let i2 = if i < k { i } else { i + 1 };
                    assert(rest[i] == store[i2]);
                }
            }
        }
        if assembled.len() > 0 {
            self.expected_offset = current_offset;
            Some(bytes_from_vec(assembled))
        } else {
            None
        }
    }

    /// Forgets every pending packet and expects offset 0 again.
    pub fn reset(&mut self)
        ensures
            final(self)@ == initial_state(),
            final(self).well_formed(),
    {
        self.chunks.clear();
        self.expected_offset = 0;
        assert(self@.pending =~= Seq::<PacketView>::empty());
    }
}

} // verus!
