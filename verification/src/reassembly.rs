//! What splitting and reassembly promise together.
use vstd::prelude::*;
use crate::packet::PacketView;
use crate::splitter::{chunk_count, chunk_start, chunk_bytes, split_packets};
use crate::assembler::{
    AssemblerState, add_packet_step, initial_state, drain_from, store_insert, index_at_offset,
    index_of_chunk, lemma_index_at_offset, lemma_index_of_chunk,
};

verus! {

/// Feeding packets one after another to an assembler: the final state and
/// everything handed out, concatenated.
pub open spec fn feed(st: AssemblerState, packets: Seq<PacketView>) -> (AssemblerState, Seq<u8>)
    decreases packets.len(),
{
    if packets.len() == 0 {
        (st, Seq::empty())
    } else {
        let before = feed(st, packets.drop_last());
        let step = add_packet_step(before.0, packets.last());
        (
            step.0,
            before.1 + match step.1 {
                Some(d) => d,
                None => Seq::empty(),
            },
        )
    }
}

proof fn lemma_chunk_bounds(len: nat, size: nat, k: nat)
    requires
        size > 0,
        k < chunk_count(len, size),
    ensures
        k * size < len,
        chunk_start(len, size, k as int) == k * size,
        k * size < chunk_start(len, size, k as int + 1) <= len,
        chunk_start(len, size, k as int + 1) <= k * size + size,
{
    let r = (len - 1) as nat;
    assert(k * size <= r) by (nonlinear_arith)
        requires
            k < r / size + 1,
            size > 0,
    {
        vstd::arithmetic::div_mod::lemma_fundamental_div_mod(r as int, size as int);
        assert(k <= r / size);
        vstd::arithmetic::mul::lemma_mul_inequality(k as int, r as int / size as int, size as int);
    }
    assert((k + 1) * size == k * size + size) by (nonlinear_arith);
}

proof fn lemma_chunk_end(len: nat, size: nat)
    requires
        size > 0,
    ensures
        chunk_start(len, size, chunk_count(len, size) as int) == len,
{
    let n = chunk_count(len, size);
    if len > 0 {
        let r = (len - 1) as nat;
        assert(n * size >= len) by (nonlinear_arith)
            requires
                n == r / size + 1,
                len == r + 1,
                size > 0,
        {
            vstd::arithmetic::div_mod::lemma_fundamental_div_mod(r as int, size as int);
        }
    }
}

proof fn lemma_feed_prefix(
    data: Seq<u8>,
    size: nat,
    session_id: u64,
    stream_id: u32,
    first_id: u32,
    k: nat,
)
    requires
        0 < size,
        size <= u32::MAX || data.len() <= u32::MAX,
        data.len() <= u64::MAX,
        k <= chunk_count(data.len(), size),
    ensures
        ({
            let ps = split_packets(data, size, session_id, stream_id, first_id);
            let r = feed(initial_state(), ps.take(k as int));
            &&& r.1 == data.take(chunk_start(data.len(), size, k as int))
            &&& r.0 == (AssemblerState {
                pending: Seq::empty(),
                expected_offset: chunk_start(data.len(), size, k as int) as u64,
            })
        }),
    decreases k,
{
    let ps = split_packets(data, size, session_id, stream_id, first_id);
    if k == 0 {
        assert(ps.take(0) =~= Seq::<PacketView>::empty());
        assert(data.take(0) =~= Seq::<u8>::empty());
        assert(0 * size == 0);
        assert(chunk_start(data.len(), size, 0) == 0);
    } else {
        let j = (k - 1) as nat;
        lemma_feed_prefix(data, size, session_id, stream_id, first_id, j);
        lemma_chunk_bounds(data.len(), size, j);
        let start = chunk_start(data.len(), size, j as int);
        let end = chunk_start(data.len(), size, j as int + 1);
        let p = ps[j as int];
        assert(ps.take(k as int).drop_last() =~= ps.take(j as int));
        assert(ps.take(k as int).last() == p);
        let before = feed(initial_state(), ps.take(j as int));
        let store = Seq::<PacketView>::empty().push(p);
        assert(crate::assembler::store_insert(before.0.pending, p) =~= store);
        assert(p.offset == start as u64);
        assert(crate::assembler::index_at_offset(store, p.offset) == 0) by {
            assert(store.drop_last() =~= Seq::<PacketView>::empty());
            assert(crate::assembler::index_at_offset(Seq::<PacketView>::empty(), p.offset) == -1);
        }
        assert(store.remove(0) =~= Seq::<PacketView>::empty());
        assert(p.payload == chunk_bytes(data, size, j as int));
        assert(p.payload.len() == end - start);
        assert(end - start <= size);
        assert(end - start <= u32::MAX);
        assert(p.length == end - start);
        let rest = crate::assembler::drain_from(Seq::<PacketView>::empty(), (p.offset + p.length) as u64);
        assert(rest == (Seq::<u8>::empty(), Seq::<PacketView>::empty(), end as u64));
        assert(crate::assembler::drain_from(store, p.offset).0 =~= p.payload);
        assert(data.take(start) + p.payload =~= data.take(end));
        assert(p.checksum_ok());
        let d = crate::assembler::drain_from(store, before.0.expected_offset);
        assert(d.0 == p.payload);
        assert(d.1 =~= Seq::<PacketView>::empty());
        assert(d.2 == end as u64);
        assert(p.payload.len() > 0);
        let step = add_packet_step(before.0, p);
        assert(step.1 == Some(p.payload));
        assert(step.0 == (AssemblerState { pending: Seq::empty(), expected_offset: end as u64 }));
        let r = feed(initial_state(), ps.take(k as int));
        assert(r.0 == step.0);
        assert(r.1 == before.1 + p.payload);
    }
}

/// Splitting data into chunks and handing the chunk packets, in order, to a
/// fresh assembler gives back exactly the data, and leaves the assembler with
/// nothing pending, expecting the offset just past the data. (Each chunk's
/// length must fit the packet's 32-bit length field and the data's length
/// must fit a 64-bit offset.)
pub proof fn split_then_reassemble_in_order(
    data: Seq<u8>,
    size: nat,
    session_id: u64,
    stream_id: u32,
    first_id: u32,
)
    requires
        0 < size,
        size <= u32::MAX || data.len() <= u32::MAX,
        data.len() <= u64::MAX,
    ensures
        feed(initial_state(), split_packets(data, size, session_id, stream_id, first_id)).1 == data,
        feed(initial_state(), split_packets(data, size, session_id, stream_id, first_id)).0
            == (AssemblerState { pending: Seq::empty(), expected_offset: data.len() as u64 }),
{
    let ps = split_packets(data, size, session_id, stream_id, first_id);
    let n = chunk_count(data.len(), size);
    lemma_feed_prefix(data, size, session_id, stream_id, first_id, n);
    lemma_chunk_end(data.len(), size);
    assert(ps.take(n as int) =~= ps);
    assert(data.take(data.len() as int) =~= data);
}

/// The packets `ps` in the order `order` gives: the `t`-th is `ps[order[t]]`.
pub open spec fn reordered(ps: Seq<PacketView>, order: Seq<int>) -> Seq<PacketView> {
    Seq::new(order.len(), |t: int| ps[order[t]])
}

/// Whether `order` lists each of `0..n` exactly once.
pub open spec fn is_permutation(order: Seq<int>, n: nat) -> bool {
    &&& order.len() == n
    &&& forall|t: int| 0 <= t < order.len() ==> 0 <= #[trigger] order[t] < n
    &&& forall|s: int, t: int| 0 <= s < t < order.len() ==> #[trigger] order[s] != #[trigger] order[t]
    &&& forall|i: int| 0 <= i < n ==> #[trigger] order.contains(i)
}

/// Whether chunk `i` is among the first `t` that `order` hands over.
spec fn fed(order: Seq<int>, t: int, i: int) -> bool {
    order.take(t).contains(i)
}

/// The first chunk from `from` on that the first `t` of `order` do not
/// include (`n` when they include all).
spec fn first_unfed(order: Seq<int>, t: int, from: nat, n: nat) -> nat
    decreases n - from,
{
    if from >= n {
        n
    } else if fed(order, t, from as int) {
        first_unfed(order, t, from + 1, n)
    } else {
        from
    }
}

/// `x` is the packet of a chunk from `lo` on that the first `t` of `order`
/// include; the chunk's index is its offset over the chunk size.
spec fn holds_fed_chunk(ps: Seq<PacketView>, size: nat, order: Seq<int>, t: int, lo: nat, x: PacketView) -> bool {
    let i = x.offset as nat / size;
    &&& lo <= i < ps.len()
    &&& fed(order, t, i as int)
    &&& x == ps[i as int]
}

/// Whether the packets of `pend` carry distinct chunk ids.
spec fn ids_distinct(pend: Seq<PacketView>) -> bool {
    forall|a: int, b: int|
        0 <= a < pend.len() && 0 <= b < pend.len() && a != b ==> #[trigger] pend[a].chunk_id
            != #[trigger] pend[b].chunk_id
}

proof fn lemma_first_unfed(order: Seq<int>, t: int, from: nat, n: nat)
    requires
        from <= n,
    ensures
        from <= first_unfed(order, t, from, n) <= n,
        forall|i: int| from <= i < first_unfed(order, t, from, n) ==> #[trigger] fed(order, t, i),
        first_unfed(order, t, from, n) < n ==> !fed(order, t, first_unfed(order, t, from, n) as int),
    decreases n - from,
{
    if from < n && fed(order, t, from as int) {
        lemma_first_unfed(order, t, from + 1, n);
    }
}

/// Skipping chunks already handed over does not change the first missing one.
proof fn lemma_first_unfed_skip(order: Seq<int>, t: int, from: nat, to: nat, n: nat)
    requires
        from <= to <= n,
        forall|i: int| from <= i < to ==> #[trigger] fed(order, t, i),
    ensures
        first_unfed(order, t, from, n) == first_unfed(order, t, to, n),
    decreases to - from,
{
    if from < to {
        assert(fed(order, t, from as int));
        lemma_first_unfed_skip(order, t, from + 1, to, n);
    }
}

proof fn lemma_start_mono(len: nat, size: nat, a: int, b: int)
    requires
        size > 0,
        0 <= a <= b,
    ensures
        chunk_start(len, size, a) <= chunk_start(len, size, b),
{
    assert(a * size <= b * size) by (nonlinear_arith)
        requires
            0 <= a <= b,
            size > 0,
    ;
}

/// Chunk ids of chunks fewer than 2^32 apart differ, wrapping or not.
proof fn lemma_chunk_ids_distinct(first_id: u32, i: int, j: int)
    requires
        0 <= i < 0x1_0000_0000,
        0 <= j < 0x1_0000_0000,
        i != j,
    ensures
        (first_id + i) as u32 != (first_id + j) as u32,
{
    let a: u64 = (first_id + i) as u64;
    let b: u64 = (first_id + j) as u64;
    if i < j {
        assert(a as u32 != b as u32) by (bit_vector)
            requires
                a < b,
                b - a < 0x1_0000_0000,
        ;
    } else {
        assert(a as u32 != b as u32) by (bit_vector)
            requires
                b < a,
                a - b < 0x1_0000_0000,
        ;
    }
}

/// What a packet of `split_packets` carries.
proof fn lemma_split_packet(data: Seq<u8>, size: nat, session_id: u64, stream_id: u32, first_id: u32, i: int)
    requires
        0 < size,
        size <= u32::MAX || data.len() <= u32::MAX,
        data.len() <= u64::MAX,
        0 <= i < chunk_count(data.len(), size),
    ensures
        ({
            let p = split_packets(data, size, session_id, stream_id, first_id)[i];
            let s = chunk_start(data.len(), size, i);
            let e = chunk_start(data.len(), size, i + 1);
            &&& s == i * size
            &&& s < e <= data.len()
            &&& p.offset == s
            &&& p.length == e - s
            &&& p.payload == data.subrange(s, e)
            &&& p.checksum_ok()
            &&& p.end_fits()
            &&& p.chunk_id == (first_id + i) as u32
            &&& p.offset as nat / size == i
        }),
{
    lemma_chunk_bounds(data.len(), size, i as nat);
    let p = split_packets(data, size, session_id, stream_id, first_id)[i];
    let s = chunk_start(data.len(), size, i);
    let e = chunk_start(data.len(), size, i + 1);
    assert(p.payload.len() == e - s);
    assert(e - s <= u32::MAX);
    assert(p.length == e - s);
    vstd::arithmetic::div_mod::lemma_div_multiples_vanish(i, size as int);
    assert(size * i == i * size) by (nonlinear_arith);
}

/// Draining from chunk `m` when the pending packets are exactly those of the
/// chunks from `m` on that were handed over: the data of the run of handed
/// over chunks from `m` comes out, and the rest stays pending.
proof fn lemma_drain_chunks(
    data: Seq<u8>,
    size: nat,
    session_id: u64,
    stream_id: u32,
    first_id: u32,
    order: Seq<int>,
    t: int,
    pend: Seq<PacketView>,
    m: nat,
)
    requires
        0 < size,
        size <= u32::MAX || data.len() <= u32::MAX,
        data.len() <= u64::MAX,
        chunk_count(data.len(), size) <= 0x1_0000_0000,
        m <= chunk_count(data.len(), size),
        forall|a: int| 0 <= a < pend.len() ==> holds_fed_chunk(
            split_packets(data, size, session_id, stream_id, first_id), size, order, t, m, #[trigger] pend[a]),
        forall|i: int| m <= i < chunk_count(data.len(), size) && #[trigger] fed(order, t, i) ==> pend.contains(
            split_packets(data, size, session_id, stream_id, first_id)[i]),
        ids_distinct(pend),
    ensures
        ({
            let ps = split_packets(data, size, session_id, stream_id, first_id);
            let n = chunk_count(data.len(), size);
            let d = drain_from(pend, chunk_start(data.len(), size, m as int) as u64);
            let m2 = first_unfed(order, t, m, n);
            &&& d.0 == data.subrange(chunk_start(data.len(), size, m as int), chunk_start(data.len(), size, m2 as int))
            &&& d.2 == chunk_start(data.len(), size, m2 as int) as u64
            &&& forall|a: int| 0 <= a < d.1.len() ==> holds_fed_chunk(ps, size, order, t, m2, #[trigger] d.1[a])
            &&& forall|i: int| m2 <= i < n && #[trigger] fed(order, t, i) ==> d.1.contains(ps[i])
            &&& ids_distinct(d.1)
        }),
    decreases pend.len(),
{
    let ps = split_packets(data, size, session_id, stream_id, first_id);
    let n = chunk_count(data.len(), size);
    let len = data.len();
    let off = chunk_start(len, size, m as int) as u64;
    lemma_first_unfed(order, t, m, n);
    lemma_index_at_offset(pend, off);
    if m < n && fed(order, t, m as int) {
        lemma_split_packet(data, size, session_id, stream_id, first_id, m as int);
        let pm = ps[m as int];
        assert(pend.contains(pm));
        let w = choose|a: int| 0 <= a < pend.len() && pend[a] == pm;
        assert(pend[w].offset == off);
        let idx = index_at_offset(pend, off);
        assert(idx >= 0);
        let p = pend[idx];
        assert(holds_fed_chunk(ps, size, order, t, m, p));
        let ip = p.offset as nat / size;
        assert(ip == m);
        assert(p == pm);
        let rest = pend.remove(idx);
        lemma_split_packet(data, size, session_id, stream_id, first_id, m as int);
        assert forall|a: int| 0 <= a < rest.len() implies holds_fed_chunk(ps, size, order, t, m + 1, #[trigger] rest[a]) by {
            let a2 = if a < idx { a } else { a + 1 };
            assert(rest[a] == pend[a2]);
            assert(holds_fed_chunk(ps, size, order, t, m, pend[a2]));
            assert(pend[a2].chunk_id != pend[idx].chunk_id);
            let i = pend[a2].offset as nat / size;
            assert(i != m);
        }
        assert forall|i: int| m + 1 <= i < n && #[trigger] fed(order, t, i) implies rest.contains(ps[i]) by {
            assert(pend.contains(ps[i]));
            let b = choose|b: int| 0 <= b < pend.len() && pend[b] == ps[i];
            lemma_split_packet(data, size, session_id, stream_id, first_id, i);
            assert(b != idx);
            let b2 = if b < idx { b } else { b - 1 };
            assert(rest[b2] == pend[b]);
        }
        assert(ids_distinct(rest)) by {
            assert forall|a: int, b: int|
                0 <= a < rest.len() && 0 <= b < rest.len() && a != b implies #[trigger] rest[a].chunk_id
                    != #[trigger] rest[b].chunk_id by {
                let a2 = if a < idx { a } else { a + 1 };
                let b2 = if b < idx { b } else { b + 1 };
                assert(rest[a] == pend[a2]);
                assert(rest[b] == pend[b2]);
            }
        }
        lemma_drain_chunks(data, size, session_id, stream_id, first_id, order, t, rest, m + 1);
        assert(first_unfed(order, t, m, n) == first_unfed(order, t, m + 1, n));
        let m2 = first_unfed(order, t, m, n);
        lemma_first_unfed(order, t, m + 1, n);
        lemma_start_mono(len, size, m as int + 1, m2 as int);
        assert((off + p.length) as u64 == chunk_start(len, size, m as int + 1) as u64);
        let s = chunk_start(len, size, m as int);
        let e = chunk_start(len, size, m as int + 1);
        let f = chunk_start(len, size, m2 as int);
        assert(data.subrange(s, e) + data.subrange(e, f) =~= data.subrange(s, f));
    } else {
        assert forall|a: int| 0 <= a < pend.len() implies pend[a].offset != off by {
            assert(holds_fed_chunk(ps, size, order, t, m, pend[a]));
            let i = pend[a].offset as nat / size;
            lemma_split_packet(data, size, session_id, stream_id, first_id, i as int);
            assert(i != m);
            assert(m < n);
            lemma_chunk_bounds(len, size, m);
            assert(m * size < i * size) by (nonlinear_arith)
                requires
                    m < i,
                    size > 0,
            ;
        }
        let s = chunk_start(len, size, m as int);
        assert(data.subrange(s, s) =~= Seq::<u8>::empty());
    }
}

/// Handing the first `t` packets of any order to a fresh assembler: what
/// came out is the data up to the first chunk not yet handed over, the
/// assembler expects that chunk's offset, and the packets of the chunks
/// after it that were handed over are pending.
proof fn lemma_feed_any_order_prefix(
    data: Seq<u8>,
    size: nat,
    session_id: u64,
    stream_id: u32,
    first_id: u32,
    order: Seq<int>,
    t: nat,
)
    requires
        0 < size,
        size <= u32::MAX || data.len() <= u32::MAX,
        data.len() <= u64::MAX,
        chunk_count(data.len(), size) <= 0x1_0000_0000,
        is_permutation(order, chunk_count(data.len(), size)),
        t <= order.len(),
    ensures
        ({
            let ps = split_packets(data, size, session_id, stream_id, first_id);
            let n = chunk_count(data.len(), size);
            let r = feed(initial_state(), reordered(ps, order).take(t as int));
            let k = first_unfed(order, t as int, 0, n);
            &&& r.1 == data.take(chunk_start(data.len(), size, k as int))
            &&& r.0.expected_offset == chunk_start(data.len(), size, k as int) as u64
            &&& forall|a: int| 0 <= a < r.0.pending.len() ==> holds_fed_chunk(ps, size, order, t as int, k, #[trigger] r.0.pending[a])
            &&& forall|i: int| k <= i < n && #[trigger] fed(order, t as int, i) ==> r.0.pending.contains(ps[i])
            &&& ids_distinct(r.0.pending)
        }),
    decreases t,
{
    let ps = split_packets(data, size, session_id, stream_id, first_id);
    let n = chunk_count(data.len(), size);
    let len = data.len();
    let q = reordered(ps, order);
    if t == 0 {
        assert(q.take(0) =~= Seq::<PacketView>::empty());
        assert(order.take(0) =~= Seq::<int>::empty());
        assert(!fed(order, 0, 0));
        lemma_first_unfed(order, 0, 0, n);
        assert(data.take(0) =~= Seq::<u8>::empty());
        assert(chunk_start(len, size, 0) == 0) by {
            assert(0 * size == 0);
        }
    } else {
        let t0 = (t - 1) as nat;
        lemma_feed_any_order_prefix(data, size, session_id, stream_id, first_id, order, t0);
        let before = feed(initial_state(), q.take(t0 as int));
        let k0 = first_unfed(order, t0 as int, 0, n);
        lemma_first_unfed(order, t0 as int, 0, n);
        let j = order[t0 as int];
        assert(0 <= j < n);
        assert(q.take(t as int).drop_last() =~= q.take(t0 as int));
        assert(q.take(t as int).last() == ps[j]);
        assert(order.take(t as int) =~= order.take(t0 as int).push(j));
        assert forall|i: int| #[trigger] fed(order, t as int, i) == (fed(order, t0 as int, i) || i == j) by {
            if fed(order, t0 as int, i) {
                let w = choose|w: int| 0 <= w < order.take(t0 as int).len() && order.take(t0 as int)[w] == i;
                assert(order.take(t as int)[w] == i);
            }
            if i == j {
                assert(order.take(t as int)[t0 as int] == i);
            }
            if fed(order, t as int, i) && i != j {
                let w = choose|w: int| 0 <= w < order.take(t as int).len() && order.take(t as int)[w] == i;
                assert(w < t0);
                assert(order.take(t0 as int)[w] == i);
            }
        }
        assert(!fed(order, t0 as int, j)) by {
            if fed(order, t0 as int, j) {
                let w = choose|w: int| 0 <= w < order.take(t0 as int).len() && order.take(t0 as int)[w] == j;
                assert(order[w] == order[t0 as int]);
            }
        }
        assert(k0 <= j);
        lemma_split_packet(data, size, session_id, stream_id, first_id, j);
        let pj = ps[j];
        let pending = before.0.pending;
        // The new packet's chunk id is not pending yet.
        assert forall|a: int| 0 <= a < pending.len() implies pending[a].chunk_id != pj.chunk_id by {
            assert(holds_fed_chunk(ps, size, order, t0 as int, k0, pending[a]));
            let i = pending[a].offset as nat / size;
            lemma_split_packet(data, size, session_id, stream_id, first_id, i as int);
            assert(i != j);
            lemma_chunk_ids_distinct(first_id, i as int, j);
        }
        lemma_index_of_chunk(pending, pj.chunk_id);
        let pend2 = pending.push(pj);
        assert(store_insert(pending, pj) == pend2);
        assert forall|a: int| 0 <= a < pend2.len() implies holds_fed_chunk(ps, size, order, t as int, k0, #[trigger] pend2[a]) by {
            if a < pending.len() {
                assert(pend2[a] == pending[a]);
                assert(holds_fed_chunk(ps, size, order, t0 as int, k0, pending[a]));
                let i = pending[a].offset as nat / size;
                assert(fed(order, t as int, i as int));
            } else {
                assert(pend2[a] == pj);
                assert(fed(order, t as int, j));
            }
        }
        assert forall|i: int| k0 <= i < n && #[trigger] fed(order, t as int, i) implies pend2.contains(ps[i]) by {
            if i == j {
                assert(pend2[pending.len() as int] == pj);
            } else {
                assert(fed(order, t0 as int, i));
                assert(pending.contains(ps[i]));
                let w = choose|w: int| 0 <= w < pending.len() && pending[w] == ps[i];
                assert(pend2[w] == ps[i]);
            }
        }
        assert(ids_distinct(pend2)) by {
            assert forall|a: int, b: int|
                0 <= a < pend2.len() && 0 <= b < pend2.len() && a != b implies #[trigger] pend2[a].chunk_id
                    != #[trigger] pend2[b].chunk_id by {
                if a < pending.len() && b < pending.len() {
                    assert(pend2[a] == pending[a]);
                    assert(pend2[b] == pending[b]);
                } else if a < pending.len() {
                    assert(pend2[a] == pending[a]);
                } else if b < pending.len() {
                    assert(pend2[b] == pending[b]);
                }
            }
        }
        lemma_drain_chunks(data, size, session_id, stream_id, first_id, order, t as int, pend2, k0);
        assert forall|i: int| 0 <= i < k0 implies #[trigger] fed(order, t as int, i) by {
            assert(fed(order, t0 as int, i));
        }
        lemma_first_unfed_skip(order, t as int, 0, k0, n);
        let k = first_unfed(order, t as int, 0, n);
        lemma_first_unfed(order, t as int, k0, n);
        let d = drain_from(pend2, chunk_start(len, size, k0 as int) as u64);
        let s0 = chunk_start(len, size, k0 as int);
        let s1 = chunk_start(len, size, k as int);
        lemma_start_mono(len, size, k0 as int, k as int);
        assert(data.take(s0) + data.subrange(s0, s1) =~= data.take(s1));
        if d.0.len() == 0 {
            assert(k == k0) by {
                if k > k0 {
                    lemma_split_packet(data, size, session_id, stream_id, first_id, k0 as int);
                    lemma_start_mono(len, size, k0 as int + 1, k as int);
                }
            }
            assert(data.subrange(s0, s1) =~= Seq::<u8>::empty());
        }
        let step = add_packet_step(before.0, pj);
        assert(pj.checksum_ok());
        let r = feed(initial_state(), q.take(t as int));
        assert(r.0 == step.0);
    }
}

/// Handing over the last of any order of the packets completes the data, so
/// that step hands something out.
proof fn lemma_last_packet_hands_out(
    data: Seq<u8>,
    size: nat,
    session_id: u64,
    stream_id: u32,
    first_id: u32,
    order: Seq<int>,
)
    requires
        0 < size,
        size <= u32::MAX || data.len() <= u32::MAX,
        data.len() <= u64::MAX,
        chunk_count(data.len(), size) <= 0x1_0000_0000,
        is_permutation(order, chunk_count(data.len(), size)),
        data.len() > 0,
    ensures
        ({
            let q = reordered(split_packets(data, size, session_id, stream_id, first_id), order);
            add_packet_step(feed(initial_state(), q.drop_last()).0, q.last()).1 is Some
        }),
{
    let ps = split_packets(data, size, session_id, stream_id, first_id);
    let n = chunk_count(data.len(), size);
    let q = reordered(ps, order);
    let t = (n - 1) as nat;
    lemma_feed_any_order_prefix(data, size, session_id, stream_id, first_id, order, t);
    lemma_feed_any_order_prefix(data, size, session_id, stream_id, first_id, order, n);
    assert(q.take(t as int) =~= q.drop_last());
    assert(q.take(n as int) =~= q);
    assert(order.take(n as int) =~= order);
    let j = order[t as int];
    assert(!fed(order, t as int, j)) by {
        if fed(order, t as int, j) {
            let w = choose|w: int| 0 <= w < order.take(t as int).len() && order.take(t as int)[w] == j;
            assert(order[w] == order[t as int]);
        }
    }
    lemma_first_unfed(order, t as int, 0, n);
    let k = first_unfed(order, t as int, 0, n);
    assert(k <= j);
    lemma_chunk_bounds(data.len(), size, k);
    let before = feed(initial_state(), q.drop_last());
    assert(before.1 == data.take((k * size) as int));
    let k2 = first_unfed(order, n as int, 0, n);
    lemma_first_unfed(order, n as int, 0, n);
    if k2 < n {
        assert(order.contains(k2 as int));
        assert(fed(order, n as int, k2 as int));
    }
    lemma_chunk_end(data.len(), size);
    let step = add_packet_step(before.0, q.last());
    let all = feed(initial_state(), q);
    assert(all.1 == data.take(data.len() as int));
    if step.1 is None {
        assert(all.1 == before.1 + Seq::<u8>::empty());
        assert(all.1.len() == (k * size) as int);
    }
}

/// Splitting data into chunks and handing the chunk packets to a fresh
/// assembler in any order gives back exactly the data, and leaves the
/// assembler with nothing pending, expecting the offset just past the data;
/// for data that is not empty, handing over the last packet hands data out.
/// (Each chunk's length must fit the packet's 32-bit length field, the data's
/// length a 64-bit offset, and there must be at most 2^32 chunks, so that
/// no two share a chunk id.)
pub proof fn split_then_reassemble_any_order(
    data: Seq<u8>,
    size: nat,
    session_id: u64,
    stream_id: u32,
    first_id: u32,
    order: Seq<int>,
)
    requires
        0 < size,
        size <= u32::MAX || data.len() <= u32::MAX,
        data.len() <= u64::MAX,
        chunk_count(data.len(), size) <= 0x1_0000_0000,
        is_permutation(order, chunk_count(data.len(), size)),
    ensures
        feed(initial_state(), reordered(split_packets(data, size, session_id, stream_id, first_id), order)).1
            == data,
        feed(initial_state(), reordered(split_packets(data, size, session_id, stream_id, first_id), order)).0
            == (AssemblerState { pending: Seq::empty(), expected_offset: data.len() as u64 }),
        data.len() > 0 ==> ({
            let q = reordered(split_packets(data, size, session_id, stream_id, first_id), order);
            add_packet_step(feed(initial_state(), q.drop_last()).0, q.last()).1 is Some
        }),
{
    let ps = split_packets(data, size, session_id, stream_id, first_id);
    let n = chunk_count(data.len(), size);
    let q = reordered(ps, order);
    if data.len() > 0 {
        lemma_last_packet_hands_out(data, size, session_id, stream_id, first_id, order);
    }
    lemma_feed_any_order_prefix(data, size, session_id, stream_id, first_id, order, n);
    assert(q.take(n as int) =~= q);
    assert(order.take(n as int) =~= order);
    lemma_first_unfed(order, n as int, 0, n);
    let k = first_unfed(order, n as int, 0, n);
    if k < n {
        assert(order.contains(k as int));
        assert(fed(order, n as int, k as int));
    }
    assert(k == n);
    lemma_chunk_end(data.len(), size);
    assert(data.take(data.len() as int) =~= data);
    let r = feed(initial_state(), q);
    if r.0.pending.len() > 0 {
        assert(holds_fed_chunk(ps, size, order, n as int, n, r.0.pending[0]));
    }
    assert(r.0.pending =~= Seq::<PacketView>::empty());
}

} // verus!
