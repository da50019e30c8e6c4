//! The QUIC connection pool: its settings, and the bookkeeping of idle
//! connections per remote address. `C` is the connection type; the pool
//! keeps connections without looking into them.
use vstd::prelude::*;
use crate::addr::SockAddr;

verus! {

/// `std::time::Duration::from_secs`: a duration of `secs` seconds.
/// (Durations are opaque here; nothing is stated of the value.)
#[verifier::external_body]
fn duration_from_secs(secs: u64) -> std::time::Duration {
    std::time::Duration::from_secs(secs)
}

/// Settings of the connection pool.
#[derive(Debug, Clone, Copy)]
pub struct PoolConfig {
    /// The most idle connections kept per remote address.
    pub max_idle_per_node: usize,
    /// How long an idle connection is kept before cleanup removes it.
    pub idle_timeout: std::time::Duration,
    /// How often cleanup runs.
    pub cleanup_interval: std::time::Duration,
    /// Handshake timeout for new connections.
    pub connect_timeout: std::time::Duration,
}

impl PoolConfig {
    /// Four idle connections per node, five minutes idle timeout, cleanup
    /// every minute, ten seconds to connect.
    pub fn default() -> (c: PoolConfig)
        ensures
            c.max_idle_per_node == 4,
    {
        PoolConfig {
            max_idle_per_node: 4,
            idle_timeout: duration_from_secs(300),
            cleanup_interval: duration_from_secs(60),
            connect_timeout: duration_from_secs(10),
        }
    }
}

/// A pooled connection with its use record.
pub struct PooledConnection<C> {
    pub connection: C,
    /// When it was last used (nanoseconds on the pool's clock).
    pub last_used: u128,
    /// How many streams it has opened.
    pub use_count: u64,
}

impl<C> PooledConnection<C> {
    /// A fresh connection, last used at `now`, never used for a stream.
    pub fn new(connection: C, now: u128) -> (pc: PooledConnection<C>)
        ensures
            pc.connection == connection,
            pc.last_used == now,
            pc.use_count == 0,
    {
        PooledConnection { connection, last_used: now, use_count: 0 }
    }

    /// Records that a stream was opened on it at `now`.
    pub fn record_use(&mut self, now: u128)
        requires
            old(self).use_count < u64::MAX,
        ensures
            final(self).connection == old(self).connection,
            final(self).last_used == now,
            final(self).use_count == old(self).use_count + 1,
    {
        self.last_used = now;
        self.use_count = self.use_count + 1;
    }
}

/// The idle connections kept for `addr`, oldest first (none when the
/// address has no entry).
pub open spec fn idle_for<C>(pools: Seq<(SockAddr, Seq<PooledConnection<C>>)>, addr: SockAddr) -> Seq<PooledConnection<C>>
    decreases pools.len(),
{
    if pools.len() == 0 {
        Seq::empty()
    } else if pools.last().0 == addr {
        pools.last().1
    } else {
        idle_for(pools.drop_last(), addr)
    }
}

/// Whether a connection survives cleanup at `now`: alive, and used less
/// than `idle_timeout` ago.
pub open spec fn survives<C>(pc: PooledConnection<C>, alive: bool, now: u128, idle_timeout: u128) -> bool {
    alive && (if now >= pc.last_used { now - pc.last_used } else { 0 }) < idle_timeout
}

/// Whether `after` is what cleanup leaves of `before` at `now`: each
/// connection, in order, is kept when `alive` answered `true` for it and it
/// was used less than `idle_timeout` ago, and dropped otherwise.
pub open spec fn cleaned<C, F: Fn(&C) -> bool>(
    before: Seq<PooledConnection<C>>,
    after: Seq<PooledConnection<C>>,
    alive: F,
    now: u128,
    idle_timeout: u128,
) -> bool
    decreases before.len(),
{
    if before.len() == 0 {
        after.len() == 0
    } else {
        let x = before.last();
        ||| {
            &&& after.len() > 0
            &&& after.last() == x
            &&& call_ensures(alive, (&x.connection,), true)
            &&& survives(x, true, now, idle_timeout)
            &&& cleaned(before.drop_last(), after.drop_last(), alive, now, idle_timeout)
        }
        ||| {
            &&& (call_ensures(alive, (&x.connection,), false) || !survives(x, true, now, idle_timeout))
            &&& cleaned(before.drop_last(), after, alive, now, idle_timeout)
        }
    }
}

/// The entries of a list of addresses with their connection vectors.
pub open spec fn entries_view<C>(v: Seq<(SockAddr, Vec<PooledConnection<C>>)>) -> Seq<(SockAddr, Seq<PooledConnection<C>>)> {
    v.map_values(|e: (SockAddr, Vec<PooledConnection<C>>)| (e.0, e.1@))
}

/// Idle QUIC connections, kept per remote address.
pub struct ConnectionPool<C> {
    pools: Vec<(SockAddr, Vec<PooledConnection<C>>)>,
    max_idle_per_node: usize,
}

impl<C> ConnectionPool<C> {
    /// The entries: an address and its idle connections, oldest first.
    pub closed spec fn entries(&self) -> Seq<(SockAddr, Seq<PooledConnection<C>>)> {
        entries_view(self.pools@)
    }

    /// The idle connections kept for `addr`.
    pub open spec fn idle(&self, addr: SockAddr) -> Seq<PooledConnection<C>> {
        idle_for(self.entries(), addr)
    }

    /// The most idle connections kept per address for new connections.
    pub closed spec fn limit(&self) -> usize {
        self.max_idle_per_node
    }

    /// Whether each address has one entry.
    pub closed spec fn well_formed(&self) -> bool {
        forall|i: int, j: int|
            0 <= i < self.entries().len() && 0 <= j < self.entries().len() && i != j
                ==> #[trigger] self.entries()[i].0 != #[trigger] self.entries()[j].0
    }

    /// An empty pool keeping at most `config.max_idle_per_node` new
    /// connections per address.
    pub fn new(config: &PoolConfig) -> (p: ConnectionPool<C>)
        ensures
            p.well_formed(),
            p.limit() == config.max_idle_per_node,
            forall|a: SockAddr| p.idle(a) == Seq::<PooledConnection<C>>::empty(),
    {
        let p = ConnectionPool { pools: Vec::new(), max_idle_per_node: config.max_idle_per_node };
        assert(p.entries() =~= Seq::<(SockAddr, Seq<PooledConnection<C>>)>::empty());
        p
    }

    fn find(&self, addr: SockAddr) -> (k: usize)
        requires
            self.well_formed(),
        ensures
            k <= self.pools@.len(),
            k < self.pools@.len() ==> self.pools@[k as int].0 == addr && self.idle(addr)
                == self.pools@[k as int].1@,
            k == self.pools@.len() ==> self.idle(addr) == Seq::<PooledConnection<C>>::empty()
                && forall|j: int| 0 <= j < self.pools@.len() ==> self.pools@[j].0 != addr,
    {
        let mut k: usize = 0;
        while k < self.pools.len() && self.pools[k].0 != addr
            invariant
                k <= self.pools@.len(),
                forall|j: int| 0 <= j < k ==> self.pools@[j].0 != addr,
            decreases self.pools@.len() - k,
        {
            k = k + 1;
        }
        proof {
            lemma_idle_for(self.entries(), addr, k as int);
        }
        k
    }

    /// Takes the most recently kept idle connection for `addr`, if any.
    pub fn take_idle(&mut self, addr: SockAddr) -> (pc: Option<PooledConnection<C>>)
        requires
            old(self).well_formed(),
        ensures
            final(self).well_formed(),
            final(self).limit() == old(self).limit(),
            old(self).idle(addr).len() == 0 ==> pc is None && final(self).idle(addr) == old(self).idle(addr),
            old(self).idle(addr).len() > 0 ==> pc == Some(old(self).idle(addr).last())
                && final(self).idle(addr) == old(self).idle(addr).drop_last(),
            forall|a: SockAddr| a != addr ==> final(self).idle(a) == old(self).idle(a),
    {
        let k = self.find(addr);
        if k == self.pools.len() {
            return None;
        }
        let (a, mut conns) = self.pools.remove(k);
        let ghost before = old(self).entries();
        let pc = conns.pop();
        self.pools.insert(k, (a, conns));
        proof {
            lemma_replace_entry(before, k as int, addr, self.entries());
        }
        pc
    }

    fn push_conn(&mut self, addr: SockAddr, pc: PooledConnection<C>)
        requires
            old(self).well_formed(),
        ensures
            final(self).well_formed(),
            final(self).limit() == old(self).limit(),
            final(self).idle(addr) == old(self).idle(addr).push(pc),
            forall|a: SockAddr| a != addr ==> final(self).idle(a) == old(self).idle(a),
    {
        let k = self.find(addr);
        let ghost before = old(self).entries();
        if k == self.pools.len() {
            let mut conns: Vec<PooledConnection<C>> = Vec::new();
            conns.push(pc);
            self.pools.push((addr, conns));
            proof {
                lemma_push_entry(before, addr, self.entries());
            }
        } else {
            let (a, mut conns) = self.pools.remove(k);
            conns.push(pc);
            self.pools.insert(k, (a, conns));
            proof {
                lemma_replace_entry(before, k as int, addr, self.entries());
            }
        }
    }

    /// Keeps a connection that was taken and used again.
    pub fn put_back(&mut self, addr: SockAddr, pc: PooledConnection<C>)
        requires
            old(self).well_formed(),
        ensures
            final(self).well_formed(),
            final(self).limit() == old(self).limit(),
            final(self).idle(addr) == old(self).idle(addr).push(pc),
            forall|a: SockAddr| a != addr ==> final(self).idle(a) == old(self).idle(a),
    {
        self.push_conn(addr, pc);
    }

    /// Keeps a newly made connection if fewer than the limit are idle for
    /// `addr`; says whether it was kept (otherwise it is dropped). The
    /// address gets an entry either way.
    pub fn keep_new(&mut self, addr: SockAddr, pc: PooledConnection<C>) -> (kept: bool)
        requires
            old(self).well_formed(),
        ensures
            final(self).well_formed(),
            final(self).limit() == old(self).limit(),
            kept == (old(self).idle(addr).len() < old(self).limit()),
            kept ==> final(self).idle(addr) == old(self).idle(addr).push(pc),
            !kept ==> final(self).idle(addr) == old(self).idle(addr),
            forall|a: SockAddr| a != addr ==> final(self).idle(a) == old(self).idle(a),
            exists|i: int| 0 <= i < final(self).entries().len() && #[trigger] final(self).entries()[i].0 == addr,
    {
        let k = self.find(addr);
        if k == self.pools.len() {
            let ghost before = self.entries();
            self.pools.push((addr, Vec::new()));
            proof {
                lemma_push_entry(before, addr, self.entries());
                assert(self.entries()[k as int].1 =~= Seq::<PooledConnection<C>>::empty());
            }
        }
        assert(self.pools@[k as int].0 == addr);
        let n = self.pools[k].1.len();
        proof {
            lemma_idle_for(self.entries(), addr, k as int);
        }
        if n < self.max_idle_per_node {
            self.push_conn(addr, pc);
            assert(self.idle(addr).len() > 0);
            proof {
                lemma_entry_present(self.entries(), addr);
            }
            true
        } else {
            assert(self.entries()[k as int].0 == addr);
            false
        }
    }

    /// Keeps a connection made ahead of use, whatever the limit.
    pub fn add_warm(&mut self, addr: SockAddr, pc: PooledConnection<C>)
        requires
            old(self).well_formed(),
        ensures
            final(self).well_formed(),
            final(self).limit() == old(self).limit(),
            final(self).idle(addr) == old(self).idle(addr).push(pc),
            forall|a: SockAddr| a != addr ==> final(self).idle(a) == old(self).idle(a),
    {
        self.push_conn(addr, pc);
    }

    /// Drops every connection kept for `addr`; gives how many there were.
    pub fn remove_all(&mut self, addr: &SockAddr) -> (n: Option<usize>)
        requires
            old(self).well_formed(),
        ensures
            final(self).well_formed(),
            final(self).limit() == old(self).limit(),
            final(self).idle(*addr) == Seq::<PooledConnection<C>>::empty(),
            forall|a: SockAddr| a != *addr ==> final(self).idle(a) == old(self).idle(a),
            n matches Some(c) ==> c == old(self).idle(*addr).len(),
    {
        let k = self.find(*addr);
        if k == self.pools.len() {
            return None;
        }
        let ghost before = old(self).entries();
        let ghost vec_before = self.pools@;
        let (_a, conns) = self.pools.remove(k);
        proof {
            assert(self.entries() =~= before.remove(k as int)) by {
                assert(self.pools@ =~= vec_before.remove(k as int));
            }
            lemma_remove_entry(before, k as int, *addr, self.entries());
        }
        Some(conns.len())
    }

    /// Drops the connections that are closed (`alive` answers `false`) or
    /// were last used `idle_timeout` or more before `now`, and the addresses
    /// left with none.
    pub fn cleanup<F: Fn(&C) -> bool>(&mut self, now: u128, idle_timeout: u128, alive: F)
        requires
            old(self).well_formed(),
            forall|c: &C| #[trigger] alive.requires((c,)),
        ensures
            final(self).well_formed(),
            final(self).limit() == old(self).limit(),
            forall|a: SockAddr| cleaned(#[trigger] old(self).idle(a), final(self).idle(a), alive, now, idle_timeout),
            forall|i: int| 0 <= i < final(self).entries().len() ==> #[trigger] final(self).entries()[i].1.len() > 0,
    {
        let ghost before = self.entries();
        let mut rest: Vec<(SockAddr, Vec<PooledConnection<C>>)> = Vec::new();
        std::mem::swap(&mut rest, &mut self.pools);
        let mut kept: Vec<(SockAddr, Vec<PooledConnection<C>>)> = Vec::new();
        let ghost mut i: int = 0;
        assert(entries_view(rest@) =~= before.skip(0));
        while rest.len() > 0
            invariant
                0 <= i <= before.len(),
                entries_view(rest@) =~= before.skip(i),
                forall|x: int, y: int|
                    0 <= x < before.len() && 0 <= y < before.len() && x != y ==> #[trigger] before[x].0
                        != #[trigger] before[y].0,
                forall|x: int, y: int|
                    0 <= x < kept@.len() && 0 <= y < kept@.len() && x != y ==> #[trigger] kept@[x].0
                        != #[trigger] kept@[y].0,
                forall|x: int| 0 <= x < kept@.len() ==> exists|y: int| 0 <= y < i && #[trigger] before[y].0 == #[trigger] kept@[x].0,
                forall|x: int| 0 <= x < kept@.len() ==> #[trigger] kept@[x].1@.len() > 0,
                forall|a: SockAddr| cleaned(#[trigger] idle_for(before.take(i), a), idle_for(entries_view(kept@), a), alive, now, idle_timeout),
                forall|c: &C| #[trigger] alive.requires((c,)),
            decreases rest@.len(),
        {
            let ghost pre = kept@;
            let ghost rest_before = rest@;
            assert(entries_view(rest_before).len() == rest_before.len());
            assert(i < before.len());
            let (addr, conns) = rest.remove(0);
            assert(before[i].0 == addr && before[i].1 == conns@) by {
                assert(entries_view(rest_before)[0] == before.skip(i)[0]);
            }
            assert(entries_view(rest@) =~= before.skip(i + 1)) by {
                assert(rest@ =~= rest_before.skip(1));
                assert forall|x: int| 0 <= x < rest@.len() implies #[trigger] entries_view(rest@)[x] == before.skip(i + 1)[x] by {
                    assert(entries_view(rest_before)[x + 1] == before.skip(i)[x + 1]);
                }
            }
            let ghost orig = conns@;
            let survivors = filter_conns(conns, now, idle_timeout, &alive);
            proof {
                assert(before.take(i + 1).drop_last() =~= before.take(i));
                assert forall|x: int| 0 <= x < kept@.len() implies kept@[x].0 != addr by {
                    let y = choose|y: int| 0 <= y < i && #[trigger] before[y].0 == kept@[x].0;
                    assert(before[y].0 != before[i].0);
                }
                lemma_idle_absent(before.take(i), addr);
                lemma_idle_absent(entries_view(kept@), addr);
            }
            if survivors.len() > 0 {
                kept.push((addr, survivors));
                proof {
                    assert(entries_view(kept@).drop_last() =~= entries_view(pre));
                    lemma_push_entry(entries_view(pre), addr, entries_view(kept@));
                    assert forall|x: int, y: int|
                        0 <= x < kept@.len() && 0 <= y < kept@.len() && x != y implies #[trigger] kept@[x].0
                            != #[trigger] kept@[y].0 by {
                        assert(entries_view(kept@)[x].0 == kept@[x].0);
                        assert(entries_view(kept@)[y].0 == kept@[y].0);
                    }
                    assert forall|x: int| 0 <= x < kept@.len() implies exists|y: int| 0 <= y < i + 1 && #[trigger] before[y].0 == #[trigger] kept@[x].0 by {
                        if x < pre.len() {
                            let y = choose|y: int| 0 <= y < i && #[trigger] before[y].0 == pre[x].0;
                            assert(before[y].0 == kept@[x].0);
                        } else {
                            assert(before[i].0 == kept@[x].0);
                        }
                    }
                }
            } else {
                proof {
                    assert(forall|x: int| 0 <= x < kept@.len() ==> exists|y: int| 0 <= y < i + 1 && #[trigger] before[y].0 == #[trigger] kept@[x].0) by {
                        assert forall|x: int| 0 <= x < kept@.len() implies exists|y: int| 0 <= y < i + 1 && #[trigger] before[y].0 == #[trigger] kept@[x].0 by {
                            let y = choose|y: int| 0 <= y < i && #[trigger] before[y].0 == kept@[x].0;
                            assert(before[y].0 == kept@[x].0);
                        }
                    }
                }
            }
            proof {
                assert forall|a: SockAddr| cleaned(#[trigger] idle_for(before.take(i + 1), a), idle_for(entries_view(kept@), a), alive, now, idle_timeout) by {
                    if a != addr {
                        assert(idle_for(before.take(i + 1), a) == idle_for(before.take(i), a));
                        assert(idle_for(entries_view(kept@), a) == idle_for(entries_view(pre), a));
                    } else {
                        assert(idle_for(before.take(i + 1), a) == orig);
                        if survivors@.len() == 0 {
                            assert(kept@ == pre);
                            assert(survivors@ =~= idle_for(entries_view(kept@), a));
                        } else {
                            assert(idle_for(entries_view(kept@), a) == survivors@);
                        }
                    }
                }
                i = i + 1;
            }
        }
        proof {
            assert(before.take(i) =~= before);
        }
        self.pools = kept;
    }

    /// The number of idle connections per address, in entry order.
    pub fn stats(&self) -> (r: Vec<(SockAddr, usize)>)
        ensures
            r@.len() == self.entries().len(),
            forall|i: int|
                0 <= i < r@.len() ==> #[trigger] r@[i] == (self.entries()[i].0, self.entries()[i].1.len() as usize),
    {
        let mut r: Vec<(SockAddr, usize)> = Vec::new();
        let mut i: usize = 0;
        while i < self.pools.len()
            invariant
                i <= self.pools@.len(),
                r@.len() == i,
                forall|j: int|
                    0 <= j < i ==> #[trigger] r@[j] == (self.entries()[j].0, self.entries()[j].1.len() as usize),
            decreases self.pools@.len() - i,
        {
            r.push((self.pools[i].0, self.pools[i].1.len()));
            i = i + 1;
        }
        r
    }
}

/// Keeps, in order, the connections that `alive` answers `true` for and
/// that were used less than `idle_timeout` before `now`.
fn filter_conns<C, F: Fn(&C) -> bool>(
    conns: Vec<PooledConnection<C>>,
    now: u128,
    idle_timeout: u128,
    alive: &F,
) -> (r: Vec<PooledConnection<C>>)
    requires
        forall|c: &C| #[trigger] alive.requires((c,)),
    ensures
        cleaned(conns@, r@, *alive, now, idle_timeout),
{
    let ghost orig = conns@;
    let mut rest = conns;
    let mut r: Vec<PooledConnection<C>> = Vec::new();
    let ghost mut j: int = 0;
    assert(rest@ =~= orig.skip(0));
    while rest.len() > 0
        invariant
            0 <= j <= orig.len(),
            rest@ =~= orig.skip(j),
            cleaned(orig.take(j), r@, *alive, now, idle_timeout),
            forall|c: &C| #[trigger] alive.requires((c,)),
        decreases rest@.len(),
    {
        let pc = rest.remove(0);
        assert(pc == orig[j]) by {
            assert(rest@ =~= orig.skip(j + 1));
        }
        let is_alive = alive(&pc.connection);
        let idle = if now >= pc.last_used { now - pc.last_used } else { 0 };
        let ghost pre = r@;
        proof {
            assert(orig.take(j + 1).drop_last() =~= orig.take(j));
            assert(orig.take(j + 1).last() == pc);
        }
        if is_alive && idle < idle_timeout {
            r.push(pc);
            proof {
                assert(r@.drop_last() =~= pre);
            }
        }
        proof {
            j = j + 1;
        }
    }
    proof {
        assert(orig.take(j) =~= orig);
    }
    r
}

proof fn lemma_entry_present<C>(pools: Seq<(SockAddr, Seq<PooledConnection<C>>)>, addr: SockAddr)
    requires
        idle_for(pools, addr).len() > 0,
    ensures
        exists|i: int| 0 <= i < pools.len() && #[trigger] pools[i].0 == addr,
    decreases pools.len(),
{
    if pools.last().0 == addr {
        assert(pools[pools.len() - 1].0 == addr);
    } else {
        lemma_entry_present(pools.drop_last(), addr);
        let i = choose|i: int| 0 <= i < pools.drop_last().len() && #[trigger] pools.drop_last()[i].0 == addr;
        assert(pools[i].0 == addr);
    }
}

proof fn lemma_idle_for<C>(pools: Seq<(SockAddr, Seq<PooledConnection<C>>)>, addr: SockAddr, k: int)
    requires
        forall|i: int, j: int|
            0 <= i < pools.len() && 0 <= j < pools.len() && i != j ==> #[trigger] pools[i].0
                != #[trigger] pools[j].0,
        0 <= k <= pools.len(),
        forall|j: int| 0 <= j < k ==> pools[j].0 != addr,
        k < pools.len() ==> pools[k].0 == addr,
    ensures
        k < pools.len() ==> idle_for(pools, addr) == pools[k].1,
        k == pools.len() ==> idle_for(pools, addr) == Seq::<PooledConnection<C>>::empty(),
    decreases pools.len(),
{
    if pools.len() > 0 {
        let p = pools.drop_last();
        assert(forall|j: int| 0 <= j < p.len() ==> p[j] == pools[j]);
        if k < pools.len() - 1 {
            assert(pools.last().0 != addr) by {
                assert(pools[pools.len() - 1].0 != pools[k].0);
            }
            lemma_idle_for(p, addr, k);
        } else if k == pools.len() {
            lemma_idle_absent(pools, addr);
        }
    }
}

proof fn lemma_idle_for_update<C>(
    pools: Seq<(SockAddr, Seq<PooledConnection<C>>)>,
    k: int,
    addr: SockAddr,
    conns: Seq<PooledConnection<C>>,
    other: SockAddr,
)
    requires
        0 <= k < pools.len(),
        pools[k].0 == addr,
        other != addr,
    ensures
        idle_for(pools.update(k, (addr, conns)), other) == idle_for(pools, other),
    decreases pools.len(),
{
    let u = pools.update(k, (addr, conns));
    if k < pools.len() - 1 {
        assert(u.drop_last() =~= pools.drop_last().update(k, (addr, conns)));
        lemma_idle_for_update(pools.drop_last(), k, addr, conns, other);
    } else {
        assert(u.drop_last() =~= pools.drop_last());
    }
}

proof fn lemma_idle_for_remove<C>(
    pools: Seq<(SockAddr, Seq<PooledConnection<C>>)>,
    k: int,
    addr: SockAddr,
    other: SockAddr,
)
    requires
        0 <= k < pools.len(),
        pools[k].0 == addr,
        other != addr,
    ensures
        idle_for(pools.remove(k), other) == idle_for(pools, other),
    decreases pools.len(),
{
    let u = pools.remove(k);
    if k < pools.len() - 1 {
        assert(u.drop_last() =~= pools.drop_last().remove(k));
        assert(u.last() == pools.last());
        lemma_idle_for_remove(pools.drop_last(), k, addr, other);
    } else {
        assert(u =~= pools.drop_last());
    }
}

proof fn lemma_idle_absent<C>(pools: Seq<(SockAddr, Seq<PooledConnection<C>>)>, addr: SockAddr)
    requires
        forall|j: int| 0 <= j < pools.len() ==> pools[j].0 != addr,
    ensures
        idle_for(pools, addr) == Seq::<PooledConnection<C>>::empty(),
    decreases pools.len(),
{
    if pools.len() > 0 {
        let p = pools.drop_last();
        assert(forall|j: int| 0 <= j < p.len() ==> p[j] == pools[j]);
        lemma_idle_absent(p, addr);
    }
}

proof fn lemma_replace_entry<C>(
    before: Seq<(SockAddr, Seq<PooledConnection<C>>)>,
    k: int,
    addr: SockAddr,
    after: Seq<(SockAddr, Seq<PooledConnection<C>>)>,
)
    requires
        0 <= k < before.len(),
        before[k].0 == addr,
        after.len() == before.len(),
        after[k].0 == addr,
        forall|j: int| 0 <= j < before.len() && j != k ==> after[j] == before[j],
        forall|i: int, j: int|
            0 <= i < before.len() && 0 <= j < before.len() && i != j ==> #[trigger] before[i].0
                != #[trigger] before[j].0,
    ensures
        after == before.update(k, (addr, after[k].1)),
        forall|i: int, j: int|
            0 <= i < after.len() && 0 <= j < after.len() && i != j ==> #[trigger] after[i].0
                != #[trigger] after[j].0,
        idle_for(after, addr) == after[k].1,
        forall|a: SockAddr| a != addr ==> idle_for(after, a) == idle_for(before, a),
{
    assert(after =~= before.update(k, (addr, after[k].1)));
    assert forall|i: int, j: int|
        0 <= i < after.len() && 0 <= j < after.len() && i != j implies #[trigger] after[i].0
            != #[trigger] after[j].0 by {
        assert(after[i].0 == before[i].0);
        assert(after[j].0 == before[j].0);
    }
    lemma_idle_for(after, addr, k);
    assert forall|a: SockAddr| a != addr implies idle_for(after, a) == idle_for(before, a) by {
        lemma_idle_for_update(before, k, addr, after[k].1, a);
    }
}

proof fn lemma_push_entry<C>(
    before: Seq<(SockAddr, Seq<PooledConnection<C>>)>,
    addr: SockAddr,
    after: Seq<(SockAddr, Seq<PooledConnection<C>>)>,
)
    requires
        forall|j: int| 0 <= j < before.len() ==> before[j].0 != addr,
        after.len() == before.len() + 1,
        after.last().0 == addr,
        forall|j: int| 0 <= j < before.len() ==> after[j] == before[j],
        forall|i: int, j: int|
            0 <= i < before.len() && 0 <= j < before.len() && i != j ==> #[trigger] before[i].0
                != #[trigger] before[j].0,
    ensures
        forall|i: int, j: int|
            0 <= i < after.len() && 0 <= j < after.len() && i != j ==> #[trigger] after[i].0
                != #[trigger] after[j].0,
        idle_for(after, addr) == after.last().1,
        idle_for(before, addr) == Seq::<PooledConnection<C>>::empty(),
        forall|a: SockAddr| a != addr ==> idle_for(after, a) == idle_for(before, a),
{
    assert(after.drop_last() =~= before);
    lemma_idle_absent(before, addr);
}

proof fn lemma_remove_entry<C>(
    before: Seq<(SockAddr, Seq<PooledConnection<C>>)>,
    k: int,
    addr: SockAddr,
    after: Seq<(SockAddr, Seq<PooledConnection<C>>)>,
)
    requires
        0 <= k < before.len(),
        before[k].0 == addr,
        after == before.remove(k),
        forall|i: int, j: int|
            0 <= i < before.len() && 0 <= j < before.len() && i != j ==> #[trigger] before[i].0
                != #[trigger] before[j].0,
    ensures
        forall|i: int, j: int|
            0 <= i < after.len() && 0 <= j < after.len() && i != j ==> #[trigger] after[i].0
                != #[trigger] after[j].0,
        idle_for(after, addr) == Seq::<PooledConnection<C>>::empty(),
        forall|a: SockAddr| a != addr ==> idle_for(after, a) == idle_for(before, a),
{
    assert forall|i: int, j: int|
        0 <= i < after.len() && 0 <= j < after.len() && i != j implies #[trigger] after[i].0
            != #[trigger] after[j].0 by {
        let i2 = if i < k { i } else { i + 1 };
        let j2 = if j < k { j } else { j + 1 };
        assert(after[i] == before[i2]);
        assert(after[j] == before[j2]);
    }
    assert forall|j: int| 0 <= j < after.len() implies after[j].0 != addr by {
        let j2 = if j < k { j } else { j + 1 };
        assert(after[j] == before[j2]);
    }
    lemma_idle_absent(after, addr);
    assert forall|a: SockAddr| a != addr implies idle_for(after, a) == idle_for(before, a) by {
        lemma_idle_for_remove(before, k, addr, a);
    }
}

} // verus!
