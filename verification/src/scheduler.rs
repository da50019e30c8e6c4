//! Choosing the node to send through.
//!
//! Each node carries a rank that orders nodes by preference (the higher the
//! better), and metrics of the caller's choosing that the scheduler keeps
//! but does not read.
use vstd::prelude::*;
use crate::addr::SockAddr;
use crate::session::NodeStatus;

verus! {

/// A node known to the scheduler.
pub struct NodeEntry<M> {
    pub address: SockAddr,
    pub status: NodeStatus,
    pub rank: u64,
    pub metrics: M,
}

/// Index of the entry for `addr`, or -1.
pub open spec fn entry_index<M>(nodes: Seq<NodeEntry<M>>, addr: SockAddr) -> int
    decreases nodes.len(),
{
    if nodes.len() == 0 {
        -1
    } else if nodes.last().address == addr {
        nodes.len() - 1
    } else {
        entry_index(nodes.drop_last(), addr)
    }
}

/// Index of the best node: the first online node of the highest rank among
/// online nodes, or -1 when none is online.
pub open spec fn best_index<M>(nodes: Seq<NodeEntry<M>>) -> int
    decreases nodes.len(),
{
    if nodes.len() == 0 {
        -1
    } else {
        let b = best_index(nodes.drop_last());
        if nodes.last().status == NodeStatus::Online && (b < 0 || nodes.last().rank > nodes[b].rank) {
            nodes.len() - 1
        } else {
            b
        }
    }
}

/// The online nodes, in order.
pub open spec fn online_nodes<M>(nodes: Seq<NodeEntry<M>>) -> Seq<NodeEntry<M>>
    decreases nodes.len(),
{
    if nodes.len() == 0 {
        Seq::empty()
    } else if nodes.last().status == NodeStatus::Online {
        online_nodes(nodes.drop_last()).push(nodes.last())
    } else {
        online_nodes(nodes.drop_last())
    }
}

/// Whether each address appears at most once.
pub open spec fn addresses_distinct<M>(nodes: Seq<NodeEntry<M>>) -> bool {
    forall|i: int, j: int|
        0 <= i < nodes.len() && 0 <= j < nodes.len() && i != j ==> #[trigger] nodes[i].address
            != #[trigger] nodes[j].address
}

/// The nodes after `add_node(e)`: `e` replaces the entry with its address,
/// or joins the end.
pub open spec fn nodes_with<M>(nodes: Seq<NodeEntry<M>>, e: NodeEntry<M>) -> Seq<NodeEntry<M>> {
    let k = entry_index(nodes, e.address);
    if k >= 0 {
        nodes.update(k, e)
    } else {
        nodes.push(e)
    }
}

/// The nodes after `remove_node(addr)`.
pub open spec fn nodes_without<M>(nodes: Seq<NodeEntry<M>>, addr: SockAddr) -> Seq<NodeEntry<M>> {
    let k = entry_index(nodes, addr);
    if k >= 0 {
        nodes.remove(k)
    } else {
        nodes
    }
}

proof fn lemma_entry_index<M>(nodes: Seq<NodeEntry<M>>, addr: SockAddr)
    ensures
        -1 <= entry_index(nodes, addr) < nodes.len(),
        entry_index(nodes, addr) >= 0 ==> nodes[entry_index(nodes, addr)].address == addr,
        entry_index(nodes, addr) < 0 ==> forall|j: int| 0 <= j < nodes.len() ==> nodes[j].address != addr,
    decreases nodes.len(),
{
    if nodes.len() > 0 {
        let p = nodes.drop_last();
        lemma_entry_index(p, addr);
        assert(forall|j: int| 0 <= j < p.len() ==> p[j] == nodes[j]);
    }
}

proof fn lemma_entry_index_unique<M>(nodes: Seq<NodeEntry<M>>, addr: SockAddr, k: int)
    requires
        addresses_distinct(nodes),
        0 <= k < nodes.len(),
        nodes[k].address == addr,
    ensures
        entry_index(nodes, addr) == k,
{
    lemma_entry_index(nodes, addr);
}

/// The best node is online and no online node ranks higher; there is none
/// exactly when no node is online.
pub proof fn best_node_is_best<M>(nodes: Seq<NodeEntry<M>>)
    ensures
        -1 <= best_index(nodes) < nodes.len(),
        best_index(nodes) >= 0 ==> nodes[best_index(nodes)].status == NodeStatus::Online,
        best_index(nodes) >= 0 ==> forall|j: int|
            0 <= j < nodes.len() && nodes[j].status == NodeStatus::Online ==> nodes[j].rank
                <= nodes[best_index(nodes)].rank,
        best_index(nodes) < 0 <==> forall|j: int|
            0 <= j < nodes.len() ==> nodes[j].status != NodeStatus::Online,
    decreases nodes.len(),
{
    if nodes.len() > 0 {
        let p = nodes.drop_last();
        best_node_is_best(p);
        assert(forall|j: int| 0 <= j < p.len() ==> p[j] == nodes[j]);
    }
}

/// Keeps the known nodes, one entry per address.
pub struct Scheduler<M> {
    nodes: Vec<NodeEntry<M>>,
}

impl<M> Scheduler<M> {
    /// The entries, in the order they were added.
    pub closed spec fn entries(&self) -> Seq<NodeEntry<M>> {
        self.nodes@
    }

    /// Whether each address has one entry.
    pub open spec fn well_formed(&self) -> bool {
        addresses_distinct(self.entries())
    }

    /// No nodes.
    pub fn new() -> (s: Scheduler<M>)
        ensures
            s.entries() == Seq::<NodeEntry<M>>::empty(),
            s.well_formed(),
    {
        Scheduler { nodes: Vec::new() }
    }

    fn find(&self, addr: SockAddr) -> (k: usize)
        requires
            self.well_formed(),
        ensures
            k <= self.entries().len(),
            k < self.entries().len() ==> entry_index(self.entries(), addr) == k,
            k == self.entries().len() ==> entry_index(self.entries(), addr) == -1,
    {
        let mut k: usize = 0;
        while k < self.nodes.len() && self.nodes[k].address != addr
            invariant
                k <= self.nodes@.len(),
                forall|j: int| 0 <= j < k ==> self.nodes@[j].address != addr,
            decreases self.nodes@.len() - k,
        {
            k = k + 1;
        }
        proof {
            lemma_entry_index(self.entries(), addr);
            if k < self.nodes.len() {
                lemma_entry_index_unique(self.entries(), addr, k as int);
            }
        }
        k
    }

    /// Adds a node, replacing the entry with the same address.
    pub fn add_node(&mut self, node: NodeEntry<M>)
        requires
            old(self).well_formed(),
        ensures
            final(self).well_formed(),
            final(self).entries() == nodes_with(old(self).entries(), node),
    {
        let k = self.find(node.address);
        let ghost before = self.entries();
        let ghost e = node;
        if k < self.nodes.len() {
            self.nodes.set(k, node);
            proof {
                lemma_entry_index(before, e.address);
                let s = self.entries();
                assert(s =~= before.update(k as int, e));
                assert forall|i: int, j: int|
                    0 <= i < s.len() && 0 <= j < s.len() && i != j implies #[trigger] s[i].address
                        != #[trigger] s[j].address by {
                    assert(s[i].address == before[i].address);
                    assert(s[j].address == before[j].address);
                }
            }
        } else {
            self.nodes.push(node);
            proof {
                lemma_entry_index(before, e.address);
                let s = self.entries();
                assert(s =~= before.push(e));
                assert forall|i: int, j: int|
                    0 <= i < s.len() && 0 <= j < s.len() && i != j implies #[trigger] s[i].address
                        != #[trigger] s[j].address by {
                    if i < before.len() {
                        assert(s[i] == before[i]);
                    }
                    if j < before.len() {
                        assert(s[j] == before[j]);
                    }
                }
            }
        }
    }

    /// Forgets the node at `addr`.
    pub fn remove_node(&mut self, addr: &SockAddr)
        requires
            old(self).well_formed(),
        ensures
            final(self).well_formed(),
            final(self).entries() == nodes_without(old(self).entries(), *addr),
    {
        let k = self.find(*addr);
        let ghost before = self.entries();
        if k < self.nodes.len() {
            self.nodes.remove(k);
            proof {
                let s = self.entries();
                assert(s =~= before.remove(k as int));
                assert forall|i: int, j: int|
                    0 <= i < s.len() && 0 <= j < s.len() && i != j implies #[trigger] s[i].address
                        != #[trigger] s[j].address by {
                    let i2 = if i < k { i } else { i + 1 };
                    let j2 = if j < k { j } else { j + 1 };
                    assert(s[i] == before[i2]);
                    assert(s[j] == before[j2]);
                }
            }
        }
    }

    /// The best node: among online nodes one of the highest rank (the
    /// earliest added among equals); none when no node is online.
    pub fn get_best_node(&self) -> (best: Option<&NodeEntry<M>>)
        ensures
            match best {
                Some(e) => best_index(self.entries()) >= 0 && *e == self.entries()[best_index(self.entries())],
                None => best_index(self.entries()) < 0,
            },
    {
        let mut best: Option<usize> = None;
        let mut i: usize = 0;
        while i < self.nodes.len()
            invariant
                i <= self.nodes@.len(),
                match best {
                    Some(b) => best_index(self.nodes@.take(i as int)) == b as int,
                    None => best_index(self.nodes@.take(i as int)) < 0,
                },
                best matches Some(b) ==> b < i,
            decreases self.nodes@.len() - i,
        {
            proof {
                let t = self.nodes@.take(i + 1);
                assert(t.drop_last() =~= self.nodes@.take(i as int));
                if let Some(b) = best {
                    assert(t[b as int] == self.nodes@[b as int]);
                }
            }
            let better = match best {
                Some(b) => self.nodes[i].status == NodeStatus::Online && self.nodes[i].rank
                    > self.nodes[b].rank,
                None => self.nodes[i].status == NodeStatus::Online,
            };
            if better {
                best = Some(i);
            }
            i = i + 1;
        }
        assert(self.nodes@.take(self.nodes@.len() as int) =~= self.nodes@);
        match best {
            Some(b) => Some(&self.nodes[b]),
            None => None,
        }
    }

    /// Sets the rank and metrics of the node at `addr`, if known.
    pub fn update_node_stats(&mut self, addr: &SockAddr, rank: u64, metrics: M)
        requires
            old(self).well_formed(),
        ensures
            final(self).well_formed(),
            ({
                let k = entry_index(old(self).entries(), *addr);
                final(self).entries() == if k >= 0 {
                    old(self).entries().update(
                        k,
                        NodeEntry { rank, metrics, ..old(self).entries()[k] },
                    )
                } else {
                    old(self).entries()
                }
            }),
    {
        let k = self.find(*addr);
        if k < self.nodes.len() {
            let old_entry = self.nodes.remove(k);
            let entry = NodeEntry {
                address: old_entry.address,
                status: old_entry.status,
                rank,
                metrics,
            };
            self.nodes.insert(k, entry);
            let ghost before = old(self).entries();
            proof {
                let s = self.entries();
                assert(s =~= before.update(k as int, NodeEntry { rank, metrics, ..before[k as int] }));
                assert forall|i: int, j: int|
                    0 <= i < s.len() && 0 <= j < s.len() && i != j implies #[trigger] s[i].address
                        != #[trigger] s[j].address by {
                    assert(s[i].address == before[i].address);
                    assert(s[j].address == before[j].address);
                }
            }
        }
    }

    /// Sets the status of the node at `addr`, if known.
    pub fn update_node_status(&mut self, addr: &SockAddr, status: NodeStatus)
        requires
            old(self).well_formed(),
        ensures
            final(self).well_formed(),
            ({
                let k = entry_index(old(self).entries(), *addr);
                final(self).entries() == if k >= 0 {
                    old(self).entries().update(k, NodeEntry { status, ..old(self).entries()[k] })
                } else {
                    old(self).entries()
                }
            }),
    {
        let k = self.find(*addr);
        if k < self.nodes.len() {
            let old_entry = self.nodes.remove(k);
            let entry = NodeEntry {
                address: old_entry.address,
                status,
                rank: old_entry.rank,
                metrics: old_entry.metrics,
            };
            self.nodes.insert(k, entry);
            let ghost before = old(self).entries();
            proof {
                let s = self.entries();
                assert(s =~= before.update(k as int, NodeEntry { status, ..before[k as int] }));
                assert forall|i: int, j: int|
                    0 <= i < s.len() && 0 <= j < s.len() && i != j implies #[trigger] s[i].address
                        != #[trigger] s[j].address by {
                    assert(s[i].address == before[i].address);
                    assert(s[j].address == before[j].address);
                }
            }
        }
    }

    /// Marks the node at `addr` offline, if known.
    pub fn mark_node_offline(&mut self, addr: &SockAddr)
        requires
            old(self).well_formed(),
        ensures
            final(self).well_formed(),
            ({
                let k = entry_index(old(self).entries(), *addr);
                final(self).entries() == if k >= 0 {
                    old(self).entries().update(
                        k,
                        NodeEntry { status: NodeStatus::Offline, ..old(self).entries()[k] },
                    )
                } else {
                    old(self).entries()
                }
            }),
    {
        self.update_node_status(addr, NodeStatus::Offline);
    }

    /// The online nodes, in the order they were added.
    pub fn get_online_nodes(&self) -> (r: Vec<&NodeEntry<M>>)
        ensures
            r@.len() == online_nodes(self.entries()).len(),
            forall|i: int| 0 <= i < r@.len() ==> *#[trigger] r@[i] == online_nodes(self.entries())[i],
    {
        let mut r: Vec<&NodeEntry<M>> = Vec::new();
        let mut i: usize = 0;
        while i < self.nodes.len()
            invariant
                i <= self.nodes@.len(),
                r@.len() == online_nodes(self.nodes@.take(i as int)).len(),
                forall|j: int| 0 <= j < r@.len() ==> *#[trigger] r@[j] == online_nodes(self.nodes@.take(i as int))[j],
            decreases self.nodes@.len() - i,
        {
            proof {
                assert(self.nodes@.take(i + 1).drop_last() =~= self.nodes@.take(i as int));
            }
            if self.nodes[i].status == NodeStatus::Online {
                r.push(&self.nodes[i]);
            }
            i = i + 1;
        }
        assert(self.nodes@.take(self.nodes@.len() as int) =~= self.nodes@);
        r
    }

    /// All nodes, in the order they were added.
    pub fn get_all_nodes(&self) -> (r: &Vec<NodeEntry<M>>)
        ensures
            r@ == self.entries(),
    {
        &self.nodes
    }
}

/// The online nodes are exactly the entries whose status is online, in entry
/// order: every listed node is online, and no online entry is left out.
pub proof fn online_nodes_are_the_online_entries<M>(nodes: Seq<NodeEntry<M>>)
    ensures
        online_nodes(nodes) == nodes.filter(|n: NodeEntry<M>| n.status == NodeStatus::Online),
        forall|i: int| 0 <= i < online_nodes(nodes).len() ==> #[trigger] online_nodes(nodes)[i].status
            == NodeStatus::Online,
        forall|j: int|
            0 <= j < nodes.len() && #[trigger] nodes[j].status == NodeStatus::Online ==> online_nodes(
                nodes,
            ).contains(nodes[j]),
    decreases nodes.len(),
{
    reveal(Seq::filter);
    if nodes.len() > 0 {
        let p = nodes.drop_last();
        online_nodes_are_the_online_entries(p);
        assert(forall|j: int| 0 <= j < p.len() ==> p[j] == nodes[j]);
        let o = online_nodes(nodes);
        let op = online_nodes(p);
        assert forall|j: int|
            0 <= j < nodes.len() && #[trigger] nodes[j].status == NodeStatus::Online implies o.contains(
                nodes[j],
            ) by {
            if j < p.len() {
                assert(op.contains(p[j]));
                let w = choose|w: int| 0 <= w < op.len() && op[w] == p[j];
                assert(o[w] == op[w]);
            } else {
                assert(o[o.len() - 1] == nodes[j]);
            }
        }
        assert forall|i: int| 0 <= i < o.len() implies #[trigger] o[i].status == NodeStatus::Online by {
            if i < op.len() {
                assert(o[i] == op[i]);
            }
        }
    }
}

} // verus!
