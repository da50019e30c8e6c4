//! State behind the desktop console: its bounded log, and the list of node
//! addresses that imported share links extend.
use vstd::prelude::*;
use crate::share_link::text_equals;
use crate::addr::SockAddr;

verus! {

/// The most lines the log keeps; older lines are dropped first.
pub const MAX_LOG_LINES: usize = 100;

/// The log shown to the user, oldest line first.
pub struct LogBook {
    lines: Vec<String>,
}

/// The log after `line` is added to `lines`: the line goes last, and when
/// that makes more than the maximum, the oldest line goes.
pub open spec fn logged(lines: Seq<Seq<char>>, line: Seq<char>) -> Seq<Seq<char>> {
    let all = lines.push(line);
    if all.len() > MAX_LOG_LINES {
        all.drop_first()
    } else {
        all
    }
}

impl LogBook {
    #[verifier::type_invariant]
    spec fn bounded(self) -> bool {
        self.lines@.len() <= MAX_LOG_LINES
    }

    /// The lines, oldest first.
    pub closed spec fn lines(&self) -> Seq<Seq<char>> {
        self.lines@.map_values(|s: String| s@)
    }

    /// An empty log.
    pub fn new() -> (b: LogBook)
        ensures
            b.lines() == Seq::<Seq<char>>::empty(),
    {
        let b = LogBook { lines: Vec::new() };
        assert(b.lines() =~= Seq::<Seq<char>>::empty());
        b
    }

    /// Adds a line, dropping the oldest one when the log is full.
    pub fn add(&mut self, line: String)
        ensures
            final(self).lines() == logged(old(self).lines(), line@),
            final(self).lines().len() <= MAX_LOG_LINES,
    {
        proof {
            use_type_invariant(&*self);
        }
        let mut lines = Vec::new();
        std::mem::swap(&mut lines, &mut self.lines);
        let ghost before = lines@;
        lines.push(line);
        if lines.len() > MAX_LOG_LINES {
            lines.remove(0);
        }
        proof {
            let all = before.push(line);
            if all.len() > MAX_LOG_LINES {
                assert(lines@ =~= all.drop_first());
                assert(lines@.map_values(|s: String| s@) =~= all.map_values(|s: String| s@).drop_first());
            } else {
                assert(lines@.map_values(|s: String| s@) =~= before.map_values(|s: String| s@).push(line@));
            }
        }
        self.lines = lines;
    }

    /// The lines, oldest first.
    pub fn lines_vec(&self) -> (v: &Vec<String>)
        ensures
            v@.map_values(|s: String| s@) == self.lines(),
    {
        &self.lines
    }

    /// How many lines there are.
    pub fn len(&self) -> (n: usize)
        ensures
            n == self.lines().len(),
    {
        self.lines.len()
    }
}

/// `addrs` extended by the candidates, in order, each one that is not
/// already there (counting those added before it).
pub open spec fn merged(addrs: Seq<Seq<char>>, candidates: Seq<Seq<char>>) -> Seq<Seq<char>>
    decreases candidates.len(),
{
    if candidates.len() == 0 {
        addrs
    } else {
        let m = merged(addrs, candidates.drop_last());
        if m.contains(candidates.last()) {
            m
        } else {
            m.push(candidates.last())
        }
    }
}

fn contains_text(v: &Vec<String>, s: &str) -> (found: bool)
    ensures
        found == v@.map_values(|x: String| x@).contains(s@),
{
    let ghost view = v@.map_values(|x: String| x@);
    let mut i: usize = 0;
    while i < v.len()
        invariant
            i <= v@.len(),
            view == v@.map_values(|x: String| x@),
            forall|j: int| 0 <= j < i ==> view[j] != s@,
        decreases v@.len() - i,
    {
        if text_equals(v[i].as_str(), s) {
            assert(view[i as int] == s@);
            return true;
        }
        i = i + 1;
    }
    false
}

/// Appends to `addrs` each candidate address that it does not hold yet, in
/// order; gives how many were added.
pub fn merge_addresses(addrs: &mut Vec<String>, candidates: &Vec<String>) -> (added: usize)
    ensures
        final(addrs)@.map_values(|s: String| s@) == merged(
            old(addrs)@.map_values(|s: String| s@),
            candidates@.map_values(|s: String| s@),
        ),
        added == final(addrs)@.len() - old(addrs)@.len(),
{
    let ghost start = addrs@.map_values(|s: String| s@);
    let ghost cands = candidates@.map_values(|s: String| s@);
    let start_len = addrs.len();
    let mut i: usize = 0;
    while i < candidates.len()
        invariant
            i <= candidates@.len(),
            cands == candidates@.map_values(|s: String| s@),
            addrs@.map_values(|s: String| s@) == merged(start, cands.take(i as int)),
            addrs@.len() >= start_len,
            start == old(addrs)@.map_values(|s: String| s@),
            start_len == old(addrs)@.len(),
        decreases candidates@.len() - i,
    {
        let c = &candidates[i];
        proof {
            assert(cands.take(i + 1).drop_last() =~= cands.take(i as int));
            assert(cands.take(i + 1).last() == c@);
        }
        if !contains_text(addrs, c.as_str()) {
            let ghost before = addrs@;
            addrs.push(c.clone());
            proof {
                assert(addrs@.map_values(|s: String| s@) =~= before.map_values(|s: String| s@).push(c@));
            }
        }
        i = i + 1;
    }
    proof {
        assert(cands.take(candidates@.len() as int) =~= cands);
    }
    addrs.len() - start_len
}

/// Whether no address occurs twice.
pub open spec fn distinct_addresses(s: Seq<Seq<char>>) -> bool {
    forall|i: int, j: int| 0 <= i < j < s.len() ==> #[trigger] s[i] != #[trigger] s[j]
}

/// Merging keeps every address already there, in place, adds every
/// candidate, and adds no address twice.
pub proof fn merge_adds_each_address_once(addrs: Seq<Seq<char>>, candidates: Seq<Seq<char>>)
    requires
        distinct_addresses(addrs),
    ensures
        distinct_addresses(merged(addrs, candidates)),
        merged(addrs, candidates).len() >= addrs.len(),
        merged(addrs, candidates).take(addrs.len() as int) == addrs,
        forall|k: int| 0 <= k < candidates.len() ==> merged(addrs, candidates).contains(#[trigger] candidates[k]),
    decreases candidates.len(),
{
    if candidates.len() > 0 {
        let p = candidates.drop_last();
        merge_adds_each_address_once(addrs, p);
        let m = merged(addrs, p);
        let c = candidates.last();
        if !m.contains(c) {
            let r = m.push(c);
            assert forall|i: int, j: int| 0 <= i < j < r.len() implies #[trigger] r[i] != #[trigger] r[j] by {
                if j == r.len() - 1 {
                    assert(r[i] == m[i]);
                    assert(m.contains(m[i]));
                }
            }
            assert(r.take(addrs.len() as int) =~= m.take(addrs.len() as int));
            assert forall|k: int| 0 <= k < candidates.len() implies r.contains(#[trigger] candidates[k]) by {
                if k < p.len() {
                    assert(p[k] == candidates[k]);
                    assert(m.contains(p[k]));
                    let x = choose|x: int| 0 <= x < m.len() && m[x] == p[k];
                    assert(r[x] == m[x]);
                } else {
                    assert(r[m.len() as int] == c);
                }
            }
        } else {
            assert forall|k: int| 0 <= k < candidates.len() implies m.contains(#[trigger] candidates[k]) by {
                if k < p.len() {
                    assert(p[k] == candidates[k]);
                }
            }
        }
    }
}

/// What the console does when asked to start the proxy.
#[derive(Debug)]
pub enum StartStep {
    /// The proxy already runs; nothing starts.
    AlreadyRunning,
    /// The listen address does not parse; nothing starts.
    BadListenAddress,
    /// Listen on `listen` and send through `nodes`.
    Start { listen: SockAddr, nodes: Vec<SockAddr> },
}

/// The addresses among `parsed` that parsed, in order.
pub open spec fn parsed_addresses(parsed: Seq<Option<SockAddr>>) -> Seq<SockAddr>
    decreases parsed.len(),
{
    if parsed.len() == 0 {
        Seq::empty()
    } else {
        let r = parsed_addresses(parsed.drop_last());
        match parsed.last() {
            Some(a) => r.push(a),
            None => r,
        }
    }
}

/// Decides a start request from whether the proxy runs, the listen address
/// (if it parsed) and each configured node address (if it parsed): an
/// already running proxy or an unreadable listen address stops it; otherwise
/// the proxy starts with the node addresses that parsed.
pub fn plan_start(running: bool, listen: Option<SockAddr>, nodes: &Vec<Option<SockAddr>>) -> (step: StartStep)
    ensures
        running ==> step is AlreadyRunning,
        !running && listen is None ==> step is BadListenAddress,
        !running && listen is Some ==> (step matches StartStep::Start { listen: l, nodes: ns } && l
            == listen->0 && ns@ == parsed_addresses(nodes@)),
{
    if running {
        return StartStep::AlreadyRunning;
    }
    let l = match listen {
        None => return StartStep::BadListenAddress,
        Some(l) => l,
    };
    let mut ns: Vec<SockAddr> = Vec::new();
    let mut i: usize = 0;
    while i < nodes.len()
        invariant
            i <= nodes@.len(),
            ns@ == parsed_addresses(nodes@.take(i as int)),
        decreases nodes@.len() - i,
    {
        proof {
            assert(nodes@.take(i + 1).drop_last() =~= nodes@.take(i as int));
        }
        match nodes[i] {
            Some(a) => ns.push(a),
            None => {},
        }
        i = i + 1;
    }
    assert(nodes@.take(nodes@.len() as int) =~= nodes@);
    StartStep::Start { listen: l, nodes: ns }
}

} // verus!

