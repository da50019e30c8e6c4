//! Sessions between the local proxy and its nodes, and their bookkeeping.
use vstd::prelude::*;
use std::collections::HashMap;
use crate::addr::SockAddr;

verus! {

broadcast use vstd::std_specs::hash::group_hash_axioms;

/// State of a session.
#[derive(Debug, Clone)]
pub enum SessionStatus {
    Connecting,
    Active,
    Closed,
    Error(String),
}

/// Health of a node.
#[derive(Debug, Clone, Copy, PartialEq, Eq, Structural)]
pub enum NodeStatus {
    Online,
    Offline,
    Degraded,
}

/// State of a stream within a session.
#[derive(Debug, Clone, Copy, PartialEq, Eq, Structural)]
pub enum StreamStatus {
    Pending,
    Active,
    Completed,
    Failed,
}

/// A stream: a byte range of a session's data.
#[derive(Debug, Clone, Copy, PartialEq, Eq, Structural)]
pub struct Stream {
    pub id: u32,
    pub offset: u64,
    pub length: u64,
    pub status: StreamStatus,
}

/// A session of a client, with the nodes and streams it uses. `N` is the
/// description kept for each node.
#[derive(Debug, Clone)]
pub struct Session<N> {
    pub id: u64,
    pub client: SockAddr,
    pub nodes: Vec<N>,
    pub streams: Vec<Stream>,
    pub status: SessionStatus,
}

/// Why a session operation failed.
#[derive(Debug, Clone, Copy, PartialEq, Eq, Structural)]
pub enum SessionError {
    /// No session has this id.
    NotFound(u64),
}

/// A freshly created session.
pub open spec fn new_session<N>(s: Session<N>, id: u64, client: SockAddr) -> bool {
    &&& s.id == id
    &&& s.client == client
    &&& s.nodes@.len() == 0
    &&& s.streams@.len() == 0
    &&& s.status is Connecting
}

/// Keeps the sessions by id and hands out increasing ids from 1.
pub struct SessionManager<N> {
    sessions: HashMap<u64, Session<N>>,
    next_id: u64,
}

impl<N> SessionManager<N> {
    /// Every kept session is filed under its own id, and ids handed out so
    /// far are below the next one.
    #[verifier::type_invariant]
    spec fn ids_ok(self) -> bool {
        forall|k: u64| #[trigger]
            self.sessions@.contains_key(k) ==> k < self.next_id && self.sessions@[k].id == k
    }

    /// The sessions, by id.
    pub closed spec fn sessions(&self) -> Map<u64, Session<N>> {
        self.sessions@
    }

    /// The id the next session will get.
    pub closed spec fn next(&self) -> u64 {
        self.next_id
    }

    /// No sessions; the first id is 1.
    pub fn new() -> (m: SessionManager<N>)
        ensures
            m.sessions() == Map::<u64, Session<N>>::empty(),
            m.next() == 1,
    {
        SessionManager { sessions: HashMap::new(), next_id: 1 }
    }

    /// Creates a session for `client_addr` with the next id, in state
    /// connecting with no nodes or streams, and keeps it.
    pub fn create_session(&mut self, client_addr: SockAddr) -> (s: Session<N>)
        requires
            old(self).next() < u64::MAX,
        ensures
            new_session(s, old(self).next(), client_addr),
            !old(self).sessions().contains_key(old(self).next()),
            forall|k: u64| #[trigger] old(self).sessions().contains_key(k) ==> k < old(self).next(),
            final(self).next() == old(self).next() + 1,
            final(self).sessions().dom() == old(self).sessions().dom().insert(old(self).next()),
            new_session(final(self).sessions()[old(self).next()], old(self).next(), client_addr),
            forall|k: u64|
                k != old(self).next() && old(self).sessions().contains_key(k) ==> final(self).sessions()[k]
                    == old(self).sessions()[k],
    {
        proof {
            use_type_invariant(&*self);
        }
        let id = self.next_id;
        let mut sessions = HashMap::new();
        std::mem::swap(&mut sessions, &mut self.sessions);
        self.next_id = self.next_id + 1;
        let stored = Session {
            id,
            client: client_addr,
            nodes: Vec::new(),
            streams: Vec::new(),
            status: SessionStatus::Connecting,
        };
        sessions.insert(id, stored);
        self.sessions = sessions;
        Session {
            id,
            client: client_addr,
            nodes: Vec::new(),
            streams: Vec::new(),
            status: SessionStatus::Connecting,
        }
    }

    /// The session with id `id`.
    pub fn get_session(&self, id: u64) -> (r: Result<&Session<N>, SessionError>)
        ensures
            match r {
                Ok(s) => self.sessions().contains_key(id) && *s == self.sessions()[id],
                Err(e) => !self.sessions().contains_key(id) && e == SessionError::NotFound(id),
            },
    {
        match self.sessions.get(&id) {
            Some(s) => Ok(s),
            None => Err(SessionError::NotFound(id)),
        }
    }

    /// Sets the status of session `id`.
    pub fn update_session_status(&mut self, id: u64, status: SessionStatus) -> (r: Result<(), SessionError>)
        ensures
            final(self).next() == old(self).next(),
            match r {
                Ok(()) => {
                    &&& old(self).sessions().contains_key(id)
                    &&& final(self).sessions() == old(self).sessions().insert(
                        id,
                        Session { status, ..old(self).sessions()[id] },
                    )
                },
                Err(e) => {
                    &&& !old(self).sessions().contains_key(id)
                    &&& e == SessionError::NotFound(id)
                    &&& final(self).sessions() == old(self).sessions()
                },
            },
    {
        proof {
            use_type_invariant(&*self);
        }
        let mut sessions = HashMap::new();
        std::mem::swap(&mut sessions, &mut self.sessions);
        let r = match sessions.remove(&id) {
            Some(mut s) => {
                s.status = status;
                sessions.insert(id, s);
                Ok(())
            },
            None => Err(SessionError::NotFound(id)),
        };
        self.sessions = sessions;
        r
    }

    /// Marks session `id` closed.
    pub fn close_session(&mut self, id: u64) -> (r: Result<(), SessionError>)
        ensures
            final(self).next() == old(self).next(),
            match r {
                Ok(()) => {
                    &&& old(self).sessions().contains_key(id)
                    &&& final(self).sessions() == old(self).sessions().insert(
                        id,
                        Session { status: SessionStatus::Closed, ..old(self).sessions()[id] },
                    )
                },
                Err(e) => {
                    &&& !old(self).sessions().contains_key(id)
                    &&& e == SessionError::NotFound(id)
                    &&& final(self).sessions() == old(self).sessions()
                },
            },
    {
        self.update_session_status(id, SessionStatus::Closed)
    }
}

/// Session numbering: when a fresh manager (next id 1) creates sessions one
/// after another, each getting the manager's next id and moving it up by one
/// (as `create_session` ensures), the k-th session gets id k and ids only
/// grow, so none is reused.
pub proof fn session_ids_count_up(nexts: Seq<u64>, ids: Seq<u64>)
    requires
        nexts.len() == ids.len() + 1,
        nexts[0] == 1,
        forall|i: int| 0 <= i < ids.len() ==> #[trigger] ids[i] == nexts[i] && nexts[i + 1] == nexts[i] + 1,
    ensures
        forall|i: int| 0 <= i < ids.len() ==> #[trigger] ids[i] == i + 1,
        forall|i: int, j: int| 0 <= i < j < ids.len() ==> #[trigger] ids[i] < #[trigger] ids[j],
    decreases ids.len(),
{
    if ids.len() > 0 {
        let n = ids.len() - 1;
        session_ids_count_up(nexts.drop_last(), ids.drop_last());
        assert(forall|i: int| 0 <= i < n ==> ids.drop_last()[i] == ids[i]);
        assert(ids[n] == nexts[n]);
        if n > 0 {
            assert(ids[n - 1] == nexts[n - 1]);
            assert(nexts[n] == nexts[n - 1] + 1);
        }
        assert forall|i: int| 0 <= i < ids.len() implies #[trigger] ids[i] == i + 1 by {
            if i < n {
                assert(ids.drop_last()[i] == i + 1);
            }
        }
    }
}

} // verus!
