use vstd::prelude::*;
use crate::board::Tasks;
use crate::task::Task;

verus! {

/// What an observer session has seen, as the contracts speak of it.
pub struct SessionView {
    /// Position in the log of the snapshot that the session started from.
    pub start: nat,
    /// The snapshots handed to the observer so far, oldest first.
    pub handed: Seq<Seq<Task>>,
    /// The snapshots queued for the observer, oldest first.
    pub pending: Seq<Seq<Task>>,
}

/// Where an observer session stands.
#[derive(Debug, Clone, Copy, PartialEq, Eq, Structural)]
pub enum SessionState {
    /// Subscribed; the snapshot of the board at subscription is not yet handed out.
    Connecting,
    /// The first snapshot was handed out; one more follows each commit.
    Streaming,
    /// Unsubscribed, or dropped for falling behind; nothing more is delivered.
    Closed,
}

/// The outcome of asking for a session's next snapshot.
#[derive(Debug)]
pub enum Delivery {
    /// The oldest snapshot that was waiting for the session.
    Snapshot(Tasks),
    /// Nothing is waiting yet; ask again after the next commit.
    Pending,
    /// The session is closed.
    Closed,
}

/// The state of session `sid` in the session map `m`.
pub open spec fn state_of(m: Map<u64, SessionView>, sid: u64) -> SessionState {
    if !m.contains_key(sid) {
        SessionState::Closed
    } else if m[sid].handed.len() == 0 {
        SessionState::Connecting
    } else {
        SessionState::Streaming
    }
}

/// A session has been handed, and holds queued, exactly the snapshots of
/// the log from the one it started from, each once and in log order; its
/// queue keeps within `capacity`.
pub open spec fn follows_log(v: SessionView, log: Seq<Seq<Task>>, capacity: nat) -> bool {
    &&& v.start < log.len()
    &&& v.handed + v.pending == log.subrange(v.start as int, log.len() as int)
    &&& v.pending.len() <= capacity
}

/// The session `v` with `snapshot` queued behind what it already holds.
pub open spec fn queued(v: SessionView, snapshot: Seq<Task>) -> SessionView {
    SessionView { pending: v.pending.push(snapshot), ..v }
}

/// The session `v` after its oldest queued snapshot was handed out.
pub open spec fn advanced(v: SessionView) -> SessionView {
    SessionView { handed: v.handed.push(v.pending[0]), pending: v.pending.drop_first(), ..v }
}

pub open spec fn views_of(q: Seq<Tasks>) -> Seq<Seq<Task>> {
    q.map_values(|t: Tasks| t@)
}

struct Session {
    id: u64,
    /// Snapshots not yet handed out, oldest first.
    queue: Vec<Tasks>,
    /// Whether the first snapshot was handed out.
    started: bool,
}

spec fn session_matches(s: Session, v: SessionView) -> bool {
    &&& views_of(s.queue@) == v.pending
    &&& s.started == (v.handed.len() > 0)
}

/// Fans every committed snapshot out to the registered observer sessions.
///
/// Each session owns a queue of at most `capacity` snapshots. A session
/// whose queue is full when a snapshot is published is closed as too slow:
/// the publisher never waits for an observer, and an observer never misses
/// a snapshot while its session stays open.
pub struct ChangeBus {
    sessions: Vec<Session>,
    next_session: u64,
    capacity: usize,
    /// Every snapshot published, the initial board first.
    log: Ghost<Seq<Seq<Task>>>,
    views: Ghost<Map<u64, SessionView>>,
}

impl ChangeBus {
    /// The snapshots published so far, the one the bus was made with first.
    pub closed spec fn log(&self) -> Seq<Seq<Task>> {
        self.log@
    }

    /// The open sessions, by id.
    pub closed spec fn sessions(&self) -> Map<u64, SessionView> {
        self.views@
    }

    /// The most snapshots that a session's queue holds.
    pub closed spec fn capacity(&self) -> nat {
        self.capacity as nat
    }

    /// The id that the next session gets; every id in use is below it.
    pub closed spec fn next_id(&self) -> u64 {
        self.next_session
    }

    pub closed spec fn wf(&self) -> bool {
        &&& self.capacity >= 1
        &&& self.log@.len() >= 1
        &&& forall|i: int, j: int|
            0 <= i < self.sessions@.len() && 0 <= j < self.sessions@.len() && i != j
                ==> self.sessions@[i].id != self.sessions@[j].id
        &&& forall|i: int| 0 <= i < self.sessions@.len() ==> {
            &&& self.views@.contains_key(#[trigger] self.sessions@[i].id)
            &&& session_matches(self.sessions@[i], self.views@[self.sessions@[i].id])
        }
        &&& forall|sid: u64| #[trigger] self.views@.contains_key(sid)
            ==> exists|i: int| 0 <= i < self.sessions@.len() && self.sessions@[i].id == sid
        &&& forall|sid: u64| #[trigger] self.views@.contains_key(sid) ==> {
            &&& sid < self.next_session
            &&& follows_log(self.views@[sid], self.log@, self.capacity as nat)
        }
    }

    /// The snapshot published last: the board as it stands.
    pub open spec fn current(&self) -> Seq<Task> {
        self.log().last()
    }

    /// A bus with no sessions, whose log starts at `board`.
    pub fn new(capacity: usize, board: &Tasks) -> (r: ChangeBus)
        requires
            capacity >= 1,
        ensures
            r.wf(),
            r.log() == seq![board@],
            r.sessions() == Map::<u64, SessionView>::empty(),
            r.capacity() == capacity,
            r.next_id() == 0,
    {
        let ghost first = seq![board@];
        ChangeBus {
            sessions: Vec::new(),
            next_session: 0,
            capacity,
            log: Ghost(first),
            views: Ghost(Map::empty()),
        }
    }

    /// The number of open sessions.
    pub fn session_count(&self) -> (r: usize)
        requires
            self.wf(),
        ensures
            r == self.sessions().len(),
    {
        proof {
            self.lemma_ids_are_keys();
        }
        self.sessions.len()
    }

    /// The domain of the session map is the set of ids in the session list,
    /// which has no duplicates.
    proof fn lemma_ids_are_keys(&self)
        requires
            self.wf(),
        ensures
            self.views@.dom() == self.sessions@.map_values(|s: Session| s.id).to_set(),
            self.views@.dom().len() == self.sessions@.len(),
    {
        let ids = self.sessions@.map_values(|s: Session| s.id);
        assert(self.views@.dom() =~= ids.to_set()) by {
            assert forall|sid: u64| self.views@.dom().contains(sid) implies ids.to_set().contains(sid) by {
                let i = choose|i: int| 0 <= i < self.sessions@.len() && self.sessions@[i].id == sid;
                assert(ids[i] == sid);
            }
            assert forall|sid: u64| ids.to_set().contains(sid) implies self.views@.dom().contains(sid) by {
                let i = choose|i: int| 0 <= i < ids.len() && ids[i] == sid;
                assert(self.views@.contains_key(self.sessions@[i].id));
            }
        }
        assert(ids.no_duplicates()) by {
            assert forall|i: int, j: int| 0 <= i < ids.len() && 0 <= j < ids.len() && i != j
                implies ids[i] != ids[j] by {
                assert(self.sessions@[i].id != self.sessions@[j].id);
            }
        }
        ids.unique_seq_to_set();
    }

    /// The position in the session list of the session `sid`, if it is open.
    fn find(&self, sid: u64) -> (r: Option<usize>)
        requires
            self.wf(),
        ensures
            match r {
                Some(i) => i < self.sessions@.len() && self.sessions@[i as int].id == sid
                    && self.views@.contains_key(sid),
                None => !self.views@.contains_key(sid),
            },
    {
        let mut i: usize = 0;
        while i < self.sessions.len()
            invariant
                self.wf(),
                i <= self.sessions@.len(),
                forall|k: int| 0 <= k < i ==> self.sessions@[k].id != sid,
            decreases self.sessions@.len() - i,
        {
            if self.sessions[i].id == sid {
                assert(self.views@.contains_key(self.sessions@[i as int].id));
                return Some(i);
            }
            i = i + 1;
        }
        None
    }

    /// Where the session `sid` stands.
    pub fn state(&self, sid: u64) -> (r: SessionState)
        requires
            self.wf(),
        ensures
            r == state_of(self.sessions(), sid),
    {
        match self.find(sid) {
            None => SessionState::Closed,
            Some(i) => if self.sessions[i].started {
                SessionState::Streaming
            } else {
                SessionState::Connecting
            },
        }
    }

    /// Registers a new observer session on the board `board`, the snapshot
    /// published last. Its queue starts with that snapshot. There is no
    /// session once every id has been given out.
    pub fn subscribe(&mut self, board: &Tasks) -> (r: Option<u64>)
        requires
            old(self).wf(),
            board@ == old(self).current(),
        ensures
            final(self).wf(),
            final(self).log() == old(self).log(),
            final(self).capacity() == old(self).capacity(),
            match r {
                Some(sid) => {
                    &&& sid == old(self).next_id()
                    &&& final(self).next_id() == old(self).next_id() + 1
                    &&& final(self).sessions() == old(self).sessions().insert(
                        sid,
                        SessionView {
                            start: (old(self).log().len() - 1) as nat,
                            handed: Seq::empty(),
                            pending: seq![board@],
                        },
                    )
                },
                None => {
                    &&& old(self).next_id() == u64::MAX
                    &&& final(self).next_id() == old(self).next_id()
                    &&& final(self).sessions() == old(self).sessions()
                },
            },
    {
        if self.next_session == u64::MAX {
            return None;
        }
        let sid = self.next_session;
        let mut queue: Vec<Tasks> = Vec::new();
        queue.push(board.snapshot());
        let ghost view = SessionView {
            start: (self.log@.len() - 1) as nat,
            handed: Seq::empty(),
            pending: seq![board@],
        };
        let ghost old_views = self.views@;
        self.sessions.push(Session { id: sid, queue, started: false });
        self.next_session = sid + 1;
        self.views = Ghost(self.views@.insert(sid, view));
        proof {
            let n = self.sessions@.len() - 1;
            assert(views_of(self.sessions@[n].queue@) =~= seq![board@]);
            assert(self.log@.subrange(view.start as int, self.log@.len() as int) =~= seq![board@]);
            assert(view.handed + view.pending =~= view.pending);
            assert forall|i: int| 0 <= i < n implies self.sessions@[i].id != sid by {
                assert(old_views.contains_key(old(self).sessions@[i].id));
            }
            assert forall|k: u64| #[trigger] self.views@.contains_key(k)
                implies exists|i: int| 0 <= i < self.sessions@.len() && self.sessions@[i].id == k by {
                if k == sid {
                    assert(self.sessions@[n].id == k);
                } else {
                    assert(old_views.contains_key(k));
                    let i = choose|i: int| 0 <= i < old(self).sessions@.len() && old(self).sessions@[i].id == k;
                    assert(self.sessions@[i].id == k);
                }
            }
        }
        Some(sid)
    }

    /// Closes the session `sid`: it gets nothing more. Says whether it was
    /// open.
    pub fn unsubscribe(&mut self, sid: u64) -> (r: bool)
        requires
            old(self).wf(),
        ensures
            final(self).wf(),
            r == old(self).sessions().contains_key(sid),
            final(self).sessions() == old(self).sessions().remove(sid),
            final(self).log() == old(self).log(),
            final(self).capacity() == old(self).capacity(),
            final(self).next_id() == old(self).next_id(),
    {
        match self.find(sid) {
            None => {
                assert(self.views@.remove(sid) =~= self.views@);
                false
            },
            Some(i) => {
                let ghost old_sessions = self.sessions@;
                self.sessions.remove(i);
                self.views = Ghost(self.views@.remove(sid));
                proof {
                    self.lemma_removed_keeps_rest(old(self).views@, old_sessions, i as int);
                }
                true
            },
        }
    }

    /// What remains of a well-formed session list after the entry at `i`
    /// left it and its id left the map.
    proof fn lemma_removed_keeps_rest(&self, old_views: Map<u64, SessionView>, old_sessions: Seq<Session>, i: int)
        requires
            0 <= i < old_sessions.len(),
            self.sessions@ == old_sessions.remove(i),
            self.views@ == old_views.remove(old_sessions[i].id),
            forall|a: int, b: int|
                0 <= a < old_sessions.len() && 0 <= b < old_sessions.len() && a != b
                    ==> old_sessions[a].id != old_sessions[b].id,
            forall|a: int| 0 <= a < old_sessions.len() ==> {
                &&& old_views.contains_key(#[trigger] old_sessions[a].id)
                &&& session_matches(old_sessions[a], old_views[old_sessions[a].id])
            },
            forall|sid: u64| #[trigger] old_views.contains_key(sid)
                ==> exists|a: int| 0 <= a < old_sessions.len() && old_sessions[a].id == sid,
        ensures
            forall|a: int, b: int|
                0 <= a < self.sessions@.len() && 0 <= b < self.sessions@.len() && a != b
                    ==> self.sessions@[a].id != self.sessions@[b].id,
            forall|a: int| 0 <= a < self.sessions@.len() ==> {
                &&& self.views@.contains_key(#[trigger] self.sessions@[a].id)
                &&& session_matches(self.sessions@[a], self.views@[self.sessions@[a].id])
            },
            forall|sid: u64| #[trigger] self.views@.contains_key(sid)
                ==> exists|a: int| 0 <= a < self.sessions@.len() && self.sessions@[a].id == sid,
    {
        let gone = old_sessions[i].id;
        assert forall|a: int, b: int|
            0 <= a < self.sessions@.len() && 0 <= b < self.sessions@.len() && a != b
                implies self.sessions@[a].id != self.sessions@[b].id by {
            let oa = if a < i { a } else { a + 1 };
            let ob = if b < i { b } else { b + 1 };
            assert(self.sessions@[a] == old_sessions[oa]);
            assert(self.sessions@[b] == old_sessions[ob]);
        }
        assert forall|a: int| 0 <= a < self.sessions@.len() implies {
            &&& self.views@.contains_key(#[trigger] self.sessions@[a].id)
            &&& session_matches(self.sessions@[a], self.views@[self.sessions@[a].id])
        } by {
            let oa = if a < i { a } else { a + 1 };
            assert(self.sessions@[a] == old_sessions[oa]);
            assert(old_sessions[oa].id != gone);
        }
        assert forall|sid: u64| #[trigger] self.views@.contains_key(sid)
            implies exists|a: int| 0 <= a < self.sessions@.len() && self.sessions@[a].id == sid by {
            assert(old_views.contains_key(sid));
            let oa = choose|a: int| 0 <= a < old_sessions.len() && old_sessions[a].id == sid;
            assert(oa != i);
            let a = if oa < i { oa } else { oa - 1 };
            assert(self.sessions@[a] == old_sessions[oa]);
        }
    }

    /// Hands out the oldest snapshot waiting for the session `sid`, if any.
    pub fn next_delivery(&mut self, sid: u64) -> (r: Delivery)
        requires
            old(self).wf(),
        ensures
            final(self).wf(),
            final(self).log() == old(self).log(),
            final(self).capacity() == old(self).capacity(),
            final(self).next_id() == old(self).next_id(),
            !old(self).sessions().contains_key(sid) ==> r is Closed && final(self).sessions() == old(self).sessions(),
            old(self).sessions().contains_key(sid) && old(self).sessions()[sid].pending.len() == 0
                ==> r is Pending && final(self).sessions() == old(self).sessions(),
            old(self).sessions().contains_key(sid) && old(self).sessions()[sid].pending.len() > 0 ==> {
                &&& r matches Delivery::Snapshot(t) && t@ == old(self).sessions()[sid].pending[0]
                &&& final(self).sessions() == old(self).sessions().insert(sid, advanced(old(self).sessions()[sid]))
            },
    {
        match self.find(sid) {
            None => Delivery::Closed,
            Some(i) => {
                if self.sessions[i].queue.len() == 0 {
                    return Delivery::Pending;
                }
                let ghost old_sessions = self.sessions@;
                let ghost v = self.views@[sid];
                let t = self.sessions[i].queue.remove(0);
                self.sessions[i].started = true;
                self.views = Ghost(self.views@.insert(sid, advanced(v)));
                proof {
                    let q = old_sessions[i as int].queue@;
                    assert(views_of(self.sessions@[i as int].queue@) =~= views_of(q).drop_first());
                    assert(advanced(v).handed + advanced(v).pending =~= v.handed + v.pending);
                    assert forall|a: int| 0 <= a < self.sessions@.len() && a != i
                        implies self.sessions@[a] == old_sessions[a] && old_sessions[a].id != sid by {
                    }
                    assert forall|k: u64| #[trigger] self.views@.contains_key(k)
                        implies exists|a: int| 0 <= a < self.sessions@.len() && self.sessions@[a].id == k by {
                        assert(old(self).views@.contains_key(k));
                        let a = choose|a: int| 0 <= a < old_sessions.len() && old_sessions[a].id == k;
                        assert(self.sessions@[a].id == k);
                    }
                }
                Delivery::Snapshot(t)
            },
        }
    }

    /// Publishes the snapshot `board`, committed after the last one: it is
    /// queued for every open session, and a session whose queue is already
    /// full is closed instead.
    pub fn publish(&mut self, board: &Tasks)
        requires
            old(self).wf(),
        ensures
            final(self).wf(),
            final(self).log() == old(self).log().push(board@),
            final(self).capacity() == old(self).capacity(),
            final(self).next_id() == old(self).next_id(),
            forall|sid: u64| #[trigger] final(self).sessions().contains_key(sid) <==> {
                &&& old(self).sessions().contains_key(sid)
                &&& old(self).sessions()[sid].pending.len() < old(self).capacity()
            },
            forall|sid: u64| #[trigger] final(self).sessions().contains_key(sid)
                ==> final(self).sessions()[sid] == queued(old(self).sessions()[sid], board@),
    {
        let ghost old_views = self.views@;
        let ghost old_sessions = self.sessions@;
        let ghost mut j: int = 0;
        let mut i: usize = 0;
        self.log = Ghost(self.log@.push(board@));
        while i < self.sessions.len()
            invariant
                old(self).wf(),
                old_views == old(self).views@,
                old_sessions == old(self).sessions@,
                i <= self.sessions@.len(),
                0 <= j <= old_sessions.len(),
                self.sessions@.len() - i == old_sessions.len() - j,
                forall|a: int| i <= a < self.sessions@.len() ==> #[trigger] self.sessions@[a] == old_sessions[a - i + j],
                self.capacity == old(self).capacity,
                self.next_session == old(self).next_session,
                self.log@ == old(self).log@.push(board@),
                forall|a: int, b: int|
                    0 <= a < old_sessions.len() && 0 <= b < old_sessions.len() && a != b
                        ==> old_sessions[a].id != old_sessions[b].id,
                forall|a: int| 0 <= a < old_sessions.len() ==> old_views.contains_key(#[trigger] old_sessions[a].id),
                forall|sid: u64| #[trigger] old_views.contains_key(sid)
                    ==> exists|a: int| 0 <= a < old_sessions.len() && old_sessions[a].id == sid,
                forall|a: int, b: int|
                    0 <= a < self.sessions@.len() && 0 <= b < self.sessions@.len() && a != b
                        ==> self.sessions@[a].id != self.sessions@[b].id,
                forall|a: int| 0 <= a < self.sessions@.len() ==> {
                    &&& self.views@.contains_key(#[trigger] self.sessions@[a].id)
                    &&& session_matches(self.sessions@[a], self.views@[self.sessions@[a].id])
                },
                forall|sid: u64| #[trigger] self.views@.contains_key(sid)
                    ==> exists|a: int| 0 <= a < self.sessions@.len() && self.sessions@[a].id == sid,
                forall|sid: u64| #[trigger] self.views@.contains_key(sid) ==> old_views.contains_key(sid),
                forall|a: int| 0 <= a < j ==> {
                    let sid = #[trigger] old_sessions[a].id;
                    &&& self.views@.contains_key(sid) <==> old_views[sid].pending.len() < self.capacity
                    &&& self.views@.contains_key(sid) ==> self.views@[sid] == queued(old_views[sid], board@)
                },
                forall|a: int| j <= a < old_sessions.len() ==> {
                    let sid = #[trigger] old_sessions[a].id;
                    &&& self.views@.contains_key(sid)
                    &&& self.views@[sid] == old_views[sid]
                },
            decreases self.sessions@.len() - i,
        {
            let ghost before_views = self.views@;
            let ghost before_sessions = self.sessions@;
            let sid = self.sessions[i].id;
            assert(self.sessions@[i as int] == old_sessions[j]);
            if self.sessions[i].queue.len() >= self.capacity {
                self.sessions.remove(i);
                self.views = Ghost(self.views@.remove(sid));
                proof {
                    self.lemma_removed_keeps_rest(before_views, before_sessions, i as int);
                    assert forall|a: int| i <= a < self.sessions@.len()
                        implies #[trigger] self.sessions@[a] == old_sessions[a - i + j + 1] by {
                        assert(self.sessions@[a] == before_sessions[a + 1]);
                    }
                    assert forall|a: int| 0 <= a < old_sessions.len() && a != j
                        implies old_sessions[a].id != sid by {
                    }
                    j = j + 1;
                }
            } else {
                let ghost v = self.views@[sid];
                self.sessions[i].queue.push(board.snapshot());
                self.views = Ghost(self.views@.insert(sid, queued(v, board@)));
                proof {
                    let q = before_sessions[i as int].queue@;
                    assert(views_of(self.sessions@[i as int].queue@) =~= views_of(q).push(board@));
                    assert forall|a: int| 0 <= a < self.sessions@.len() && a != i
                        implies self.sessions@[a] == before_sessions[a] && before_sessions[a].id != sid by {
                    }
                    assert forall|k: u64| #[trigger] self.views@.contains_key(k)
                        implies exists|a: int| 0 <= a < self.sessions@.len() && self.sessions@[a].id == k by {
                        assert(before_views.contains_key(k));
                        let a = choose|a: int| 0 <= a < before_sessions.len() && before_sessions[a].id == k;
                        assert(self.sessions@[a].id == k);
                    }
                    assert forall|a: int| 0 <= a < old_sessions.len() && a != j
                        implies old_sessions[a].id != sid by {
                    }
                    j = j + 1;
                }
                i = i + 1;
            }
        }
        proof {
            assert(j == old_sessions.len());
            assert forall|sid: u64| #[trigger] self.views@.contains_key(sid) implies {
                &&& sid < self.next_session
                &&& follows_log(self.views@[sid], self.log@, self.capacity as nat)
            } by {
                assert(old_views.contains_key(sid));
                let a = choose|a: int| 0 <= a < old_sessions.len() && old_sessions[a].id == sid;
                let v = old_views[sid];
                assert(v.handed + v.pending.push(board@) =~= (v.handed + v.pending).push(board@));
                assert(self.log@.subrange(v.start as int, self.log@.len() as int)
                    =~= old(self).log@.subrange(v.start as int, old(self).log@.len() as int).push(board@));
            }
            assert forall|sid: u64| #[trigger] self.views@.contains_key(sid) <==> {
                &&& old_views.contains_key(sid)
                &&& old_views[sid].pending.len() < self.capacity
            } by {
                if old_views.contains_key(sid) {
                    let a = choose|a: int| 0 <= a < old_sessions.len() && old_sessions[a].id == sid;
                }
            }
            assert forall|sid: u64| #[trigger] self.views@.contains_key(sid)
                implies self.views@[sid] == queued(old_views[sid], board@) by {
                let a = choose|a: int| 0 <= a < old_sessions.len() && old_sessions[a].id == sid;
            }
        }
    }

    /// Every open session has an id below `next_id`.
    pub proof fn lemma_ids_below_next(&self, sid: u64)
        requires
            self.wf(),
            self.sessions().contains_key(sid),
        ensures
            sid < self.next_id(),
    {
    }

    /// Every open session follows the log.
    pub proof fn lemma_sessions_follow_log(&self, sid: u64)
        requires
            self.wf(),
            self.sessions().contains_key(sid),
        ensures
            follows_log(self.sessions()[sid], self.log(), self.capacity()),
    {
    }
}

} // verus!
