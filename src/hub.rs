use vstd::prelude::*;
use crate::board::{has_id, moved, BoardError, Tasks};
use crate::bus::{queued, follows_log, ChangeBus, Delivery, SessionState, SessionView, advanced, state_of};
use crate::task::{Task, OPEN};

verus! {

/// The shared board with its change bus. Every mutation commits to the
/// board and publishes the resulting snapshot in one step, so snapshots are
/// published in commit order. Callers that share a hub across threads hold
/// it behind one lock.
pub struct TaskBoard {
    tasks: Tasks,
    bus: ChangeBus,
}

impl TaskBoard {
    /// The tasks on the board, in creation order.
    pub closed spec fn board(&self) -> Seq<Task> {
        self.tasks@
    }

    pub closed spec fn bus(&self) -> ChangeBus {
        self.bus
    }

    /// Every snapshot published: the board the hub was made with, then the
    /// board after each committed mutation.
    pub open spec fn log(&self) -> Seq<Seq<Task>> {
        self.bus().log()
    }

    /// The open observer sessions, by id.
    pub open spec fn sessions(&self) -> Map<u64, SessionView> {
        self.bus().sessions()
    }

    pub closed spec fn wf(&self) -> bool {
        &&& self.tasks.wf()
        &&& self.bus.wf()
        &&& self.bus.current() == self.tasks@
    }

    /// Whether the bus is as before, but for one more snapshot, `board`,
    /// queued for every session that had room and the other sessions closed.
    pub open spec fn published(pre: ChangeBus, post: ChangeBus, board: Seq<Task>) -> bool {
        &&& post.log() == pre.log().push(board)
        &&& post.capacity() == pre.capacity()
        &&& post.next_id() == pre.next_id()
        &&& forall|sid: u64| #[trigger] post.sessions().contains_key(sid) <==> {
            &&& pre.sessions().contains_key(sid)
            &&& pre.sessions()[sid].pending.len() < pre.capacity()
        }
        &&& forall|sid: u64| #[trigger] post.sessions().contains_key(sid)
            ==> post.sessions()[sid] == queued(pre.sessions()[sid], board)
    }

    /// No session closed before reopens: ids are never given out twice.
    pub open spec fn closed_stay_closed(pre: ChangeBus, post: ChangeBus) -> bool {
        &&& post.next_id() >= pre.next_id()
        &&& forall|sid: u64| sid < pre.next_id() && !pre.sessions().contains_key(sid)
            ==> !#[trigger] post.sessions().contains_key(sid)
    }

    /// A hub over `tasks`, with no sessions; each session queues at most
    /// `capacity` snapshots.
    pub fn new(tasks: Tasks, capacity: usize) -> (r: TaskBoard)
        requires
            tasks.wf(),
            capacity >= 1,
        ensures
            r.wf(),
            r.board() == tasks@,
            r.log() == seq![tasks@],
            r.sessions() == Map::<u64, SessionView>::empty(),
            r.bus().capacity() == capacity,
    {
        let bus = ChangeBus::new(capacity, &tasks);
        TaskBoard { tasks, bus }
    }

    /// A snapshot of the board.
    pub fn get_board(&self) -> (r: Tasks)
        requires
            self.wf(),
        ensures
            r@ == self.board(),
            r.wf(),
    {
        self.tasks.snapshot()
    }

    /// Creates a task in the first lane under a fresh id, and publishes the
    /// new board.
    pub fn create_task(&mut self, name: &str, assignee: &str, mandays: u32) -> (r: Task)
        requires
            old(self).wf(),
        ensures
            final(self).wf(),
            Self::closed_stay_closed(old(self).bus(), final(self).bus()),
            final(self).board() == old(self).board().push(r),
            !has_id(old(self).board(), r.id),
            r.name@ == name@,
            r.assignee@ == assignee@,
            r.mandays == mandays,
            r.status == OPEN,
            Self::published(old(self).bus(), final(self).bus(), final(self).board()),
    {
        let r = self.tasks.add_task(name, assignee, mandays);
        self.bus.publish(&self.tasks);
        r
    }

    /// Moves the task with id `id` by `delta` lanes, clamped to the lanes
    /// there are, and publishes the new board. An unknown id changes
    /// nothing and publishes nothing.
    pub fn move_task(&mut self, id: u128, delta: i32) -> (r: Result<u128, BoardError>)
        requires
            old(self).wf(),
        ensures
            final(self).wf(),
            Self::closed_stay_closed(old(self).bus(), final(self).bus()),
            match r {
                Ok(x) => {
                    &&& x == id
                    &&& has_id(old(self).board(), id)
                    &&& final(self).board() == moved(old(self).board(), id, delta)
                    &&& Self::published(old(self).bus(), final(self).bus(), final(self).board())
                },
                Err(e) => {
                    &&& e == BoardError::NotFound
                    &&& !has_id(old(self).board(), id)
                    &&& final(self).board() == old(self).board()
                    &&& final(self).bus() == old(self).bus()
                },
            },
    {
        let r = self.tasks.change_status(id, delta);
        if r.is_ok() {
            self.bus.publish(&self.tasks);
        }
        r
    }

    /// Opens an observer session. The first snapshot it gets is the board
    /// as it stands; one follows each later commit.
    pub fn subscribe(&mut self) -> (r: Option<u64>)
        requires
            old(self).wf(),
        ensures
            final(self).wf(),
            Self::closed_stay_closed(old(self).bus(), final(self).bus()),
            final(self).board() == old(self).board(),
            final(self).log() == old(self).log(),
            match r {
                Some(sid) => {
                    &&& sid == old(self).bus().next_id()
                    &&& !old(self).sessions().contains_key(sid)
                    &&& final(self).sessions() == old(self).sessions().insert(
                        sid,
                        SessionView {
                            start: (old(self).log().len() - 1) as nat,
                            handed: Seq::empty(),
                            pending: seq![old(self).board()],
                        },
                    )
                },
                None => {
                    &&& old(self).bus().next_id() == u64::MAX
                    &&& final(self).sessions() == old(self).sessions()
                },
            },
    {
        let r = self.bus.subscribe(&self.tasks);
        proof {
            if r.is_some() {
                if old(self).bus.sessions().contains_key(r.unwrap()) {
                    ChangeBus::lemma_ids_below_next(&old(self).bus, r.unwrap());
                }
            }
        }
        r
    }

    /// Hands out the oldest snapshot waiting for the session `sid`.
    pub fn next_delivery(&mut self, sid: u64) -> (r: Delivery)
        requires
            old(self).wf(),
        ensures
            final(self).wf(),
            Self::closed_stay_closed(old(self).bus(), final(self).bus()),
            final(self).board() == old(self).board(),
            final(self).log() == old(self).log(),
            !old(self).sessions().contains_key(sid) ==> r is Closed && final(self).sessions() == old(self).sessions(),
            old(self).sessions().contains_key(sid) && old(self).sessions()[sid].pending.len() == 0
                ==> r is Pending && final(self).sessions() == old(self).sessions(),
            old(self).sessions().contains_key(sid) && old(self).sessions()[sid].pending.len() > 0 ==> {
                &&& r matches Delivery::Snapshot(t) && t@ == old(self).sessions()[sid].pending[0]
                &&& final(self).sessions() == old(self).sessions().insert(sid, advanced(old(self).sessions()[sid]))
            },
    {
        self.bus.next_delivery(sid)
    }

    /// Closes the session `sid`; says whether it was open.
    pub fn unsubscribe(&mut self, sid: u64) -> (r: bool)
        requires
            old(self).wf(),
        ensures
            final(self).wf(),
            Self::closed_stay_closed(old(self).bus(), final(self).bus()),
            r == old(self).sessions().contains_key(sid),
            final(self).board() == old(self).board(),
            final(self).log() == old(self).log(),
            final(self).sessions() == old(self).sessions().remove(sid),
    {
        self.bus.unsubscribe(sid)
    }

    /// Where the session `sid` stands.
    pub fn session_state(&self, sid: u64) -> (r: SessionState)
        requires
            self.wf(),
        ensures
            r == state_of(self.sessions(), sid),
    {
        self.bus.state(sid)
    }

    /// Replay, then follow: an open session has been handed, and holds
    /// queued, the board as it stood when it subscribed and then the board
    /// after each commit since, each once and in commit order; the last of
    /// them is the board as it stands.
    pub proof fn lemma_replay_then_follow(&self, sid: u64)
        requires
            self.wf(),
            self.sessions().contains_key(sid),
        ensures
            self.log().last() == self.board(),
            follows_log(self.sessions()[sid], self.log(), self.bus().capacity()),
    {
        self.bus.lemma_sessions_follow_log(sid);
    }

    /// Two reads of a board that did not change in between agree.
    pub proof fn lemma_reads_agree(&self, first: Tasks, second: Tasks)
        requires
            first@ == self.board(),
            second@ == self.board(),
        ensures
            first@ == second@,
    {
    }
}

} // verus!
