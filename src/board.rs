use vstd::prelude::*;
use vstd::set_lib::{lemma_int_range, lemma_len_subset, set_int_range};
use crate::task::{Task, OPEN, IN_PROGRESS, DONE, valid_status};

verus! {

/// No two tasks share an id.
pub open spec fn ids_unique(s: Seq<Task>) -> bool {
    forall|i: int, j: int| 0 <= i < s.len() && 0 <= j < s.len() && i != j ==> s[i].id != s[j].id
}

/// The invariant of a board: every status names a lane and ids are unique.
pub open spec fn board_wf(s: Seq<Task>) -> bool {
    &&& ids_unique(s)
    &&& forall|i: int| 0 <= i < s.len() ==> valid_status(#[trigger] s[i].status)
}

/// Some task of `s` has the id `id`.
pub open spec fn has_id(s: Seq<Task>, id: u128) -> bool {
    exists|i: int| 0 <= i < s.len() && s[i].id == id
}

/// The test for membership of the lane `status`.
pub open spec fn in_lane(status: i32) -> spec_fn(Task) -> bool {
    |t: Task| t.status == status
}

/// The tasks of `s` in the lane `status`, in board order.
pub open spec fn lane(s: Seq<Task>, status: i32) -> Seq<Task> {
    s.filter(in_lane(status))
}

/// `t` holds the given fields, whatever its id.
pub open spec fn has_fields(t: Task, name: Seq<char>, assignee: Seq<char>, mandays: u32, status: i32) -> bool {
    &&& t.name@ == name
    &&& t.assignee@ == assignee
    &&& t.mandays == mandays
    &&& t.status == status
}

/// The status after a move by `delta`: the moved value where it names a
/// lane, else the status unchanged (a move past the first or last lane is
/// clamped, not refused).
pub open spec fn stepped(status: i32, delta: i32) -> i32 {
    let candidate = status + delta;
    if 1 <= candidate <= 3 {
        candidate as i32
    } else {
        status
    }
}

/// The board `s` after the task with id `id` moved by `delta`.
pub open spec fn moved(s: Seq<Task>, id: u128, delta: i32) -> Seq<Task> {
    s.map_values(|t: Task| if t.id == id { t.with_status(stepped(t.status, delta)) } else { t })
}

/// The id that a new task gets on board `s` when `candidate` was drawn:
/// `candidate` where it is unused, else the smallest unused id.
pub open spec fn is_fresh_choice(s: Seq<Task>, candidate: u128, id: u128) -> bool {
    &&& !has_id(s, id)
    &&& !has_id(s, candidate) ==> id == candidate
    &&& has_id(s, candidate) ==> forall|k: u128| k < id ==> has_id(s, k)
}

/// Why a mutation of the board did not apply.
#[derive(Debug, Clone, Copy, PartialEq, Eq, Structural)]
pub enum BoardError {
    /// No task has the id given.
    NotFound,
    /// The effort given is not a number of man-days.
    Validation,
}

/// Relies on uuid::Uuid::new_v4: a random version-4 uuid, as its 128 bits.
/// Nothing about the value is promised beyond the version and variant bits
/// that new_v4 sets. It panics only where the operating system cannot
/// supply random bytes.
#[verifier::external_body]
fn draw_task_id() -> (r: u128)
    ensures
        r & 0xF000C000000000000000u128 == 0x40008000000000000000u128,
{
    uuid::Uuid::new_v4().as_u128()
}

/// The board: tasks in the order in which they were created.
#[derive(Debug, PartialEq, Eq)]
pub struct Tasks(Vec<Task>);

impl View for Tasks {
    type V = Seq<Task>;

    closed spec fn view(&self) -> Seq<Task> {
        self.0@
    }
}

impl Tasks {
    pub open spec fn wf(&self) -> bool {
        board_wf(self@)
    }

    /// A board with no tasks.
    pub fn empty() -> (r: Tasks)
        ensures
            r@ == Seq::<Task>::empty(),
            r.wf(),
    {
        Tasks(Vec::new())
    }

    /// The demonstration board: four tasks, two open, one in progress and
    /// one done.
    pub fn new() -> (r: Tasks)
        ensures
            r.wf(),
            r@.len() == 4,
            has_fields(r@[0], "Task 1"@, "\u{1F431}"@, 3, OPEN),
            has_fields(r@[1], "Task 2"@, "\u{1F436}"@, 2, OPEN),
            has_fields(r@[2], "Task 3"@, "\u{1F431}"@, 1, IN_PROGRESS),
            has_fields(r@[3], "Task 4"@, "\u{1F439}"@, 3, DONE),
    {
        let mut board = Tasks::empty();
        let a = board.insert_new(draw_task_id(), "Task 1", "\u{1F431}", 3, OPEN);
        let b = board.insert_new(draw_task_id(), "Task 2", "\u{1F436}", 2, OPEN);
        let c = board.insert_new(draw_task_id(), "Task 3", "\u{1F431}", 1, IN_PROGRESS);
        let d = board.insert_new(draw_task_id(), "Task 4", "\u{1F439}", 3, DONE);
        assert(board@ == seq![a, b, c, d]);
        board
    }

    /// An immutable copy of the board as it is now.
    pub fn snapshot(&self) -> (r: Tasks)
        ensures
            r@ == self@,
    {
        self.clone()
    }

    /// The tasks in the lane `status`, in board order.
    pub fn filtered(&self, status: i32) -> (r: Vec<Task>)
        ensures
            r@ == lane(self@, status),
    {
        let mut r: Vec<Task> = Vec::new();
        let mut i: usize = 0;
        while i < self.0.len()
            invariant
                i <= self@.len(),
                r@ == self@.subrange(0, i as int).filter(in_lane(status)),
            decreases self@.len() - i,
        {
            proof {
                assert(self@.subrange(0, i + 1) == self@.subrange(0, i as int).push(self@[i as int]));
                self@.subrange(0, i as int).lemma_filter_push(self@[i as int], in_lane(status));
            }
            if self.0[i].status == status {
                r.push(self.0[i].clone());
            }
            i = i + 1;
        }
        assert(self@.subrange(0, self@.len() as int) == self@);
        r
    }

    pub fn len(&self) -> (r: usize)
        ensures
            r == self@.len(),
    {
        self.0.len()
    }

    /// The task at position `i` in board order.
    pub fn get(&self, i: usize) -> (r: &Task)
        requires
            i < self@.len(),
        ensures
            *r == self@[i as int],
    {
        &self.0[i]
    }

    /// The position of the task with id `id`, if there is one.
    pub fn position(&self, id: u128) -> (r: Option<usize>)
        ensures
            match r {
                Some(i) => i < self@.len() && self@[i as int].id == id,
                None => !has_id(self@, id),
            },
    {
        let mut i: usize = 0;
        while i < self.0.len()
            invariant
                i <= self@.len(),
                forall|k: int| 0 <= k < i ==> self@[k].id != id,
            decreases self@.len() - i,
        {
            if self.0[i].id == id {
                return Some(i);
            }
            i = i + 1;
        }
        None
    }

    /// Whether some task has the id `id`.
    pub fn contains_id(&self, id: u128) -> (r: bool)
        ensures
            r == has_id(self@, id),
    {
        self.position(id).is_some()
    }

    /// An id that no task on the board has: `candidate` where it is unused,
    /// else the smallest unused id.
    pub fn fresh_id(&self, candidate: u128) -> (r: u128)
        ensures
            is_fresh_choice(self@, candidate, r),
    {
        if !self.contains_id(candidate) {
            return candidate;
        }
        let n = self.len();
        let mut next: u128 = 0;
        while self.contains_id(next)
            invariant
                n == self@.len(),
                next <= self@.len(),
                forall|k: u128| k < next ==> has_id(self@, k),
            decreases self@.len() - next,
        {
            proof {
                lemma_used_ids_fit(self@, next as int + 1);
            }
            next = next + 1;
        }
        next
    }

    /// Appends a new task in the lane `status`, with the id that
    /// `is_fresh_choice` gives for `candidate`.
    fn insert_new(&mut self, candidate: u128, name: &str, assignee: &str, mandays: u32, status: i32) -> (r: Task)
        requires
            old(self).wf(),
            valid_status(status),
        ensures
            final(self).wf(),
            final(self)@ == old(self)@.push(r),
            is_fresh_choice(old(self)@, candidate, r.id),
            has_fields(r, name@, assignee@, mandays, status),
    {
        let id = self.fresh_id(candidate);
        let task = Task::new(id, name.to_owned(), assignee.to_owned(), mandays, status);
        let r = task.clone();
        self.0.push(task);
        proof {
            assert(self@.last() == r);
            assert forall|i: int| 0 <= i < old(self)@.len() implies self@[i].id != r.id by {
                assert(self@[i] == old(self)@[i]);
            }
        }
        r
    }

    /// Appends a new task in the first lane, with the id that
    /// `is_fresh_choice` gives for `candidate`.
    pub fn add_task_with_id(&mut self, candidate: u128, name: &str, assignee: &str, mandays: u32) -> (r: Task)
        requires
            old(self).wf(),
        ensures
            final(self).wf(),
            final(self)@ == old(self)@.push(r),
            is_fresh_choice(old(self)@, candidate, r.id),
            r.name@ == name@,
            r.assignee@ == assignee@,
            r.mandays == mandays,
            r.status == OPEN,
    {
        self.insert_new(candidate, name, assignee, mandays, OPEN)
    }

    /// Creates a task in the first lane under a fresh random id and appends
    /// it to the board.
    pub fn add_task(&mut self, name: &str, assignee: &str, mandays: u32) -> (r: Task)
        requires
            old(self).wf(),
        ensures
            final(self).wf(),
            final(self)@ == old(self)@.push(r),
            !has_id(old(self)@, r.id),
            r.name@ == name@,
            r.assignee@ == assignee@,
            r.mandays == mandays,
            r.status == OPEN,
    {
        let candidate = draw_task_id();
        self.add_task_with_id(candidate, name, assignee, mandays)
    }

    /// Moves the task with id `id` by `delta` lanes. A move past the first
    /// or last lane leaves the status as it was; the id is returned either
    /// way. An unknown id leaves the board unchanged.
    pub fn change_status(&mut self, id: u128, delta: i32) -> (r: Result<u128, BoardError>)
        requires
            old(self).wf(),
        ensures
            final(self).wf(),
            match r {
                Ok(x) => x == id && has_id(old(self)@, id) && final(self)@ == moved(old(self)@, id, delta),
                Err(e) => e == BoardError::NotFound && !has_id(old(self)@, id) && final(self)@ == old(self)@,
            },
    {
        match self.position(id) {
            None => Err(BoardError::NotFound),
            Some(i) => {
                let mut task = self.0[i].clone();
                let candidate: i64 = task.status as i64 + delta as i64;
                if 1 <= candidate && candidate <= 3 {
                    task.status = candidate as i32;
                }
                self.0.set(i, task);
                proof {
                    assert(self@ =~= moved(old(self)@, id, delta)) by {
                        assert forall|k: int| 0 <= k < self@.len() implies self@[k] == moved(old(self)@, id, delta)[k] by {
                            if k != i {
                                assert(old(self)@[k].id != id);
                            }
                        }
                    }
                }
                Ok(id)
            },
        }
    }
}

impl Clone for Tasks {
    fn clone(&self) -> (r: Self)
        ensures
            r@ == self@,
    {
        let r = Tasks(self.0.clone());
        assert(r.0@ =~= self.0@);
        r
    }
}

/// Ids below `n` cannot all be in use on a board with fewer than `n` tasks.
proof fn lemma_used_ids_fit(s: Seq<Task>, n: int)
    requires
        0 <= n <= u128::MAX,
        forall|k: u128| k < n ==> has_id(s, k),
    ensures
        n <= s.len(),
{
    let ids = s.map_values(|t: Task| t.id as int);
    assert(set_int_range(0, n).subset_of(ids.to_set())) by {
        assert forall|k: int| set_int_range(0, n).contains(k) implies ids.to_set().contains(k) by {
            assert(has_id(s, k as u128));
            let j = choose|j: int| 0 <= j < s.len() && s[j].id == k as u128;
            assert(ids[j] == k);
        }
    }
    lemma_int_range(0, n);
    ids.lemma_cardinality_of_set();
    vstd::seq_lib::seq_to_set_is_finite(ids);
    lemma_len_subset(set_int_range(0, n), ids.to_set());
}

/// Tasks created one after another on an empty board, each appended under
/// an id that the board did not hold, are on the board once each and in
/// the order of creation: as many tasks as creations, no two with one id.
pub proof fn lemma_creations_keep_ids_unique(boards: Seq<Seq<Task>>, made: Seq<Task>)
    requires
        boards.len() == made.len() + 1,
        boards[0] == Seq::<Task>::empty(),
        forall|k: int| 0 <= k < made.len() ==> {
            &&& boards[k + 1] == boards[k].push(#[trigger] made[k])
            &&& !has_id(boards[k], made[k].id)
        },
    ensures
        boards.last() == made,
        boards.last().len() == made.len(),
        ids_unique(boards.last()),
{
    lemma_creation_prefix(boards, made, made.len() as int);
    assert(made.subrange(0, made.len() as int) =~= made);
}

proof fn lemma_creation_prefix(boards: Seq<Seq<Task>>, made: Seq<Task>, n: int)
    requires
        0 <= n <= made.len(),
        boards.len() == made.len() + 1,
        boards[0] == Seq::<Task>::empty(),
        forall|k: int| 0 <= k < made.len() ==> {
            &&& boards[k + 1] == boards[k].push(#[trigger] made[k])
            &&& !has_id(boards[k], made[k].id)
        },
    ensures
        boards[n] == made.subrange(0, n),
        ids_unique(boards[n]),
    decreases n,
{
    if n == 0 {
        assert(made.subrange(0, 0) =~= Seq::<Task>::empty());
    } else {
        lemma_creation_prefix(boards, made, n - 1);
        let prev = boards[n - 1];
        let t = made[n - 1];
        assert(boards[n] == prev.push(t));
        assert(made.subrange(0, n) =~= made.subrange(0, n - 1).push(t));
        assert forall|i: int, j: int| 0 <= i < boards[n].len() && 0 <= j < boards[n].len() && i != j
            implies boards[n][i].id != boards[n][j].id by {
            if i == n - 1 {
                assert(boards[n][j] == prev[j]);
            } else if j == n - 1 {
                assert(boards[n][i] == prev[i]);
            }
        }
    }
}

/// A move never takes a task out of the lanes: from the first lane a move
/// back, and from the last lane a move on, leave it where it was.
pub proof fn lemma_moves_clamp(s: Seq<Task>, i: int, delta: i32)
    requires
        board_wf(s),
        0 <= i < s.len(),
    ensures
        moved(s, s[i].id, delta).len() == s.len(),
        valid_status(moved(s, s[i].id, delta)[i].status),
        s[i].status == OPEN && delta == -1 ==> moved(s, s[i].id, delta)[i].status == OPEN,
        s[i].status == DONE && delta == 1 ==> moved(s, s[i].id, delta)[i].status == DONE,
{
    assert(valid_status(s[i].status));
}

/// The test for a task with the given fields, whatever its id.
pub open spec fn matching(name: Seq<char>, assignee: Seq<char>, mandays: u32, status: i32) -> spec_fn(Task) -> bool {
    |t: Task| has_fields(t, name, assignee, mandays, status)
}

/// A task appended to a board is read back from it with its fields: one
/// more task with those fields than before, so exactly one on a board that
/// was empty.
pub proof fn lemma_round_trip(before: Seq<Task>, t: Task, name: Seq<char>, assignee: Seq<char>, mandays: u32)
    requires
        has_fields(t, name, assignee, mandays, OPEN),
    ensures
        before.push(t).filter(matching(name, assignee, mandays, OPEN)).len()
            == before.filter(matching(name, assignee, mandays, OPEN)).len() + 1,
        before.len() == 0 ==> before.push(t).filter(matching(name, assignee, mandays, OPEN)) == seq![t],
{
    before.lemma_filter_push(t, matching(name, assignee, mandays, OPEN));
    if before.len() == 0 {
        reveal(Seq::filter);
        assert(before.filter(matching(name, assignee, mandays, OPEN)) =~= Seq::<Task>::empty());
        assert(Seq::<Task>::empty().push(t) =~= seq![t]);
    }
}

} // verus!
