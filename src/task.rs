use vstd::prelude::*;

verus! {

/// Status of a task that has not been started.
pub const OPEN: i32 = 1;

/// Status of a task that is being worked on.
pub const IN_PROGRESS: i32 = 2;

/// Status of a finished task.
pub const DONE: i32 = 3;

/// A status names one of the three lanes.
pub open spec fn valid_status(status: i32) -> bool {
    OPEN <= status <= DONE
}

/// One unit of work on the board.
#[derive(Debug, PartialEq, Eq)]
pub struct Task {
    /// Opaque identifier, unique on its board and never changed.
    pub id: u128,
    pub name: String,
    /// Short tag of the person working on the task.
    pub assignee: String,
    /// Estimated effort in man-days.
    pub mandays: u32,
    /// Lane of the task: `OPEN`, `IN_PROGRESS` or `DONE`.
    pub status: i32,
}

impl Task {
    pub fn new(id: u128, name: String, assignee: String, mandays: u32, status: i32) -> (r: Task)
        ensures
            r == (Task { id, name, assignee, mandays, status }),
    {
        Task { id, name, assignee, mandays, status }
    }

    /// The same task in the lane `status`.
    pub open spec fn with_status(self, status: i32) -> Task {
        Task { status, ..self }
    }
}

impl Clone for Task {
    fn clone(&self) -> (r: Self)
        ensures
            r == *self,
    {
        Task {
            id: self.id,
            name: self.name.clone(),
            assignee: self.assignee.clone(),
            mandays: self.mandays,
            status: self.status,
        }
    }
}

} // verus!
