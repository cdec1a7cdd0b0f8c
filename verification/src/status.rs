use vstd::prelude::*;

verus! {

/// Lifecycle stage of a task.
///
/// The stages are totally ordered, `Open < Blocked < Archived < Done`, and
/// that order is the primary sort key of the task comparator. The order is
/// witnessed by [`TaskStatus::code`], which ascends with the lifecycle.
#[derive(Debug, Clone, Copy, PartialEq, Eq, Structural)]
pub enum TaskStatus {
    Open,
    Blocked,
    Archived,
    Done,
}

impl TaskStatus {
    /// The integer code under which a status is persisted. The codes are
    /// deliberately sparse, so that future stages can be inserted between
    /// existing ones without renumbering; they double as the sort rank.
    pub open spec fn code(self) -> u8 {
        match self {
            TaskStatus::Open => 1,
            TaskStatus::Blocked => 253,
            TaskStatus::Archived => 254,
            TaskStatus::Done => 255,
        }
    }

    /// Encode a status as its persistence code.
    pub fn to_code(&self) -> (c: u8)
        ensures
            c == self.code(),
    {
        match self {
            TaskStatus::Open => 1,
            TaskStatus::Blocked => 253,
            TaskStatus::Archived => 254,
            TaskStatus::Done => 255,
        }
    }

    /// Lenient decode: any unrecognized code means `Open`, never an error.
    pub open spec fn spec_from_code(code: i32) -> TaskStatus {
        if code == 253 {
            TaskStatus::Blocked
        } else if code == 254 {
            TaskStatus::Archived
        } else if code == 255 {
            TaskStatus::Done
        } else {
            TaskStatus::Open
        }
    }

    /// Decode a persisted integer code, forgiving unknown values.
    pub fn from_code(code: i32) -> (s: TaskStatus)
        ensures
            s == TaskStatus::spec_from_code(code),
    {
        if code == 253 {
            TaskStatus::Blocked
        } else if code == 254 {
            TaskStatus::Archived
        } else if code == 255 {
            TaskStatus::Done
        } else {
            TaskStatus::Open
        }
    }
}

} // verus!
