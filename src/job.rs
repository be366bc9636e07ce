//! The job record and the job status state machine.
use vstd::prelude::*;
use crate::executor::ExecutorExitCode;

verus! {

/// A job record as the store holds it. Times are UNIX timestamps, `-1` where
/// unset; `executor` is `null` where the job has no executor of its own.
#[derive(Debug)]
pub struct Commands {
    pub id: i32,
    pub user: String,
    pub command: String,
    pub executor: String,
    pub add_time: i64,
    /// 0 waiting, 9 running, 1 finished, 2 error, 3 cancelled.
    pub status: i32,
    pub start_time: i64,
    pub finish_time: i64,
}

/// The status of a job.
#[derive(Clone, Copy, Debug, PartialEq, Eq, Structural)]
pub enum Status {
    Waiting,
    Running,
    Finished,
    Errored,
    Cancelled,
}

/// The code under which the store keeps a status.
pub open spec fn status_code(s: Status) -> i32 {
    match s {
        Status::Waiting => 0,
        Status::Running => 9,
        Status::Finished => 1,
        Status::Errored => 2,
        Status::Cancelled => 3,
    }
}

/// The status that a stored code stands for, if any.
pub open spec fn status_of_code(c: i32) -> Option<Status> {
    if c == 0 {
        Some(Status::Waiting)
    } else if c == 9 {
        Some(Status::Running)
    } else if c == 1 {
        Some(Status::Finished)
    } else if c == 2 {
        Some(Status::Errored)
    } else if c == 3 {
        Some(Status::Cancelled)
    } else {
        None
    }
}

/// The legal moves of the state machine: a waiting job starts running or is
/// cancelled; a running job finishes, fails or is cancelled. The three end
/// states move nowhere.
pub open spec fn can_move(from: Status, to: Status) -> bool {
    match from {
        Status::Waiting => to == Status::Running || to == Status::Cancelled,
        Status::Running => to == Status::Finished || to == Status::Errored || to
            == Status::Cancelled,
        _ => false,
    }
}

/// The statuses that a job takes, one after another, from its creation.
pub open spec fn lawful_history(h: Seq<Status>) -> bool {
    &&& h.len() >= 1
    &&& h[0] == Status::Waiting
    &&& forall|i: int| 1 <= i < h.len() ==> can_move(h[i - 1], #[trigger] h[i])
}

/// The status that a job ends in, given how its process ended: success and
/// an unknown ending both count as finished.
pub open spec fn status_after(outcome: ExecutorExitCode) -> Status {
    match outcome {
        ExecutorExitCode::Success | ExecutorExitCode::Unknown => Status::Finished,
        ExecutorExitCode::Error => Status::Errored,
        ExecutorExitCode::Cancel => Status::Cancelled,
    }
}

impl Status {
    /// The code under which the store keeps this status.
    pub fn code(&self) -> (r: i32)
        ensures
            r == status_code(*self),
    {
        match self {
            Status::Waiting => 0,
            Status::Running => 9,
            Status::Finished => 1,
            Status::Errored => 2,
            Status::Cancelled => 3,
        }
    }

    /// The status that a stored code stands for; `None` for an unknown code.
    pub fn from_code(c: i32) -> (r: Option<Status>)
        ensures
            r == status_of_code(c),
    {
        if c == 0 {
            Some(Status::Waiting)
        } else if c == 9 {
            Some(Status::Running)
        } else if c == 1 {
            Some(Status::Finished)
        } else if c == 2 {
            Some(Status::Errored)
        } else if c == 3 {
            Some(Status::Cancelled)
        } else {
            None
        }
    }

    /// Whether the state machine allows a move from this status to `to`.
    pub fn can_move_to(&self, to: Status) -> (r: bool)
        ensures
            r == can_move(*self, to),
    {
        match self {
            Status::Waiting => to == Status::Running || to == Status::Cancelled,
            Status::Running => to == Status::Finished || to == Status::Errored || to
                == Status::Cancelled,
            _ => false,
        }
    }

    /// Whether no move leaves this status.
    pub fn is_terminal(&self) -> (r: bool)
        ensures
            r == (forall|to: Status| !can_move(*self, to)),
    {
        match self {
            Status::Waiting => {
                assert(can_move(*self, Status::Running));
                false
            },
            Status::Running => {
                assert(can_move(*self, Status::Finished));
                false
            },
            _ => true,
        }
    }
}

/// The status that a job ends in, given how its process ended.
pub fn finish_status(outcome: ExecutorExitCode) -> (r: Status)
    ensures
        r == status_after(outcome),
{
    match outcome {
        ExecutorExitCode::Success | ExecutorExitCode::Unknown => Status::Finished,
        ExecutorExitCode::Error => Status::Errored,
        ExecutorExitCode::Cancel => Status::Cancelled,
    }
}

/// The statuses of a job over time form one of five sequences: waiting
/// alone; waiting then cancelled; or waiting, running, and then finished,
/// errored or cancelled. No other sequence is possible. A job that is
/// running at the moment of observation is left out: its history so far is
/// waiting then running.
pub proof fn lemma_status_histories(h: Seq<Status>)
    requires
        lawful_history(h),
        h.last() != Status::Running,
    ensures
        h == seq![Status::Waiting] || h == seq![Status::Waiting, Status::Cancelled] || h
            == seq![Status::Waiting, Status::Running, Status::Finished] || h == seq![
            Status::Waiting,
            Status::Running,
            Status::Errored,
        ] || h == seq![Status::Waiting, Status::Running, Status::Cancelled],
{
    if h.len() == 1 {
        assert(h =~= seq![Status::Waiting]);
    } else {
        assert(can_move(h[0], h[1]));
        if h[1] == Status::Cancelled {
            if h.len() > 2 {
                assert(can_move(h[1], h[2]));
            }
            assert(h =~= seq![Status::Waiting, Status::Cancelled]);
        } else {
            assert(h[1] == Status::Running);
            assert(can_move(h[1], h[2]));
            if h.len() > 3 {
                assert(can_move(h[2], h[3]));
            }
            if h[2] == Status::Finished {
                assert(h =~= seq![Status::Waiting, Status::Running, Status::Finished]);
            } else if h[2] == Status::Errored {
                assert(h =~= seq![Status::Waiting, Status::Running, Status::Errored]);
            } else {
                assert(h =~= seq![Status::Waiting, Status::Running, Status::Cancelled]);
            }
        }
    }
}

} // verus!
