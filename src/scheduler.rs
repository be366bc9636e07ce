//! The decisions of the execution loop: whether to dispatch a job on this
//! poll, and the dispatch itself on the job table.
use vstd::prelude::*;
use crate::table::{index_of, lemma_index_unique, started, JobTable};

verus! {

/// What the execution loop does on one poll.
#[derive(Clone, Copy, Debug, PartialEq, Eq, Structural)]
pub enum Step {
    /// Nothing to run now: sleep for the poll interval.
    Wait,
    /// Run the job with this id.
    Dispatch(i32),
}

/// The step for a poll: dispatch the earliest waiting job unless dispatch is
/// suspended (the user is deciding whether to quit) or none waits.
pub open spec fn step_of(suspended: bool, waiting: Option<i32>) -> Step {
    if suspended {
        Step::Wait
    } else {
        match waiting {
            Some(id) => Step::Dispatch(id),
            None => Step::Wait,
        }
    }
}

/// Decides one poll of the execution loop from the suspend flag and the id of
/// the earliest waiting job, if any.
pub fn poll_step(suspended: bool, waiting: Option<i32>) -> (r: Step)
    ensures
        r == step_of(suspended, waiting),
{
    if suspended {
        Step::Wait
    } else {
        match waiting {
            Some(id) => Step::Dispatch(id),
            None => Step::Wait,
        }
    }
}

impl JobTable {
    /// One poll of the execution loop on the table: unless dispatch is
    /// suspended, the earliest waiting job starts running at `time`, where no
    /// job runs already. Returns the id of the job started, or `None` where
    /// nothing changed.
    pub fn dispatch(&mut self, suspended: bool, time: i64) -> (r: Option<i32>)
        requires
            old(self).wf(),
        ensures
            final(self).wf(),
            r is None <==> (suspended || (forall|i: int|
                0 <= i < old(self)@.len() ==> #[trigger] old(self)@[i].status != 0) || (exists|i: int|
                0 <= i < old(self)@.len() && #[trigger] old(self)@[i].status == 9)),
            r is None ==> final(self)@ == old(self)@,
            match r {
                Some(id) => exists|i: int|
                    index_of(old(self)@, id, i) && #[trigger] old(self)@[i].status == 0 && (forall|j: int|
                        0 <= j < i ==> #[trigger] old(self)@[j].status != 0) && final(self)@
                        == old(self)@.update(i, started(old(self)@[i], time)),
                None => true,
            },
    {
        let waiting = self.next_waiting();
        match poll_step(suspended, waiting) {
            Step::Wait => None,
            Step::Dispatch(id) => {
                let ghost before = self@;
                let ghost i = choose|i: int|
                    index_of(before, id, i) && #[trigger] before[i].status == 0 && forall|j: int|
                        0 <= j < i ==> #[trigger] before[j].status != 0;
                if self.start(id, time) {
                    proof {
                        let k = choose|k: int|
                            index_of(before, id, k) && self@ == before.update(
                                k,
                                started(#[trigger] before[k], time),
                            );
                        lemma_index_unique(before, id, i);
                        assert(k == i);
                    }
                    Some(id)
                } else {
                    None
                }
            },
        }
    }
}

} // verus!
