//! The job table: records kept in ascending id order, with at most one job
//! running at any time.
use vstd::prelude::*;
use crate::allocator::{
    align, canonical, gen_move_vec, is_leading_run, lemma_shifted_order, shifted,
    strictly_ascending,
};
use crate::executor::ExecutorExitCode;
use crate::job::{finish_status, status_after, status_code, status_of_code, Commands};

verus! {

/// Why the table refused a change.
#[derive(Clone, Copy, Debug, PartialEq, Eq, Structural)]
pub enum TableError {
    /// An id below 1.
    InvalidId,
    /// The id is already in use.
    IdTaken,
    /// No id above the highest one fits in an `i32`.
    Full,
}

/// The ids of the records, in table order.
pub open spec fn ids_of(js: Seq<Commands>) -> Seq<i32> {
    js.map_values(|c: Commands| c.id)
}

/// No two records are running.
pub open spec fn at_most_one_running(js: Seq<Commands>) -> bool {
    forall|i: int, j: int|
        0 <= i < js.len() && 0 <= j < js.len() && #[trigger] js[i].status == 9
            && #[trigger] js[j].status == 9 ==> i == j
}

/// The invariant of the table: ids positive and strictly ascending, every
/// status a known code, and at most one job running.
pub open spec fn table_wf(js: Seq<Commands>) -> bool {
    &&& strictly_ascending(ids_of(js))
    &&& forall|i: int| 0 <= i < js.len() ==> #[trigger] js[i].id >= 1
    &&& forall|i: int| 0 <= i < js.len() ==> (#[trigger] status_of_code(js[i].status)) is Some
    &&& at_most_one_running(js)
}

/// `c` is a freshly added job with the given fields: waiting, with no start
/// or finish time.
pub open spec fn is_new_job(
    c: Commands,
    id: i32,
    user: Seq<char>,
    command: Seq<char>,
    executor: Seq<char>,
    add_time: i64,
) -> bool {
    &&& c.id == id
    &&& c.user@ == user
    &&& c.command@ == command
    &&& c.executor@ == executor
    &&& c.add_time == add_time
    &&& c.status == 0
    &&& c.start_time == -1
    &&& c.finish_time == -1
}

/// `c` with another status.
pub open spec fn with_status(c: Commands, status: i32) -> Commands {
    Commands {
        id: c.id,
        user: c.user,
        command: c.command,
        executor: c.executor,
        add_time: c.add_time,
        status,
        start_time: c.start_time,
        finish_time: c.finish_time,
    }
}

/// `c` with another id.
pub open spec fn with_id(c: Commands, id: i32) -> Commands {
    Commands {
        id,
        user: c.user,
        command: c.command,
        executor: c.executor,
        add_time: c.add_time,
        status: c.status,
        start_time: c.start_time,
        finish_time: c.finish_time,
    }
}

/// `c` once it starts running at `time`; a start time already set is kept.
pub open spec fn started(c: Commands, time: i64) -> Commands {
    Commands {
        id: c.id,
        user: c.user,
        command: c.command,
        executor: c.executor,
        add_time: c.add_time,
        status: 9,
        start_time: if c.start_time == -1 {
            time
        } else {
            c.start_time
        },
        finish_time: c.finish_time,
    }
}

/// `c` once it ends in `status` at `time`; a finish time already set is kept.
pub open spec fn ended(c: Commands, status: i32, time: i64) -> Commands {
    Commands {
        id: c.id,
        user: c.user,
        command: c.command,
        executor: c.executor,
        add_time: c.add_time,
        status,
        start_time: c.start_time,
        finish_time: if c.finish_time == -1 {
            time
        } else {
            c.finish_time
        },
    }
}

/// The index of the record with id `id`.
pub open spec fn index_of(js: Seq<Commands>, id: i32, i: int) -> bool {
    0 <= i < js.len() && js[i].id == id
}

/// The job records, ordered by id.
pub struct JobTable {
    jobs: Vec<Commands>,
}

impl View for JobTable {
    type V = Seq<Commands>;

    closed spec fn view(&self) -> Seq<Commands> {
        self.jobs@
    }
}

impl JobTable {
    /// The table invariant.
    pub open spec fn wf(&self) -> bool {
        table_wf(self@)
    }

    /// An empty table.
    pub fn new() -> (r: JobTable)
        ensures
            r.wf(),
            r@.len() == 0,
    {
        JobTable { jobs: Vec::new() }
    }

    /// The number of records.
    pub fn len(&self) -> (r: usize)
        ensures
            r == self@.len(),
    {
        self.jobs.len()
    }

    /// The ids of the records, ascending.
    pub fn ids(&self) -> (r: Vec<i32>)
        ensures
            r@ == ids_of(self@),
    {
        let mut r: Vec<i32> = Vec::new();
        let mut i: usize = 0;
        while i < self.jobs.len()
            invariant
                0 <= i <= self@.len(),
                self@ == self.jobs@,
                r@ == ids_of(self@).subrange(0, i as int),
            decreases self@.len() - i,
        {
            r.push(self.jobs[i].id);
            i = i + 1;
            assert(r@ =~= ids_of(self@).subrange(0, i as int));
        }
        assert(r@ =~= ids_of(self@));
        r
    }

    /// The index of the record with id `id`, if there is one.
    pub fn find(&self, id: i32) -> (r: Option<usize>)
        requires
            self.wf(),
        ensures
            match r {
                Some(i) => index_of(self@, id, i as int),
                None => forall|i: int| 0 <= i < self@.len() ==> #[trigger] self@[i].id != id,
            },
    {
        let mut i: usize = 0;
        while i < self.jobs.len()
            invariant
                0 <= i <= self@.len(),
                self@ == self.jobs@,
                forall|j: int| 0 <= j < i ==> #[trigger] self@[j].id != id,
            decreases self@.len() - i,
        {
            if self.jobs[i].id == id {
                return Some(i);
            }
            i = i + 1;
        }
        None
    }

    /// The record at index `i`.
    pub fn job(&self, i: usize) -> (r: &Commands)
        requires
            i < self@.len(),
        ensures
            *r == self@[i as int],
    {
        &self.jobs[i]
    }

    /// Adds a waiting job at the end, under the id after the highest one
    /// (1 in an empty table), and returns that id. Fails with `Full`, and
    /// changes nothing, where the highest id is `i32::MAX`.
    pub fn insert(&mut self, user: &str, command: &str, executor: &str, add_time: i64) -> (r:
        Result<i32, TableError>)
        requires
            old(self).wf(),
        ensures
            final(self).wf(),
            (r is Err) <==> (old(self)@.len() > 0 && old(self)@.last().id == i32::MAX),
            match r {
                Ok(id) => {
                    &&& old(self)@.len() == 0 ==> id == 1
                    &&& old(self)@.len() > 0 ==> id == old(self)@.last().id + 1
                    &&& final(self)@.len() == old(self)@.len() + 1
                    &&& final(self)@.drop_last() == old(self)@
                    &&& is_new_job(final(self)@.last(), id, user@, command@, executor@, add_time)
                },
                Err(e) => e == TableError::Full && final(self)@ == old(self)@,
            },
    {
        let n = self.jobs.len();
        let id: i32 = if n == 0 {
            1
        } else {
            let last = self.jobs[n - 1].id;
            if last == i32::MAX {
                return Err(TableError::Full);
            }
            last + 1
        };
        let job = Commands {
            id,
            user: user.to_owned(),
            command: command.to_owned(),
            executor: executor.to_owned(),
            add_time,
            status: 0,
            start_time: -1,
            finish_time: -1,
        };
        let ghost before = self@;
        self.jobs.push(job);
        proof {
            assert(self@.drop_last() =~= before);
            let ids = ids_of(self@);
            assert forall|i: int, j: int| 0 <= i < j < ids.len() implies ids[i] < ids[j] by {
                if j == n {
                    if i < n - 1 {
                        assert(ids_of(before)[i] < ids_of(before)[n - 1]);
                    }
                } else {
                    assert(ids_of(before)[i] < ids_of(before)[j]);
                }
            }
        }
        Ok(id)
    }

    /// Adds a waiting job under the given id, keeping the id order. Fails with
    /// `InvalidId` for an id below 1 and with `IdTaken` for an id in use;
    /// then nothing changes.
    pub fn insert_with_id(
        &mut self,
        id: i32,
        user: &str,
        command: &str,
        executor: &str,
        add_time: i64,
    ) -> (r: Result<(), TableError>)
        requires
            old(self).wf(),
        ensures
            final(self).wf(),
            id < 1 ==> r == Err::<(), TableError>(TableError::InvalidId),
            id >= 1 && ids_of(old(self)@).contains(id) ==> r == Err::<(), TableError>(
                TableError::IdTaken,
            ),
            r is Err ==> final(self)@ == old(self)@,
            id >= 1 && !ids_of(old(self)@).contains(id) ==> r is Ok,
            r is Ok ==> exists|p: int|
                0 <= p <= old(self)@.len() && final(self)@.remove(p) == old(self)@ && is_new_job(
                    #[trigger] final(self)@[p],
                    id,
                    user@,
                    command@,
                    executor@,
                    add_time,
                ),
    {
        if id < 1 {
            return Err(TableError::InvalidId);
        }
        let n = self.jobs.len();
        let mut p: usize = 0;
        while p < n && self.jobs[p].id < id
            invariant
                n == self@.len(),
                self@ == self.jobs@,
                0 <= p <= n,
                forall|j: int| 0 <= j < p ==> #[trigger] self@[j].id < id,
            decreases n - p,
        {
            p = p + 1;
        }
        if p < n && self.jobs[p].id == id {
            assert(ids_of(self@)[p as int] == id);
            return Err(TableError::IdTaken);
        }
        let ghost before = self@;
        proof {
            assert forall|j: int| p <= j < n implies id < #[trigger] before[j].id by {
                if j > p {
                    assert(ids_of(before)[p as int] < ids_of(before)[j]);
                }
            }
            assert(!ids_of(before).contains(id)) by {
                assert forall|j: int| 0 <= j < n implies ids_of(before)[j] != id by {}
            }
        }
        let job = Commands {
            id,
            user: user.to_owned(),
            command: command.to_owned(),
            executor: executor.to_owned(),
            add_time,
            status: 0,
            start_time: -1,
            finish_time: -1,
        };
        self.jobs.insert(p, job);
        proof {
            let pp = p as int;
            assert(self@.remove(pp) =~= before);
            assert(is_new_job(self@[pp], id, user@, command@, executor@, add_time));
            assert forall|i: int| 0 <= i < self@.len() implies #[trigger] self@[i] == if i < pp {
                before[i]
            } else if i == pp {
                self@[pp]
            } else {
                before[i - 1]
            } by {}
            let ids = ids_of(self@);
            assert forall|i: int, j: int| 0 <= i < j < ids.len() implies ids[i] < ids[j] by {
                if i < pp && j > pp {
                    assert(ids_of(before)[i] < ids_of(before)[j - 1]);
                } else if i > pp {
                    assert(ids_of(before)[i - 1] < ids_of(before)[j - 1]);
                } else if j < pp {
                    assert(ids_of(before)[i] < ids_of(before)[j]);
                }
            }
            assert forall|i: int, j: int|
                0 <= i < self@.len() && 0 <= j < self@.len() && #[trigger] self@[i].status == 9
                    && #[trigger] self@[j].status == 9 implies i == j by {
                let bi = if i < pp {
                    i
                } else {
                    i - 1
                };
                let bj = if j < pp {
                    j
                } else {
                    j - 1
                };
                assert(before[bi].status == 9 && before[bj].status == 9);
            }
            assert forall|i: int| 0 <= i < self@.len() implies (#[trigger] status_of_code(
                self@[i].status,
            )) is Some by {
                if i < pp {
                    assert(status_of_code(before[i].status) is Some);
                } else if i > pp {
                    assert(status_of_code(before[i - 1].status) is Some);
                }
            }
            assert forall|i: int| 0 <= i < self@.len() implies #[trigger] self@[i].id >= 1 by {
                if i < pp {
                    assert(before[i].id >= 1);
                } else if i > pp {
                    assert(before[i - 1].id >= 1);
                }
            }
        }
        Ok(())
    }

    /// Removes the record with id `id`, if there is one, and says whether
    /// there was.
    pub fn remove_by_id(&mut self, id: i32) -> (r: bool)
        requires
            old(self).wf(),
        ensures
            final(self).wf(),
            r == ids_of(old(self)@).contains(id),
            r ==> exists|i: int|
                index_of(old(self)@, id, i) && final(self)@ == #[trigger] old(self)@.remove(i),
            !r ==> final(self)@ == old(self)@,
    {
        match self.find(id) {
            Some(i) => {
                let ghost before = self@;
                assert(ids_of(before)[i as int] == id);
                self.jobs.remove(i);
                proof {
                    let ii = i as int;
                    assert forall|k: int| 0 <= k < self@.len() implies #[trigger] self@[k] == if k
                        < ii {
                        before[k]
                    } else {
                        before[k + 1]
                    } by {}
                    let ids = ids_of(self@);
                    assert forall|a: int, b: int| 0 <= a < b < ids.len() implies ids[a]
                        < ids[b] by {
                        let ba = if a < ii {
                            a
                        } else {
                            a + 1
                        };
                        let bb = if b < ii {
                            b
                        } else {
                            b + 1
                        };
                        assert(ids_of(before)[ba] < ids_of(before)[bb]);
                    }
                    assert forall|a: int, b: int|
                        0 <= a < self@.len() && 0 <= b < self@.len() && #[trigger] self@[a].status
                            == 9 && #[trigger] self@[b].status == 9 implies a == b by {
                        let ba = if a < ii {
                            a
                        } else {
                            a + 1
                        };
                        let bb = if b < ii {
                            b
                        } else {
                            b + 1
                        };
                        assert(before[ba].status == 9 && before[bb].status == 9);
                    }
                    assert forall|k: int| 0 <= k < self@.len() implies (#[trigger] status_of_code(
                        self@[k].status,
                    )) is Some by {
                        if k >= ii {
                            assert(status_of_code(before[k + 1].status) is Some);
                        }
                    }
                    assert forall|k: int| 0 <= k < self@.len() implies #[trigger] self@[k].id
                        >= 1 by {
                        if k >= ii {
                            assert(before[k + 1].id >= 1);
                        }
                    }
                }
                true
            },
            None => {
                assert(!ids_of(self@).contains(id)) by {
                    assert forall|j: int| 0 <= j < self@.len() implies ids_of(self@)[j] != id by {
                        assert(self@[j].id != id);
                    }
                }
                false
            },
        }
    }

    /// Cancels the job with id `id` if it is waiting, and says whether it
    /// was. A job that is running or has ended is left as it is.
    pub fn cancel(&mut self, id: i32) -> (r: bool)
        requires
            old(self).wf(),
        ensures
            final(self).wf(),
            r == exists|i: int| index_of(old(self)@, id, i) && #[trigger] old(self)@[i].status == 0,
            r ==> exists|i: int|
                index_of(old(self)@, id, i) && final(self)@ == old(self)@.update(
                    i,
                    with_status(#[trigger] old(self)@[i], 3),
                ),
            !r ==> final(self)@ == old(self)@,
    {
        match self.find(id) {
            Some(i) => {
                if self.jobs[i].status != 0 {
                    proof {
                        lemma_index_unique(self@, id, i as int);
                    }
                    return false;
                }
                let ghost before = self@;
                self.jobs[i].status = 3;
                proof {
                    assert(self@ =~= before.update(i as int, with_status(before[i as int], 3)));
                    lemma_update_keeps_wf(before, i as int, self@[i as int]);
                }
                true
            },
            None => false,
        }
    }

    /// The id of the earliest waiting job: the lowest id among the waiting
    /// jobs, or `None` when no job waits.
    pub fn next_waiting(&self) -> (r: Option<i32>)
        requires
            self.wf(),
        ensures
            match r {
                Some(id) => exists|i: int|
                    index_of(self@, id, i) && #[trigger] self@[i].status == 0 && forall|j: int|
                        0 <= j < i ==> #[trigger] self@[j].status != 0,
                None => forall|i: int| 0 <= i < self@.len() ==> #[trigger] self@[i].status != 0,
            },
    {
        let mut i: usize = 0;
        while i < self.jobs.len()
            invariant
                0 <= i <= self@.len(),
                self@ == self.jobs@,
                forall|j: int| 0 <= j < i ==> #[trigger] self@[j].status != 0,
            decreases self@.len() - i,
        {
            if self.jobs[i].status == 0 {
                assert(index_of(self@, self@[i as int].id, i as int));
                return Some(self.jobs[i].id);
            }
            i = i + 1;
        }
        None
    }

    /// Whether some job is running.
    pub fn has_running(&self) -> (r: bool)
        ensures
            r == exists|i: int| 0 <= i < self@.len() && #[trigger] self@[i].status == 9,
    {
        let mut i: usize = 0;
        while i < self.jobs.len()
            invariant
                0 <= i <= self@.len(),
                self@ == self.jobs@,
                forall|j: int| 0 <= j < i ==> #[trigger] self@[j].status != 9,
            decreases self@.len() - i,
        {
            if self.jobs[i].status == 9 {
                return true;
            }
            i = i + 1;
        }
        false
    }

    /// Marks the job with id `id` as running from `time`, where it is waiting
    /// and no other job runs; says whether it did. The start time is written
    /// only where none was set.
    pub fn start(&mut self, id: i32, time: i64) -> (r: bool)
        requires
            old(self).wf(),
        ensures
            final(self).wf(),
            r == ((exists|i: int| index_of(old(self)@, id, i) && #[trigger] old(self)@[i].status
                == 0) && forall|j: int| 0 <= j < old(self)@.len() ==> #[trigger] old(self)@[j].status
                != 9),
            r ==> exists|i: int|
                index_of(old(self)@, id, i) && final(self)@ == old(self)@.update(
                    i,
                    started(#[trigger] old(self)@[i], time),
                ),
            !r ==> final(self)@ == old(self)@,
    {
        if self.has_running() {
            return false;
        }
        match self.find(id) {
            Some(i) => {
                if self.jobs[i].status != 0 {
                    proof {
                        lemma_index_unique(self@, id, i as int);
                    }
                    return false;
                }
                let ghost before = self@;
                self.jobs[i].status = 9;
                if self.jobs[i].start_time == -1 {
                    self.jobs[i].start_time = time;
                }
                proof {
                    assert(self@ =~= before.update(i as int, started(before[i as int], time)));
                    lemma_update_keeps_wf(before, i as int, self@[i as int]);
                }
                true
            },
            None => false,
        }
    }

    /// Ends the running job with id `id` in the status that `outcome` maps
    /// to, at `time`; says whether it did, which it does only for a running
    /// job. The finish time is written only where none was set.
    pub fn finish(&mut self, id: i32, outcome: ExecutorExitCode, time: i64) -> (r: bool)
        requires
            old(self).wf(),
        ensures
            final(self).wf(),
            r == exists|i: int| index_of(old(self)@, id, i) && #[trigger] old(self)@[i].status == 9,
            r ==> exists|i: int|
                index_of(old(self)@, id, i) && final(self)@ == old(self)@.update(
                    i,
                    ended(#[trigger] old(self)@[i], status_code(status_after(outcome)), time),
                ),
            !r ==> final(self)@ == old(self)@,
    {
        match self.find(id) {
            Some(i) => {
                if self.jobs[i].status != 9 {
                    proof {
                        lemma_index_unique(self@, id, i as int);
                    }
                    return false;
                }
                let ghost before = self@;
                let code = finish_status(outcome).code();
                self.jobs[i].status = code;
                if self.jobs[i].finish_time == -1 {
                    self.jobs[i].finish_time = time;
                }
                proof {
                    assert(self@ =~= before.update(
                        i as int,
                        ended(before[i as int], status_code(status_after(outcome)), time),
                    ));
                    lemma_update_keeps_wf(before, i as int, self@[i as int]);
                }
                true
            },
            None => false,
        }
    }
}

/// `after` is `before` with a slot opened at index `p` for `target`: the
/// records before `p` hold lower ids and stay; from `p` on, the leading run of
/// `k` consecutive ids moves up by one, the rest keep their ids, and all move
/// one place on.
pub open spec fn opened_slot(
    before: Seq<Commands>,
    after: Seq<Commands>,
    p: int,
    k: int,
    target: i32,
) -> bool {
    &&& 0 <= p <= before.len()
    &&& forall|i: int| 0 <= i < p ==> #[trigger] before[i].id < target
    &&& forall|i: int| p <= i < before.len() ==> #[trigger] before[i].id >= target
    &&& is_leading_run(ids_of(before).subrange(p, before.len() as int), k)
    &&& after.len() == before.len() + 1
    &&& forall|i: int| 0 <= i < p ==> #[trigger] after[i] == before[i]
    &&& forall|i: int|
        p < i <= before.len() ==> #[trigger] after[i] == with_id(
            before[i - 1],
            if i <= p + k {
                (before[i - 1].id + 1) as i32
            } else {
                before[i - 1].id
            },
        )
}

impl JobTable {
    /// Adds a waiting job under id `target`, first moving up by one the
    /// leading run of consecutive ids from `target` on, so that the slot is
    /// free and the order of the other jobs is kept. Fails with `InvalidId`
    /// for a target below 1, and with `Full` where the highest id is
    /// `i32::MAX`; then nothing changes.
    #[verifier::rlimit(40)]
    pub fn insert_before(
        &mut self,
        target: i32,
        user: &str,
        command: &str,
        executor: &str,
        add_time: i64,
    ) -> (r: Result<(), TableError>)
        requires
            old(self).wf(),
        ensures
            final(self).wf(),
            target < 1 ==> r == Err::<(), TableError>(TableError::InvalidId),
            target >= 1 && old(self)@.len() > 0 && old(self)@.last().id == i32::MAX ==> r == Err::<
                (),
                TableError,
            >(TableError::Full),
            target >= 1 && !(old(self)@.len() > 0 && old(self)@.last().id == i32::MAX) ==> r is Ok,
            r is Err ==> final(self)@ == old(self)@,
            r is Ok ==> exists|p: int, k: int|
                #[trigger] opened_slot(old(self)@, final(self)@, p, k, target) && is_new_job(
                    final(self)@[p],
                    target,
                    user@,
                    command@,
                    executor@,
                    add_time,
                ),
    {
        if target < 1 {
            return Err(TableError::InvalidId);
        }
        let n = self.jobs.len();
        if n > 0 && self.jobs[n - 1].id == i32::MAX {
            return Err(TableError::Full);
        }
        let ghost before = self@;
        let ghost bids = ids_of(before);
        proof {
            assert forall|i: int| 0 <= i < n implies #[trigger] before[i].id < i32::MAX by {
                if i < n - 1 {
                    assert(bids[i] < bids[n - 1]);
                }
            }
        }
        let mut p: usize = 0;
        while p < n && self.jobs[p].id < target
            invariant
                n == self@.len(),
                self@ == self.jobs@,
                0 <= p <= n,
                forall|j: int| 0 <= j < p ==> #[trigger] self@[j].id < target,
            decreases n - p,
        {
            p = p + 1;
        }
        let pp = p;
        proof {
            assert forall|i: int| pp <= i < n implies #[trigger] before[i].id >= target by {
                if i > pp {
                    assert(bids[pp as int] < bids[i]);
                }
            }
        }
        let mut rest: Vec<i32> = Vec::new();
        let mut i: usize = p;
        while i < n
            invariant
                n == self@.len(),
                self@ == self.jobs@,
                self@ == before,
                bids == ids_of(before),
                pp <= i <= n,
                rest@ == bids.subrange(pp as int, i as int),
            decreases n - i,
        {
            rest.push(self.jobs[i].id);
            i = i + 1;
            assert(rest@ =~= bids.subrange(pp as int, i as int));
        }
        let ghost sids = bids.subrange(pp as int, n as int);
        proof {
            assert forall|a: int, b: int| 0 <= a < b < sids.len() implies sids[a] < sids[b] by {
                assert(bids[pp + a] < bids[pp + b]);
            }
            assert forall|a: int| 0 <= a < sids.len() implies target <= #[trigger] sids[a]
                < i32::MAX by {
                assert(before[pp + a].id >= target);
                assert(before[pp + a].id < i32::MAX);
            }
        }
        assert(rest@ == sids);
        let (olds, _news) = gen_move_vec(&rest);
        let k = olds.len();
        let mut j: usize = 0;
        while j < k
            invariant
                n == self@.len(),
                self@ == self.jobs@,
                bids == ids_of(before),
                sids == bids.subrange(pp as int, n as int),
                is_leading_run(sids, k as int),
                p == pp,
                before.len() == n,
                pp + k <= n,
                0 <= j <= k,
                forall|a: int| 0 <= a < n ==> #[trigger] before[a].id < i32::MAX,
                forall|a: int|
                    0 <= a < n ==> #[trigger] self@[a] == if pp + k - j <= a < pp + k {
                        with_id(before[a], (before[a].id + 1) as i32)
                    } else {
                        before[a]
                    },
            decreases k - j,
        {
            let idx = p + k - 1 - j;
            let ghost cur = self@;
            assert(self@[idx as int] == before[idx as int]);
            let v = self.jobs[idx].id;
            self.jobs[idx].id = v + 1;
            j = j + 1;
            proof {
                assert forall|a: int| 0 <= a < n implies #[trigger] self@[a] == if pp + k - j <= a
                    < pp + k {
                    with_id(before[a], (before[a].id + 1) as i32)
                } else {
                    before[a]
                } by {
                    if a != idx {
                        assert(self@[a] == cur[a]);
                    }
                }
            }
        }
        let job = Commands {
            id: target,
            user: user.to_owned(),
            command: command.to_owned(),
            executor: executor.to_owned(),
            add_time,
            status: 0,
            start_time: -1,
            finish_time: -1,
        };
        let ghost moved = self@;
        self.jobs.insert(p, job);
        proof {
            let kk = k as int;
            let ppi = pp as int;
            let t = self@;
            assert(is_new_job(t[ppi], target, user@, command@, executor@, add_time));
            lemma_shifted_order(sids, target, kk);
            let sh = shifted(sids, 0, kk);
            assert forall|a: int| 0 <= a < t.len() implies #[trigger] t[a] == if a < ppi {
                before[a]
            } else if a == ppi {
                t[ppi]
            } else {
                moved[a - 1]
            } by {}
            assert forall|a: int| ppi <= a < n implies #[trigger] t[a + 1].id == sh[a - ppi] by {
                assert(t[a + 1] == moved[a]);
                assert(sids[a - ppi] == before[a].id);
            }
            assert(opened_slot(before, t, ppi, kk, target)) by {
                assert forall|a: int| ppi < a <= n implies #[trigger] t[a] == with_id(
                    before[a - 1],
                    if a <= ppi + kk {
                        (before[a - 1].id + 1) as i32
                    } else {
                        before[a - 1].id
                    },
                ) by {
                    assert(t[a] == moved[a - 1]);
                    if a > ppi + kk {
                        assert(with_id(before[a - 1], before[a - 1].id) == before[a - 1]);
                    }
                }
            }
            let ids = ids_of(t);
            assert forall|a: int, b: int| 0 <= a < b < ids.len() implies ids[a] < ids[b] by {
                if b < ppi {
                    assert(bids[a] < bids[b]);
                } else if a < ppi {
                    assert(before[a].id < target);
                    if b > ppi {
                        assert(target < sh[b - 1 - ppi]);
                    }
                } else if a == ppi {
                    assert(target < sh[b - 1 - ppi]);
                } else {
                    assert(sh[a - 1 - ppi] < sh[b - 1 - ppi]);
                }
            }
            assert forall|a: int, b: int|
                0 <= a < t.len() && 0 <= b < t.len() && #[trigger] t[a].status == 9
                    && #[trigger] t[b].status == 9 implies a == b by {
                let ba = if a < ppi {
                    a
                } else {
                    a - 1
                };
                let bb = if b < ppi {
                    b
                } else {
                    b - 1
                };
                if a != ppi && b != ppi {
                    assert(before[ba].status == 9 && before[bb].status == 9);
                }
            }
            assert forall|a: int| 0 <= a < t.len() implies (#[trigger] status_of_code(
                t[a].status,
            )) is Some by {
                if a < ppi {
                    assert(status_of_code(before[a].status) is Some);
                } else if a > ppi {
                    assert(status_of_code(before[a - 1].status) is Some);
                }
            }
            assert forall|a: int| 0 <= a < t.len() implies #[trigger] t[a].id >= 1 by {
                if a < ppi {
                    assert(before[a].id >= 1);
                } else if a > ppi {
                    assert(target < sh[a - 1 - ppi]);
                }
            }
        }
        Ok(())
    }

    /// Compacts the ids to `1..n`, keeping the order of the jobs: each record
    /// takes its index plus one as id, and only records whose id differs are
    /// touched.
    pub fn align_ids(&mut self)
        requires
            old(self).wf(),
            old(self)@.len() < i32::MAX,
        ensures
            final(self).wf(),
            ids_of(final(self)@) == canonical(old(self)@.len()),
            final(self)@.len() == old(self)@.len(),
            forall|i: int|
                0 <= i < old(self)@.len() ==> #[trigger] final(self)@[i] == with_id(
                    old(self)@[i],
                    (i + 1) as i32,
                ),
    {
        let ids = self.ids();
        let plan = align(&ids);
        let n = self.jobs.len();
        let f = n - plan.len();
        let ghost before = self@;
        proof {
            assert forall|a: int| 0 <= a < f implies #[trigger] before[a] == with_id(
                before[a],
                (a + 1) as i32,
            ) by {
                assert(ids@[a] == a + 1);
            }
        }
        let mut j: usize = 0;
        while j < plan.len()
            invariant
                n == self@.len(),
                self@ == self.jobs@,
                f == n - plan@.len(),
                n < i32::MAX,
                0 <= j <= plan@.len(),
                forall|a: int| 0 <= a < plan@.len() ==> (#[trigger] plan@[a]).1 == f + a + 1,
                forall|a: int|
                    0 <= a < n ==> #[trigger] self@[a] == if a < f + j {
                        with_id(before[a], (a + 1) as i32)
                    } else {
                        before[a]
                    },
                forall|a: int| 0 <= a < f ==> #[trigger] before[a] == with_id(before[a], (a + 1) as i32),
            decreases plan@.len() - j,
        {
            let ghost cur = self@;
            let idx = f + j;
            self.jobs[idx].id = plan[j].1;
            j = j + 1;
            proof {
                assert forall|a: int| 0 <= a < n implies #[trigger] self@[a] == if a < f + j {
                    with_id(before[a], (a + 1) as i32)
                } else {
                    before[a]
                } by {
                    if a != idx {
                        assert(self@[a] == cur[a]);
                    }
                }
            }
        }
        proof {
            let t = self@;
            assert forall|a: int| 0 <= a < n implies #[trigger] t[a] == with_id(
                before[a],
                (a + 1) as i32,
            ) by {}
            assert(ids_of(t) =~= canonical(n as nat));
            assert forall|a: int, b: int|
                0 <= a < t.len() && 0 <= b < t.len() && #[trigger] t[a].status == 9
                    && #[trigger] t[b].status == 9 implies a == b by {
                assert(before[a].status == 9 && before[b].status == 9);
            }
            assert forall|a: int| 0 <= a < t.len() implies (#[trigger] status_of_code(
                t[a].status,
            )) is Some by {
                assert(status_of_code(before[a].status) is Some);
            }
        }
    }
}

/// In a well-formed table an id sits at one index at most.
pub(crate) proof fn lemma_index_unique(js: Seq<Commands>, id: i32, i: int)
    requires
        table_wf(js),
        index_of(js, id, i),
    ensures
        forall|j: int| index_of(js, id, j) ==> j == i,
{
    assert forall|j: int| index_of(js, id, j) implies j == i by {
        if j < i {
            assert(ids_of(js)[j] < ids_of(js)[i]);
        } else if j > i {
            assert(ids_of(js)[i] < ids_of(js)[j]);
        }
    }
}

/// Replacing a record by one with the same id and a known status keeps the
/// table well formed, where the new record runs only if no other does.
proof fn lemma_update_keeps_wf(js: Seq<Commands>, i: int, c: Commands)
    requires
        table_wf(js),
        0 <= i < js.len(),
        c.id == js[i].id,
        status_of_code(c.status) is Some,
        c.status == 9 ==> forall|j: int| 0 <= j < js.len() && j != i ==> #[trigger] js[j].status
            != 9,
    ensures
        table_wf(js.update(i, c)),
{
    let t = js.update(i, c);
    assert(ids_of(t) =~= ids_of(js));
    assert forall|a: int, b: int|
        0 <= a < t.len() && 0 <= b < t.len() && #[trigger] t[a].status == 9 && #[trigger] t[b].status
            == 9 implies a == b by {
        if a != i && b != i {
            assert(js[a].status == 9 && js[b].status == 9);
        }
    }
    assert forall|a: int| 0 <= a < t.len() implies #[trigger] t[a].id >= 1 by {
        assert(js[a].id >= 1);
    }
    assert forall|a: int| 0 <= a < t.len() implies (#[trigger] status_of_code(t[a].status)) is Some by {
        if a != i {
            assert(status_of_code(js[a].status) is Some);
        }
    }
}

/// Whatever the table has gone through, at most one of its jobs is running.
pub proof fn lemma_single_runner(t: &JobTable)
    requires
        t.wf(),
    ensures
        forall|i: int, j: int|
            0 <= i < t@.len() && 0 <= j < t@.len() && t@[i].status == 9 && t@[j].status == 9 ==> i
                == j,
{
}

} // verus!
