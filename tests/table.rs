use lucq::executor::ExecutorExitCode;
use lucq::scheduler::{poll_step, Step};
use lucq::table::{JobTable, TableError};

fn status_of(t: &JobTable, id: i32) -> i32 {
    t.job(t.find(id).unwrap()).status
}

fn running_count(t: &JobTable) -> usize {
    (0..t.len()).filter(|&i| t.job(i).status == 9).count()
}

fn three_jobs() -> JobTable {
    let mut t = JobTable::new();
    assert_eq!(t.insert("u", "echo one", "null", 10), Ok(1));
    assert_eq!(t.insert("u", "echo two", "null", 11), Ok(2));
    assert_eq!(t.insert("u", "echo three", "null", 12), Ok(3));
    t
}

#[test]
fn end_to_end_add_cancel_run_once() {
    let mut t = three_jobs();
    assert!(t.cancel(2));
    assert_eq!(t.dispatch(false, 100), Some(1));
    assert_eq!(status_of(&t, 1), 9);
    assert!(t.finish(1, ExecutorExitCode::Success, 105));
    assert_eq!(status_of(&t, 1), 1);
    assert_eq!(status_of(&t, 2), 3);
    assert_eq!(status_of(&t, 3), 0);
    let j1 = t.job(t.find(1).unwrap());
    assert_eq!((j1.start_time, j1.finish_time), (100, 105));
    assert_eq!(t.dispatch(false, 106), Some(3));
    assert!(t.finish(3, ExecutorExitCode::Error, 107));
    assert_eq!(status_of(&t, 3), 2);
    assert_eq!(status_of(&t, 2), 3);
    assert_eq!(t.dispatch(false, 108), None);
}

#[test]
fn only_one_job_runs_at_a_time() {
    let mut t = three_jobs();
    assert_eq!(t.dispatch(false, 1), Some(1));
    assert_eq!(t.dispatch(false, 2), None);
    assert!(!t.start(2, 2));
    assert_eq!(running_count(&t), 1);
    assert!(t.finish(1, ExecutorExitCode::Cancel, 3));
    assert_eq!(status_of(&t, 1), 3);
    assert!(t.start(2, 4));
    assert_eq!(running_count(&t), 1);
}

#[test]
fn suspended_dispatch_waits() {
    let mut t = three_jobs();
    assert_eq!(t.dispatch(true, 1), None);
    assert_eq!(status_of(&t, 1), 0);
    assert_eq!(poll_step(true, Some(1)), Step::Wait);
    assert_eq!(poll_step(false, None), Step::Wait);
    assert_eq!(poll_step(false, Some(4)), Step::Dispatch(4));
}

#[test]
fn cancel_leaves_running_and_ended_jobs() {
    let mut t = three_jobs();
    assert_eq!(t.dispatch(false, 1), Some(1));
    assert!(!t.cancel(1));
    assert!(t.finish(1, ExecutorExitCode::Unknown, 2));
    assert_eq!(status_of(&t, 1), 1);
    assert!(!t.cancel(1));
    assert!(!t.finish(1, ExecutorExitCode::Error, 3));
    assert_eq!(status_of(&t, 1), 1);
    assert!(!t.cancel(42));
}

#[test]
fn times_are_written_once() {
    let mut t = three_jobs();
    assert_eq!(t.dispatch(false, 50), Some(1));
    assert!(t.finish(1, ExecutorExitCode::Success, 60));
    let j = t.job(0);
    assert_eq!((j.start_time, j.finish_time), (50, 60));
}

#[test]
fn insert_with_id_keeps_order_and_refuses_taken_ids() {
    let mut t = JobTable::new();
    assert_eq!(t.insert_with_id(5, "u", "a", "null", 0), Ok(()));
    assert_eq!(t.insert_with_id(2, "u", "b", "null", 0), Ok(()));
    assert_eq!(t.insert_with_id(9, "u", "c", "null", 0), Ok(()));
    assert_eq!(t.ids(), vec![2, 5, 9]);
    assert_eq!(t.insert_with_id(5, "u", "d", "null", 0), Err(TableError::IdTaken));
    assert_eq!(t.insert_with_id(0, "u", "d", "null", 0), Err(TableError::InvalidId));
    assert_eq!(t.ids(), vec![2, 5, 9]);
    assert_eq!(t.insert("u", "e", "null", 0), Ok(10));
}

#[test]
fn insert_before_shifts_the_leading_run() {
    let mut t = JobTable::new();
    for id in [7, 8, 10, 12] {
        assert_eq!(t.insert_with_id(id, "u", "x", "null", 0), Ok(()));
    }
    assert_eq!(t.insert_before(7, "u", "new", "null", 1), Ok(()));
    assert_eq!(t.ids(), vec![7, 8, 9, 10, 12]);
    assert_eq!(t.job(0).command, "new");
    assert_eq!(t.insert_before(0, "u", "bad", "null", 1), Err(TableError::InvalidId));
    assert_eq!(t.insert_before(20, "u", "tail", "null", 1), Ok(()));
    assert_eq!(t.ids(), vec![7, 8, 9, 10, 12, 20]);
}

#[test]
fn full_table_refuses_new_ids() {
    let mut t = JobTable::new();
    assert_eq!(t.insert_with_id(i32::MAX, "u", "x", "null", 0), Ok(()));
    assert_eq!(t.insert("u", "y", "null", 0), Err(TableError::Full));
    assert_eq!(t.insert_before(3, "u", "y", "null", 0), Err(TableError::Full));
}

#[test]
fn remove_and_align_compact_the_ids() {
    let mut t = three_jobs();
    assert_eq!(t.insert("u", "echo four", "null", 13), Ok(4));
    assert!(t.remove_by_id(3));
    assert!(!t.remove_by_id(3));
    assert_eq!(t.ids(), vec![1, 2, 4]);
    t.align_ids();
    assert_eq!(t.ids(), vec![1, 2, 3]);
    assert_eq!(t.job(2).command, "echo four");
    t.align_ids();
    assert_eq!(t.ids(), vec![1, 2, 3]);
}
