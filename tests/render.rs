use lucq::job::Commands;
use lucq::render::{detail_line, grep, head_line, list, status_mark, used_time};

fn row(id: i32, command: &str, executor: &str, status: i32, times: (i64, i64, i64)) -> Commands {
    Commands {
        id,
        user: "u".to_string(),
        command: command.to_string(),
        executor: executor.to_string(),
        add_time: times.0,
        status,
        start_time: times.1,
        finish_time: times.2,
    }
}

#[test]
fn used_time_is_hours_minutes_seconds() {
    assert_eq!(used_time(-1, -1, 500), "00:00:00");
    assert_eq!(used_time(100, 3825, 0), "01:02:05");
    assert_eq!(used_time(0, -1, 59), "00:00:59");
    assert_eq!(used_time(0, 360000, 0), "100:00:00");
    assert_eq!(used_time(100, 95, 0), "00:00:0-5");
}

#[test]
fn marks_for_each_status() {
    assert_eq!(status_mark(0, true), " x");
    assert_eq!(status_mark(1, true), " o");
    assert_eq!(status_mark(2, true), " e");
    assert_eq!(status_mark(3, true), " c");
    assert_eq!(status_mark(9, true), " r");
    assert_eq!(status_mark(0, false), "\u{1F610}");
    assert_eq!(status_mark(9, false), "\u{1F975}");
}

#[test]
fn job_lines() {
    let a = row(12, "echo hi", "null", 1, (5, 10, 70));
    assert_eq!(head_line(&a, true), " o | 12 | echo hi");
    assert_eq!(detail_line(&a, 0, "A", "S", "F"), "---| add(A) | start(S) | finish(F) | used(00:01:00)");
    let b = row(3, "x.py", "/usr/bin/python3", 0, (5, -1, -1));
    assert_eq!(head_line(&b, true), " x | 3 | x.py | /usr/bin/python3");
    assert_eq!(
        detail_line(&b, 0, "A", "S", "F"),
        "---| add(A) | start(00-00 00:00) | finish(00-00 00:00) | used(00:00:00)"
    );
}

#[test]
fn list_has_two_lines_per_job() {
    let rows = vec![row(1, "a", "null", 0, (1, -1, -1)), row(2, "b", "null", 9, (1, 2, -1))];
    let stamps = vec![
        ("t1".to_string(), "t2".to_string(), "t3".to_string()),
        ("u1".to_string(), "u2".to_string(), "u3".to_string()),
    ];
    let lines = list(&rows, true, 62, &stamps);
    assert_eq!(lines.len(), 2);
    assert_eq!(lines[1].0, " r | 2 | b");
    assert_eq!(lines[1].1, "---| add(u1) | start(u2) | finish(00-00 00:00) | used(00:01:00)");
}

#[test]
fn grep_finds_commands_holding_the_text() {
    let rows = vec![
        row(1, "python3 train.py", "null", 0, (1, -1, -1)),
        row(2, "echo hi", "null", 0, (1, -1, -1)),
        row(3, "bash train.sh", "null", 0, (1, -1, -1)),
    ];
    assert_eq!(grep(&rows, "train"), vec![0, 2]);
    assert_eq!(grep(&rows, "hi"), vec![1]);
    assert!(grep(&rows, "zzz").is_empty());
    assert_eq!(grep(&rows, ""), vec![0, 1, 2]);
}
