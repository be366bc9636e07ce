use lucq::executor::{exit_outcome, split_command, split_text, Executor, ExecutorExitCode, Launch};
use lucq::job::{finish_status, Status};

fn outcome_status(code: Option<i32>, signal: Option<i32>) -> Status {
    finish_status(exit_outcome(code, signal))
}

#[test]
fn exit_zero_is_finished() {
    assert!(matches!(exit_outcome(Some(0), None), ExecutorExitCode::Success));
    assert_eq!(outcome_status(Some(0), None), Status::Finished);
}

#[test]
fn exit_one_is_errored() {
    assert!(matches!(exit_outcome(Some(1), None), ExecutorExitCode::Error));
    assert_eq!(outcome_status(Some(1), None), Status::Errored);
}

#[test]
fn interrupt_or_exit_two_is_cancelled() {
    assert_eq!(outcome_status(None, Some(2)), Status::Cancelled);
    assert_eq!(outcome_status(Some(2), None), Status::Cancelled);
}

#[test]
fn other_exit_is_finished_as_unknown() {
    assert!(matches!(exit_outcome(Some(137), None), ExecutorExitCode::Unknown));
    assert_eq!(outcome_status(Some(137), None), Status::Finished);
    assert_eq!(outcome_status(None, Some(9)), Status::Finished);
    assert_eq!(outcome_status(None, None), Status::Finished);
}

#[test]
fn shell_script_runs_under_bash() {
    let e = Executor::new("run.sh arg", "null");
    assert_eq!(e.launch(), Launch::Bash);
    assert_eq!(e.argv("/bin/bash"), vec!["/bin/bash", "run.sh", "arg"]);
}

#[test]
fn python_script_runs_under_python3() {
    let e = Executor::new("test.py -a 1", "null");
    assert_eq!(e.launch(), Launch::Python3);
    assert_eq!(e.argv("/usr/bin/python3"), vec!["/usr/bin/python3", "test.py", "-a", "1"]);
}

#[test]
fn given_executor_is_used_verbatim() {
    let e = Executor::new("test.py -a 1", "/opt/py/bin/python");
    assert_eq!(e.launch(), Launch::Override);
    assert_eq!(e.argv(""), vec!["/opt/py/bin/python", "test.py", "-a", "1"]);
}

#[test]
fn plain_command_runs_directly() {
    let e = Executor::new("echo hi", "null");
    assert_eq!(e.launch(), Launch::Direct);
    assert_eq!(e.argv(""), vec!["echo", "hi"]);
    let b = Executor::new("prog.o 3", "null");
    assert_eq!(b.launch(), Launch::Direct);
    assert_eq!(b.argv(""), vec!["prog.o", "3"]);
}

#[test]
fn launcher_equal_to_first_token_is_not_repeated() {
    let e = Executor::new("prog arg", "prog");
    assert_eq!(e.argv(""), vec!["prog", "arg"]);
}

#[test]
fn split_keeps_empty_tokens() {
    assert_eq!(split_command("a  b"), vec!["a", "", "b"]);
    assert_eq!(split_command(""), vec![""]);
    assert_eq!(split_text("1-5", '-'), vec!["1", "5"]);
}
