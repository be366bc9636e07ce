use lucq::input::{id_range, in_dir, insertion_target, parse_id, quit_answer, script_of_command, AddError};

#[test]
fn ids_are_decimal() {
    assert_eq!(parse_id("12"), Some(12));
    assert_eq!(parse_id("+5"), Some(5));
    assert_eq!(parse_id("2147483647"), Some(i32::MAX));
    assert_eq!(parse_id("2147483648"), None);
    assert_eq!(parse_id("99999999999"), None);
    assert_eq!(parse_id(""), None);
    assert_eq!(parse_id("+"), None);
    assert_eq!(parse_id("1a"), None);
    assert_eq!(parse_id(" 1"), None);
}

#[test]
fn ranges_need_a_lower_start() {
    assert_eq!(id_range("1-5"), Some((1, 5)));
    assert_eq!(id_range("3"), Some((3, 3)));
    assert_eq!(id_range("5-1"), None);
    assert_eq!(id_range("4-4"), None);
    assert_eq!(id_range("1-2-3"), None);
    assert_eq!(id_range("a-b"), None);
    assert_eq!(id_range("-5"), None);
    assert_eq!(id_range("x"), None);
}

#[test]
fn targets_from_before_and_after() {
    assert_eq!(insertion_target(-1, -1), Ok(None));
    assert_eq!(insertion_target(3, -1), Ok(Some(3)));
    assert_eq!(insertion_target(-1, 3), Ok(Some(4)));
    assert_eq!(insertion_target(-1, 0), Ok(Some(1)));
    assert_eq!(insertion_target(2, 3), Err(AddError::BothTargets));
    assert_eq!(insertion_target(0, -1), Err(AddError::InvalidTarget));
    assert_eq!(insertion_target(-1, -5), Err(AddError::InvalidTarget));
    assert_eq!(insertion_target(-1, i32::MAX), Err(AddError::InvalidTarget));
}

#[test]
fn script_after_an_interpreter_is_its_second_token() {
    let (file, rest) = script_of_command("python3 run.py -a 1").unwrap();
    assert_eq!(file, "run.py");
    assert_eq!(rest, "run.py -a 1");
    let (file, rest) = script_of_command("bash  x.sh").unwrap();
    assert_eq!(file, "");
    assert_eq!(rest, " x.sh");
}

#[test]
fn script_without_interpreter_is_the_first_token() {
    let (file, rest) = script_of_command("run.sh arg").unwrap();
    assert_eq!(file, "run.sh");
    assert_eq!(rest, "run.sh arg");
    assert!(script_of_command("echo hi").is_none());
}

#[test]
fn command_is_prefixed_with_its_directory() {
    assert_eq!(in_dir("/home/u", "run.sh x"), "/home/u/run.sh x");
}

#[test]
fn quit_answers() {
    for a in ["Y", "y", "Yes", "YES", "yes", "Q", "q"] {
        assert!(quit_answer(a));
    }
    for a in ["n", "", "no", "yES", "quit"] {
        assert!(!quit_answer(a));
    }
}
