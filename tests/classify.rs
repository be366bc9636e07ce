use lucq::classify::{chars_of, command_judge, CommandType};

#[test]
fn shell_script_is_shell() {
    assert_eq!(command_judge("run.sh arg"), CommandType::Shell);
}

#[test]
fn python_script_is_python() {
    assert_eq!(command_judge("script.py -a 1"), CommandType::Python);
}

#[test]
fn object_file_is_binary() {
    assert_eq!(command_judge("prog.o"), CommandType::Binary);
    assert_eq!(command_judge("tool.exe --x"), CommandType::Binary);
}

#[test]
fn plain_command_has_no_dot() {
    assert_eq!(command_judge("echo hi"), CommandType::Command);
    assert_eq!(command_judge(""), CommandType::Command);
}

#[test]
fn unknown_extension_is_unsupported() {
    assert_eq!(command_judge("data.csv"), CommandType::Unsupported);
}

#[test]
fn first_deciding_token_wins() {
    assert_eq!(command_judge("data.csv run.py"), CommandType::Python);
    assert_eq!(command_judge("run.py x.sh"), CommandType::Python);
    assert_eq!(command_judge("a.py.sh"), CommandType::Shell);
}

#[test]
fn chars_of_keeps_every_char() {
    assert_eq!(chars_of("añb"), vec!['a', 'ñ', 'b']);
}
