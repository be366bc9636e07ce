use lucq::job::Status;

#[test]
fn status_codes_round_trip() {
    for s in [Status::Waiting, Status::Running, Status::Finished, Status::Errored, Status::Cancelled] {
        assert_eq!(Status::from_code(s.code()), Some(s));
    }
    assert_eq!(Status::Waiting.code(), 0);
    assert_eq!(Status::Running.code(), 9);
    assert_eq!(Status::Finished.code(), 1);
    assert_eq!(Status::Errored.code(), 2);
    assert_eq!(Status::Cancelled.code(), 3);
    assert_eq!(Status::from_code(4), None);
}

#[test]
fn only_lawful_moves_are_allowed() {
    assert!(Status::Waiting.can_move_to(Status::Running));
    assert!(Status::Waiting.can_move_to(Status::Cancelled));
    assert!(!Status::Waiting.can_move_to(Status::Finished));
    assert!(Status::Running.can_move_to(Status::Finished));
    assert!(Status::Running.can_move_to(Status::Errored));
    assert!(Status::Running.can_move_to(Status::Cancelled));
    assert!(!Status::Running.can_move_to(Status::Waiting));
    assert!(!Status::Finished.can_move_to(Status::Running));
    assert!(!Status::Cancelled.can_move_to(Status::Waiting));
}

#[test]
fn end_states_are_terminal() {
    assert!(Status::Finished.is_terminal());
    assert!(Status::Errored.is_terminal());
    assert!(Status::Cancelled.is_terminal());
    assert!(!Status::Waiting.is_terminal());
    assert!(!Status::Running.is_terminal());
}
