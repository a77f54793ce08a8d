use sandlock_core::deferred_commit::{
    exit_parts, read_decision, status_line, write_status, Control, ControlFault, Decision, PENDING,
};
use sandlock_core::run::{ExitStatus, RunResult};

fn result(exit_status: ExitStatus) -> RunResult {
    RunResult { exit_status, stdout: None, stderr: None }
}

#[test]
fn status_json_keeps_existing_shape_without_state() {
    let line = write_status(&result(ExitStatus::Code(7)), None);
    let value: serde_json::Value = serde_json::from_slice(&line).unwrap();
    let mut expected = serde_json::Map::new();
    expected.insert("exit_code".to_string(), serde_json::Value::from(7));
    assert_eq!(value, serde_json::Value::Object(expected));
}

#[test]
fn deferred_status_marks_branch_pending() {
    let line = write_status(&result(ExitStatus::Signal(9)), Some(PENDING));
    let value: serde_json::Value = serde_json::from_slice(&line).unwrap();
    let mut expected = serde_json::Map::new();
    expected.insert("state".to_string(), serde_json::Value::from("pending"));
    expected.insert("exit_code".to_string(), serde_json::Value::from(-1));
    expected.insert("signal".to_string(), serde_json::Value::from(9));
    assert_eq!(value, serde_json::Value::Object(expected));
}

#[test]
fn killed_commands_have_no_exit_code_and_no_signal() {
    assert_eq!(exit_parts(&result(ExitStatus::Killed)), (-1, None));
    assert_eq!(exit_parts(&result(ExitStatus::Timeout)), (-1, None));
    assert_eq!(exit_parts(&result(ExitStatus::Code(3))), (3, None));
    assert_eq!(exit_parts(&result(ExitStatus::Signal(15))), (-1, Some(15)));
    assert_eq!(write_status(&result(ExitStatus::Killed), None), b"{\"exit_code\":-1}\n".to_vec());
}

#[test]
fn decisions_ignore_white_space_around_the_word() {
    assert_eq!(read_decision("commit\n"), Ok(Decision::Commit));
    assert_eq!(read_decision("  abort\r\n"), Ok(Decision::Abort));
    assert_eq!(read_decision("\u{a0}commit\u{3000}"), Ok(Decision::Commit));
    assert_eq!(read_decision(""), Err(ControlFault::EndOfInput));
    assert_eq!(read_decision("\n"), Err(ControlFault::InvalidDecision));
    assert_eq!(read_decision("commit abort"), Err(ControlFault::InvalidDecision));
    assert_eq!(read_decision("Commit"), Err(ControlFault::InvalidDecision));
}

#[test]
fn control_descriptors_are_free_and_different() {
    assert!(Control::open(3, 4).is_ok());
    assert!(matches!(Control::open(2, 4), Err(ControlFault::DecisionFd)));
    assert!(matches!(Control::open(3, 2), Err(ControlFault::StatusFd)));
    assert!(matches!(Control::open(5, 5), Err(ControlFault::SameFd)));
}

#[test]
fn states_are_written_as_json_strings() {
    let state = "a\"b\\c\u{8}\t\n\u{c}\r\u{1f}\u{7f}\u{e9}";
    let line = write_status(&result(ExitStatus::Code(0)), Some(state));
    let mut expected = b"{\"state\":".to_vec();
    expected.extend_from_slice(serde_json::to_string(state).unwrap().as_bytes());
    expected.extend_from_slice(b",\"exit_code\":0}\n");
    assert_eq!(line, expected);
}

#[test]
fn states_stand_in_the_status_as_they_are() {
    let line = status_line(&result(ExitStatus::Signal(9)), Some(b"\"pending\""));
    assert_eq!(line, b"{\"state\":\"pending\",\"exit_code\":-1,\"signal\":9}\n".to_vec());
    assert_eq!(write_status(&result(ExitStatus::Signal(9)), Some(PENDING)), line);
    assert_eq!(status_line(&result(ExitStatus::Code(4)), None), b"{\"exit_code\":4}\n".to_vec());
}
