use seer::SeerError;

#[test]
fn usage_is_exit_2() {
    assert_eq!(SeerError::Usage("bad args".into()).exit_code(), 2);
}

#[test]
fn runtime_is_exit_3() {
    assert_eq!(SeerError::Io("read failed".into()).exit_code(), 3);
    assert_eq!(SeerError::NotImplemented.exit_code(), 3);
}

#[test]
fn not_implemented_display() {
    assert_eq!(SeerError::NotImplemented.to_string(), "not implemented");
}

#[test]
fn usage_message_is_its_text() {
    assert_eq!(SeerError::Usage("bad args".into()).to_string(), "bad args");
}
