use vhost::rpcs::py_calls::{poll_outcome, MBCallStatus};

#[test]
fn missing_method_is_an_error() {
    assert_eq!(
        Err("ping does not exist!".to_string()),
        poll_outcome("ping", false, true, 5)
    );
}

#[test]
fn finished_call_is_ready_with_its_value() {
    assert_eq!(Ok((MBCallStatus::Ready, 42)), poll_outcome("ping", true, true, 42));
}

#[test]
fn unfinished_call_is_pending_with_zero() {
    assert_eq!(Ok((MBCallStatus::Pending, 0)), poll_outcome("ping", true, false, 42));
}
