use yata_reader::session::{
    before_read, handshake_target, on_message, requested_scope, Incoming, Step, Pid, ReadScope, RequestReason, SessionReason, Target, Version,
    WireTarget,
};

const OURS: Version = Version { major: 1, minor: 0 };

#[test]
fn a_handshake_without_a_version_or_a_target_is_a_protocol_error() {
    let no_version = handshake_target(None, true, OURS, Some(WireTarget::Discover))
        .expect_err("no version");
    assert_eq!(no_version.reason, SessionReason::ProtocolError);
    assert_eq!(no_version.message, "the handshake has no version");
    assert_eq!(no_version.os_error, None);
    let no_target = handshake_target(Some(OURS), true, OURS, None).expect_err("no target");
    assert_eq!(no_target.reason, SessionReason::ProtocolError);
    assert_eq!(no_target.message, "the handshake names no target");
    let pid_zero =
        handshake_target(Some(OURS), true, OURS, Some(WireTarget::Pid(0))).expect_err("pid 0");
    assert_eq!(pid_zero.reason, SessionReason::ProtocolError);
    assert_eq!(pid_zero.message, "the handshake names pid 0");
}

#[test]
fn another_major_version_is_refused() {
    let theirs = Version { major: 2, minor: 3 };
    let f = handshake_target(Some(theirs), false, OURS, Some(WireTarget::Discover))
        .expect_err("refused");
    assert_eq!(f.reason, SessionReason::ProtocolUnsupported);
    assert_eq!(f.message, "the daemon speaks 2.3, this reader 1.0");
    assert_eq!(f.os_error, None);
}

#[test]
fn an_accepted_handshake_names_its_target() {
    assert_eq!(
        handshake_target(Some(OURS), true, OURS, Some(WireTarget::Discover)),
        Ok(Target::Discover)
    );
    assert_eq!(
        handshake_target(Some(OURS), true, OURS, Some(WireTarget::Pid(4242))),
        Ok(Target::Pid(nonzero(4242)))
    );
}

#[test]
fn a_target_goes_to_the_wire_and_back() {
    for t in [Target::Discover, Target::Pid(nonzero(7))] {
        assert_eq!(Target::of(Some(t.wire())), Ok(t));
    }
    assert_eq!(Target::of(None), Err("the handshake names no target"));
    assert_eq!(
        Target::of(Some(WireTarget::Pid(0))),
        Err("the handshake names pid 0")
    );
}

#[test]
fn a_scope_the_reader_does_not_know_is_answered_unsupported_before_any_read() {
    let f = before_read(false, Err(0)).expect_err("unsupported");
    assert_eq!(f.reason, RequestReason::ScopeUnsupported);
    assert_eq!(f.message, "this reader does not read scope 0");
    let f = before_read(false, Err(-12)).expect_err("unsupported");
    assert_eq!(f.message, "this reader does not read scope -12");
}

#[test]
fn a_request_cancelled_before_it_starts_is_answered_cancelled() {
    for scope in [Ok(ReadScope::Souls), Err(5)] {
        let f = before_read(true, scope).expect_err("cancelled");
        assert_eq!(f.reason, RequestReason::Cancelled);
        assert_eq!(f.message, "cancelled before it started");
    }
    assert_eq!(before_read(false, Ok(ReadScope::Souls)), Ok(ReadScope::Souls));
}

#[test]
fn only_the_souls_scope_is_read_and_an_unstated_one_comes_back_as_itself() {
    assert_eq!(requested_scope(1, 1), Ok(ReadScope::Souls));
    assert_eq!(requested_scope(0, 1), Err(0));
    assert_eq!(requested_scope(9, 1), Err(9));
    let f = before_read(false, requested_scope(0, 1)).expect_err("unsupported");
    assert_eq!(f.reason, RequestReason::ScopeUnsupported);
}

fn nonzero(n: u32) -> Pid {
    Pid::new(n).expect("nonzero")
}

#[test]
fn a_pid_is_never_0() {
    assert_eq!(Pid::new(0), None);
    assert_eq!(Pid::new(7).map(Pid::get), Some(7));
}

#[test]
fn the_first_message_must_be_the_handshake_and_later_ones_are_served() {
    assert_eq!(on_message(false, Incoming::Handshake, "Handshake"), Step::Attach);
    assert_eq!(on_message(false, Incoming::Closed, "the end of the stream"), Step::End);
    match on_message(false, Incoming::ReadRequest, "ReadRequest") {
        Step::Fail(f) => {
            assert_eq!(f.reason, SessionReason::ProtocolError);
            assert_eq!(f.message, "expected Handshake, got ReadRequest");
        }
        other => panic!("{other:?}"),
    }
    assert_eq!(on_message(true, Incoming::ReadRequest, "ReadRequest"), Step::Read);
    assert_eq!(on_message(true, Incoming::Cancel, "Cancel"), Step::Cancel);
    assert_eq!(on_message(true, Incoming::Shutdown, "Shutdown"), Step::End);
    assert_eq!(on_message(true, Incoming::Closed, "the end of the stream"), Step::End);
    match on_message(true, Incoming::Handshake, "Handshake") {
        Step::Fail(f) => assert_eq!(f.message, "unexpected Handshake"),
        other => panic!("{other:?}"),
    }
}
