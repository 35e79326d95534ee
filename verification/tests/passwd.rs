use peiosutils::passwd::{
    after, connect_message, failure_message, unknown_outcome, ConnectFault, Failure, Next, Reply, CHANGED,
    NAME_REFUSAL,
};

fn finished(n: Next) -> Result<(), String> {
    match n {
        Next::Finished(r) => r,
        Next::Answer => panic!("expected the conversation to end"),
    }
}

#[test]
fn a_request_is_answered_and_only_changed_is_success() {
    assert!(matches!(after(Reply::Request), Next::Answer));
    assert_eq!(finished(after(Reply::Changed)), Ok(()));
}

#[test]
fn a_denial_is_reported_with_its_reason() {
    let r = finished(after(Reply::Denied {
        reason: "Authentication failed.".to_string(),
        denial: "AuthenticationFailed".to_string(),
    }));
    assert_eq!(r, Err("Authentication failed. The password is unchanged.".to_string()));
    let r = finished(after(Reply::Denied { reason: String::new(), denial: "PolicyViolation".to_string() }));
    assert_eq!(r, Err("PolicyViolation The password is unchanged.".to_string()));
}

#[test]
fn a_grant_is_not_a_change() {
    let r = finished(after(Reply::Other(7)));
    assert_eq!(
        r,
        Err("unexpected message 0x0007 from the authority; whether the password changed is not known".to_string())
    );
    let r = finished(after(Reply::Other(0x1_2345)));
    assert_eq!(
        r,
        Err("unexpected message 0x12345 from the authority; whether the password changed is not known".to_string())
    );
}

#[test]
fn an_authority_that_goes_away_leaves_the_outcome_unknown() {
    let m = failure_message(Failure::Lost("connection reset".to_string()));
    assert_eq!(m, "lost the authority: connection reset; whether the password changed is not known");
    assert!(failure_message(Failure::Malformed("short".to_string())).ends_with("is not known"));
    assert!(failure_message(Failure::MalformedDenial("short".to_string())).ends_with("is not known"));
    assert_eq!(
        failure_message(Failure::Unreadable("end of input".to_string())),
        "could not read the password: end of input"
    );
    assert_eq!(
        failure_message(Failure::Unreachable("broken pipe".to_string())),
        "could not reach the authority: broken pipe"
    );
    assert_eq!(unknown_outcome("x"), "x; whether the password changed is not known");
}

#[test]
fn connection_failures_are_told_in_terms_of_the_authority() {
    assert_eq!(
        connect_message("/run/logon.sock", ConnectFault::Absent),
        "cannot reach the authority at /run/logon.sock; is authd running?"
    );
    assert_eq!(
        connect_message("/run/logon.sock", ConnectFault::Forbidden),
        "permission denied connecting to /run/logon.sock; this machine does not let you change your own password"
    );
    assert_eq!(
        connect_message("/run/logon.sock", ConnectFault::Other("timed out".to_string())),
        "cannot reach the authority at /run/logon.sock: timed out"
    );
    assert!(NAME_REFUSAL.contains("lps password"));
    assert_eq!(CHANGED, "password changed");
}
