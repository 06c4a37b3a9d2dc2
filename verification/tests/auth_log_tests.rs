use lksu::auth::{
    denial_notice, has_recent_auth, retry_notice, timestamp_path, AuthEvent, AuthSession, AuthStep,
};
use lksu::log::{format_entry, log_file_name, Entry, Outcome};

#[test]
fn session_grants_on_correct_password() {
    let (mut s, first) = AuthSession::begin(3);
    assert_eq!(first, AuthStep::Prompt { attempt: 1 });
    assert!(!s.finished());
    assert_eq!(s.respond(AuthEvent::Rejected), AuthStep::Retry { failed: 1, max: 3 });
    assert_eq!(s.respond(AuthEvent::Rejected), AuthStep::Retry { failed: 2, max: 3 });
    assert_eq!(s.respond(AuthEvent::Accepted), AuthStep::Granted);
    assert!(s.finished());
}

#[test]
fn session_denies_after_max_wrong_passwords() {
    let (mut s, _) = AuthSession::begin(3);
    assert_eq!(s.respond(AuthEvent::Rejected), AuthStep::Retry { failed: 1, max: 3 });
    assert_eq!(s.respond(AuthEvent::Rejected), AuthStep::Retry { failed: 2, max: 3 });
    assert_eq!(s.respond(AuthEvent::Rejected), AuthStep::Denied { attempts: 3 });
    assert!(s.finished());
}

#[test]
fn session_single_attempt() {
    let (mut s, first) = AuthSession::begin(1);
    assert_eq!(first, AuthStep::Prompt { attempt: 1 });
    assert_eq!(s.respond(AuthEvent::Rejected), AuthStep::Denied { attempts: 1 });
}

#[test]
fn session_with_no_attempts_is_denied_at_once() {
    let (s, first) = AuthSession::begin(0);
    assert_eq!(first, AuthStep::Denied { attempts: 0 });
    assert!(s.finished());
}

#[test]
fn session_aborts_on_failures() {
    let (mut s, _) = AuthSession::begin(3);
    assert_eq!(s.respond(AuthEvent::ReadFailed), AuthStep::Aborted { failed: 0 });
    assert!(s.finished());
    let (mut t, _) = AuthSession::begin(3);
    assert_eq!(t.respond(AuthEvent::Rejected), AuthStep::Retry { failed: 1, max: 3 });
    assert_eq!(t.respond(AuthEvent::BackendFailed), AuthStep::Aborted { failed: 1 });
    assert!(t.finished());
}

#[test]
fn auth_notices() {
    assert_eq!(retry_notice(1, 3), "Looks like the password is wrong. Try again! [ 1/3 attempts ]");
    assert_eq!(retry_notice(12, 250), "Looks like the password is wrong. Try again! [ 12/250 attempts ]");
    assert_eq!(denial_notice(1), "1 incorrect password attempt detected!");
    assert_eq!(denial_notice(3), "3 incorrect password attempts detected!");
    assert_eq!(denial_notice(0), "0 incorrect password attempts detected!");
}

#[test]
fn recent_auth_window() {
    assert!(!has_recent_auth(0, Some(0)));
    assert!(has_recent_auth(300, Some(0)));
    assert!(has_recent_auth(300, Some(299)));
    assert!(!has_recent_auth(300, Some(300)));
    assert!(!has_recent_auth(300, None));
}

#[test]
fn auth_timestamp_path() {
    assert_eq!(timestamp_path("alice"), "/run/lksu/alice");
}

#[test]
fn outcome_wording() {
    assert_eq!(Outcome::Allowed.as_str(), "ALLOWED");
    assert_eq!(Outcome::DeniedNotPermitted.as_str(), "DENIED: not in permitted list");
    assert_eq!(
        Outcome::DeniedBadPassword { attempts: 1 }.as_str(),
        "DENIED: 1 incorrect password attempt"
    );
    assert_eq!(
        Outcome::DeniedBadPassword { attempts: 3 }.as_str(),
        "DENIED: 3 incorrect password attempts"
    );
    assert_eq!(
        Outcome::DeniedBadPassword { attempts: 4294967295 }.as_str(),
        "DENIED: 4294967295 incorrect password attempts"
    );
}

#[test]
fn entry_layout() {
    let e = Entry { user: "bob", command: "ls -la", outcome: Outcome::DeniedNotPermitted };
    assert_eq!(
        format_entry(&e, "01-02-2024 10:11:12 +0000"),
        "::: [ 01-02-2024 10:11:12 +0000 ] :::\n‣ Username: bob\n‣ Command: \"ls -la\"\n‣ Result: DENIED: not in permitted list\n\n"
    );
}

#[test]
fn log_file_per_user_and_day() {
    assert_eq!(log_file_name("bob", "01-02-2024"), "bob.01-02-2024.log");
}

#[test]
fn every_ending_step_is_audited() {
    assert!(AuthStep::Prompt { attempt: 1 }.audit().is_none());
    assert!(AuthStep::Retry { failed: 1, max: 3 }.audit().is_none());
    assert!(matches!(AuthStep::Granted.audit(), Some(Outcome::Allowed)));
    assert!(matches!(
        AuthStep::Denied { attempts: 3 }.audit(),
        Some(Outcome::DeniedBadPassword { attempts: 3 })
    ));
    assert!(matches!(
        AuthStep::Aborted { failed: 2 }.audit(),
        Some(Outcome::DeniedBadPassword { attempts: 2 })
    ));
}
