//! Password authentication: the decisions of a password session (how many
//! passwords may be tried, when to grant, when to give up) and of the
//! remembered-authentication cache.
use vstd::prelude::*;
use vstd::string::*;
use crate::log::Outcome;
use crate::text::{decimal, push_decimal};

verus! {

broadcast use vstd::string::group_string_axioms;

/// What happened to the password that a session asked for.
#[derive(Debug, Clone, Copy, PartialEq, Eq, Structural)]
pub enum AuthEvent {
    /// The password was verified as correct.
    Accepted,
    /// The password was verified as wrong.
    Rejected,
    /// No password could be read.
    ReadFailed,
    /// The authentication backend failed to verify the password.
    BackendFailed,
}

/// What a session asks to be done next.
#[derive(Debug, Clone, Copy, PartialEq, Eq, Structural)]
pub enum AuthStep {
    /// Ask for password number `attempt`.
    Prompt { attempt: u32 },
    /// Password number `failed` of `max` was wrong: say so, then ask for the next one.
    Retry { failed: u32, max: u32 },
    /// Authentication succeeded: record it and go on.
    Granted,
    /// All `attempts` passwords were wrong: warn, record the denial and refuse.
    Denied { attempts: u32 },
    /// Reading or verifying a password failed after `failed` wrong passwords:
    /// report the error, record the denial and refuse.
    Aborted { failed: u32 },
}

/// The reply of a session waiting for password number `attempt` of `max` to
/// `event`, with the number of the password it waits for next, if it goes on.
pub open spec fn reply(attempt: u32, max: u32, event: AuthEvent) -> (AuthStep, Option<u32>) {
    match event {
        AuthEvent::Accepted => (AuthStep::Granted, None),
        AuthEvent::Rejected => if attempt < max {
            (AuthStep::Retry { failed: attempt, max }, Some((attempt + 1) as u32))
        } else {
            (AuthStep::Denied { attempts: max }, None)
        },
        AuthEvent::ReadFailed => (AuthStep::Aborted { failed: (attempt - 1) as u32 }, None),
        AuthEvent::BackendFailed => (AuthStep::Aborted { failed: (attempt - 1) as u32 }, None),
    }
}

/// What the audit log records for a step: a grant as `Allowed`; a denial, or
/// a session cut short by a failure, as a denial after the wrong passwords
/// seen; nothing for a step that asks for another password.
pub open spec fn audit_of(step: AuthStep) -> Option<Outcome> {
    match step {
        AuthStep::Prompt { .. } => None,
        AuthStep::Retry { .. } => None,
        AuthStep::Granted => Some(Outcome::Allowed),
        AuthStep::Denied { attempts } => Some(Outcome::DeniedBadPassword { attempts }),
        AuthStep::Aborted { failed } => Some(Outcome::DeniedBadPassword { attempts: failed }),
    }
}

impl AuthStep {
    /// The audit record owed for this step, if any (see `audit_of`).
    pub fn audit(&self) -> (r: Option<Outcome>)
        ensures
            r == audit_of(*self),
    {
        match self {
            AuthStep::Prompt { .. } => None,
            AuthStep::Retry { .. } => None,
            AuthStep::Granted => Some(Outcome::Allowed),
            AuthStep::Denied { attempts } => Some(Outcome::DeniedBadPassword { attempts: *attempts }),
            AuthStep::Aborted { failed } => Some(Outcome::DeniedBadPassword { attempts: *failed }),
        }
    }
}

/// Every attempt is audited: a reply is recorded in the log exactly when it
/// ends the session, whether by a grant, a denial, or a failure to read or
/// verify the password.
pub proof fn lemma_session_end_is_audited(attempt: u32, max: u32, event: AuthEvent)
    requires
        1 <= attempt <= max,
    ensures
        (reply(attempt, max, event).1 is None) == (audit_of(reply(attempt, max, event).0) is Some),
{
}

/// Whichever password it is, one verified as correct ends the session with a
/// grant.
pub proof fn lemma_correct_password_ends_session(attempt: u32, max: u32)
    ensures
        reply(attempt, max, AuthEvent::Accepted) == (AuthStep::Granted, Option::<u32>::None),
{
}

/// A password session that allows at most `max_attempts` passwords.
#[derive(Debug)]
pub struct AuthSession {
    attempt: u32,
    max_attempts: u32,
    finished: bool,
}

impl AuthSession {
    #[verifier::type_invariant]
    spec fn well_formed(self) -> bool {
        !self.finished ==> 1 <= self.attempt <= self.max_attempts
    }

    /// The number of the password the session waits for.
    pub closed spec fn attempt(&self) -> u32 {
        self.attempt
    }

    /// How many passwords the session allows.
    pub closed spec fn max_attempts(&self) -> u32 {
        self.max_attempts
    }

    /// Whether the session has come to an end.
    pub closed spec fn is_finished(&self) -> bool {
        self.finished
    }

    /// Starts a session that allows `max_attempts` passwords. With none allowed
    /// it ends at once, denied after zero attempts.
    pub fn begin(max_attempts: u32) -> (r: (AuthSession, AuthStep))
        ensures
            r.0.max_attempts() == max_attempts,
            max_attempts == 0 ==> r.0.is_finished() && r.1 == (AuthStep::Denied { attempts: 0 }),
            max_attempts > 0 ==> !r.0.is_finished() && r.0.attempt() == 1 && r.1 == (
            AuthStep::Prompt { attempt: 1 }),
    {
        if max_attempts == 0 {
            (AuthSession { attempt: 0, max_attempts, finished: true }, AuthStep::Denied { attempts: 0 })
        } else {
            (AuthSession { attempt: 1, max_attempts, finished: false }, AuthStep::Prompt { attempt: 1 })
        }
    }

    /// Whether the session has come to an end.
    pub fn finished(&self) -> (b: bool)
        ensures
            b == self.is_finished(),
    {
        self.finished
    }

    /// Takes what happened to the password the session asked for and says what
    /// to do next: grant on a correct password, give up on a read or backend
    /// failure, and on a wrong one ask again until `max_attempts` passwords have
    /// been wrong.
    pub fn respond(&mut self, event: AuthEvent) -> (step: AuthStep)
        requires
            !old(self).is_finished(),
        ensures
            final(self).max_attempts() == old(self).max_attempts(),
            (step, if final(self).is_finished() {
                None
            } else {
                Some(final(self).attempt())
            }) == reply(old(self).attempt(), old(self).max_attempts(), event),
            !final(self).is_finished() ==> 1 <= final(self).attempt() <= final(self).max_attempts(),
            event == AuthEvent::Accepted ==> step == AuthStep::Granted && final(self).is_finished(),
            event == AuthEvent::Rejected && old(self).attempt() < old(self).max_attempts() ==> step
                == (AuthStep::Retry { failed: old(self).attempt(), max: old(self).max_attempts() })
                && !final(self).is_finished() && final(self).attempt() == old(self).attempt() + 1,
            event == AuthEvent::Rejected && old(self).attempt() == old(self).max_attempts() ==> step
                == (AuthStep::Denied { attempts: old(self).max_attempts() }) && final(self).is_finished(),
            (event == AuthEvent::ReadFailed || event == AuthEvent::BackendFailed) ==> step == (
            AuthStep::Aborted { failed: (old(self).attempt() - 1) as u32 }) && final(self).is_finished(),
    {
        proof {
            use_type_invariant(&*self);
        }
        match event {
            AuthEvent::Accepted => {
                self.finished = true;
                AuthStep::Granted
            },
            AuthEvent::Rejected => {
                if self.attempt < self.max_attempts {
                    let failed = self.attempt;
                    self.attempt = self.attempt + 1;
                    AuthStep::Retry { failed, max: self.max_attempts }
                } else {
                    self.finished = true;
                    AuthStep::Denied { attempts: self.max_attempts }
                }
            },
            AuthEvent::ReadFailed => {
                self.finished = true;
                AuthStep::Aborted { failed: self.attempt - 1 }
            },
            AuthEvent::BackendFailed => {
                self.finished = true;
                AuthStep::Aborted { failed: self.attempt - 1 }
            },
        }
    }
}

/// The replies of a session waiting for password number `attempt` of `max` to
/// `events`, one per event, until the session ends.
pub open spec fn replies(attempt: u32, max: u32, events: Seq<AuthEvent>) -> Seq<AuthStep>
    decreases events.len(),
{
    if events.len() == 0 {
        Seq::empty()
    } else {
        let (step, next) = reply(attempt, max, events[0]);
        match next {
            Some(a) => seq![step] + replies(a, max, events.drop_first()),
            None => seq![step],
        }
    }
}

/// A session grants access only in reply to a password verified as correct.
pub proof fn lemma_grant_needs_correct_password(attempt: u32, max: u32, events: Seq<AuthEvent>, i: int)
    requires
        0 <= i < replies(attempt, max, events).len(),
        replies(attempt, max, events)[i] == AuthStep::Granted,
    ensures
        i < events.len(),
        events[i] == AuthEvent::Accepted,
    decreases events.len(),
{
    let (step, next) = reply(attempt, max, events[0]);
    if i > 0 {
        let a = next->0;
        lemma_grant_needs_correct_password(a, max, events.drop_first(), i - 1);
    }
}

/// A session that waits for password number `attempt` of `max` gives at most
/// `max - attempt + 1` replies, so it never asks for more than `max` passwords
/// in all; each reply before the last is a `Retry`.
pub proof fn lemma_at_most_max_passwords(attempt: u32, max: u32, events: Seq<AuthEvent>)
    requires
        1 <= attempt <= max,
    ensures
        replies(attempt, max, events).len() <= max - attempt + 1,
        forall|i: int|
            0 <= i < replies(attempt, max, events).len() - 1 ==> (#[trigger] replies(
                attempt,
                max,
                events,
            )[i]) is Retry,
    decreases events.len(),
{
    if events.len() > 0 {
        let (step, next) = reply(attempt, max, events[0]);
        if next is Some {
            let a = next->0;
            lemma_at_most_max_passwords(a, max, events.drop_first());
            let rest = replies(a, max, events.drop_first());
            assert forall|i: int|
                0 <= i < replies(attempt, max, events).len() - 1 implies (#[trigger] replies(
                attempt,
                max,
                events,
            )[i]) is Retry by {
                if i > 0 {
                    assert(replies(attempt, max, events)[i] == rest[i - 1]);
                }
            }
        }
    }
}

/// A password verified as correct is answered with a grant, and the session
/// ends there: whatever came before, the reply to it is the last one.
pub proof fn lemma_correct_password_grants(attempt: u32, max: u32, events: Seq<AuthEvent>, i: int)
    requires
        1 <= attempt <= max,
        0 <= i < replies(attempt, max, events).len(),
        i < events.len(),
        events[i] == AuthEvent::Accepted,
    ensures
        replies(attempt, max, events)[i] == AuthStep::Granted,
        replies(attempt, max, events).len() == i + 1,
    decreases events.len(),
{
    let (step, next) = reply(attempt, max, events[0]);
    if i > 0 {
        let a = next->0;
        assert(events.drop_first()[i - 1] == events[i]);
        lemma_correct_password_grants(a, max, events.drop_first(), i - 1);
    }
}

/// `k` wrong passwords in a row.
pub open spec fn wrong_passwords(k: nat) -> Seq<AuthEvent> {
    Seq::new(k, |i: int| AuthEvent::Rejected)
}

/// From password number `attempt` on, wrong passwords are answered with a
/// `Retry` each, until password number `max` is wrong too: that one is answered
/// with a denial after `max` attempts.
pub proof fn lemma_wrong_passwords_until_denied(attempt: u32, max: u32)
    requires
        1 <= attempt <= max,
    ensures
        replies(attempt, max, wrong_passwords((max - attempt + 1) as nat)) == Seq::new(
            (max - attempt + 1) as nat,
            |i: int|
                if attempt + i < max {
                    AuthStep::Retry { failed: (attempt + i) as u32, max }
                } else {
                    AuthStep::Denied { attempts: max }
                },
        ),
    decreases max - attempt,
{
    let k = (max - attempt + 1) as nat;
    let events = wrong_passwords(k);
    let expected = Seq::new(
        k,
        |i: int|
            if attempt + i < max {
                AuthStep::Retry { failed: (attempt + i) as u32, max }
            } else {
                AuthStep::Denied { attempts: max }
            },
    );
    assert(events[0] == AuthEvent::Rejected);
    if attempt < max {
        let next = (attempt + 1) as u32;
        lemma_wrong_passwords_until_denied(next, max);
        assert(events.drop_first() =~= wrong_passwords((max - next + 1) as nat));
        assert(replies(attempt, max, events) =~= expected);
    } else {
        assert(replies(attempt, max, events) =~= expected);
    }
}

/// The warning after a wrong password that is not the last one allowed.
pub open spec fn retry_text(failed: u32, max: u32) -> Seq<char> {
    "Looks like the password is wrong. Try again! [ "@ + decimal(failed as nat) + "/"@ + decimal(
        max as nat,
    ) + " attempts ]"@
}

/// The warning after the last allowed password was wrong.
pub open spec fn denial_text(attempts: u32) -> Seq<char> {
    if attempts == 1 {
        "1 incorrect password attempt detected!"@
    } else {
        decimal(attempts as nat) + " incorrect password attempts detected!"@
    }
}

/// The warning after wrong password number `failed` of `max`.
pub fn retry_notice(failed: u32, max: u32) -> (s: String)
    ensures
        s@ == retry_text(failed, max),
{
    let mut s = "Looks like the password is wrong. Try again! [ ".to_string();
    push_decimal(&mut s, failed);
    s.append("/");
    push_decimal(&mut s, max);
    s.append(" attempts ]");
    s
}

/// The warning after `attempts` wrong passwords used up the session.
pub fn denial_notice(attempts: u32) -> (s: String)
    ensures
        s@ == denial_text(attempts),
{
    if attempts == 1 {
        "1 incorrect password attempt detected!".to_string()
    } else {
        let mut s = String::new();
        push_decimal(&mut s, attempts);
        s.append(" incorrect password attempts detected!");
        s
    }
}

/// Whether an authentication `elapsed_secs` seconds old (`None` when its age
/// cannot be told) is still remembered under a `timeout_secs` timeout. A zero
/// timeout remembers nothing.
pub fn has_recent_auth(timeout_secs: u64, elapsed_secs: Option<u64>) -> (b: bool)
    ensures
        b == (timeout_secs > 0 && elapsed_secs is Some && elapsed_secs->0 < timeout_secs),
{
    if timeout_secs == 0 {
        return false;
    }
    match elapsed_secs {
        Some(e) => e < timeout_secs,
        None => false,
    }
}

/// Where the time of `user`'s last successful authentication is kept.
pub fn timestamp_path(user: &str) -> (p: String)
    ensures
        p@ == "/run/lksu/"@ + user@,
{
    let mut p = "/run/lksu/".to_string();
    p.append(user);
    p
}

} // verus!
