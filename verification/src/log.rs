//! The audit trail: lksu logs every attempt (allowed, denied, or failed
//! authentication) so that incidents can be reviewed later.
use vstd::prelude::*;
use vstd::string::*;
use crate::text::{decimal, push_decimal};

verus! {

broadcast use vstd::string::group_string_axioms;

/// A single audit entry.
pub struct Entry<'a> {
    pub user: &'a str,
    pub command: &'a str,
    pub outcome: Outcome,
}

/// How an attempt ended.
pub enum Outcome {
    Allowed,
    DeniedNotPermitted,
    DeniedBadPassword { attempts: u32 },
}

impl Outcome {
    /// The wording of the outcome in the log.
    pub open spec fn text(&self) -> Seq<char> {
        match self {
            Outcome::Allowed => "ALLOWED"@,
            Outcome::DeniedNotPermitted => "DENIED: not in permitted list"@,
            Outcome::DeniedBadPassword { attempts } => "DENIED: "@ + decimal(*attempts as nat) + (
            if *attempts == 1 {
                " incorrect password attempt"@
            } else {
                " incorrect password attempts"@
            }),
        }
    }

    pub fn as_str(&self) -> (s: String)
        ensures
            s@ == self.text(),
    {
        match self {
            Outcome::Allowed => "ALLOWED".to_string(),
            Outcome::DeniedNotPermitted => "DENIED: not in permitted list".to_string(),
            Outcome::DeniedBadPassword { attempts } => {
                let mut s = "DENIED: ".to_string();
                push_decimal(&mut s, *attempts);
                if *attempts == 1 {
                    s.append(" incorrect password attempt");
                } else {
                    s.append(" incorrect password attempts");
                }
                s
            },
        }
    }
}

/// The text that one entry adds to a log file, stamped with `timestamp`.
pub open spec fn entry_text(
    timestamp: Seq<char>,
    user: Seq<char>,
    command: Seq<char>,
    outcome: Seq<char>,
) -> Seq<char> {
    "::: [ "@ + timestamp + " ] :::\n‣ Username: "@ + user + "\n‣ Command: \""@ + command
        + "\"\n‣ Result: "@ + outcome + "\n\n"@
}

/// The text that `entry` adds to its log file, stamped with `timestamp`.
pub fn format_entry(entry: &Entry, timestamp: &str) -> (line: String)
    ensures
        line@ == entry_text(timestamp@, entry.user@, entry.command@, entry.outcome.text()),
{
    let mut line = "::: [ ".to_string();
    line.append(timestamp);
    line.append(" ] :::\n‣ Username: ");
    line.append(entry.user);
    line.append("\n‣ Command: \"");
    line.append(entry.command);
    line.append("\"\n‣ Result: ");
    let outcome = entry.outcome.as_str();
    line.append(outcome.as_str());
    line.append("\n\n");
    line
}

/// The name of `user`'s log file for the day `date`: `<user>.<date>.log`. Each
/// user has a file of its own, so that one user's history can be reviewed,
/// rotated or permissioned independently of everyone else's.
pub fn log_file_name(user: &str, date: &str) -> (name: String)
    ensures
        name@ == user@ + "."@ + date@ + ".log"@,
{
    let mut name = user.to_string();
    name.append(".");
    name.append(date);
    name.append(".log");
    name
}

} // verus!
