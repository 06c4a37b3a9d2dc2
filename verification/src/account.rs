//! The checks made before Linux accounts are created, deleted, or given a new
//! password.
use vstd::prelude::*;
use vstd::string::*;
use crate::text::{chars_vec, is_whitespace, same_text, white_space};

verus! {

broadcast use vstd::string::group_string_axioms;

/// Why an account operation was refused.
#[derive(Debug, Clone, Copy, PartialEq, Eq, Structural)]
pub enum AccountError {
    /// The username is empty, or starts or ends with whitespace.
    InvalidUsername,
    /// The root account is never deleted.
    RootAccount,
    /// A password cannot be empty.
    EmptyPassword,
    /// The retyped password differs from the first.
    PasswordMismatch,
}

/// A username is usable when trimming whitespace neither empties nor changes it:
/// it is not empty and neither starts nor ends with whitespace.
pub open spec fn is_valid_username(name: Seq<char>) -> bool {
    &&& name.len() > 0
    &&& !white_space(name[0])
    &&& !white_space(name.last())
}

/// Whether `username` is usable (see `is_valid_username`).
pub fn valid_username(username: &str) -> (b: bool)
    ensures
        b == is_valid_username(username@),
{
    let cs = chars_vec(username);
    let n = cs.len();
    n > 0 && !is_whitespace(cs[0]) && !is_whitespace(cs[n - 1])
}

/// The check before an account is created or given a new password.
pub fn check_username(username: &str) -> (r: Result<(), AccountError>)
    ensures
        r == (if is_valid_username(username@) {
            Ok::<(), AccountError>(())
        } else {
            Err(AccountError::InvalidUsername)
        }),
{
    if valid_username(username) {
        Ok(())
    } else {
        Err(AccountError::InvalidUsername)
    }
}

/// The check before an account is deleted: a usable username, and not root.
pub fn check_deletion(username: &str) -> (r: Result<(), AccountError>)
    ensures
        r == (if !is_valid_username(username@) {
            Err(AccountError::InvalidUsername)
        } else if username@ == "root"@ {
            Err(AccountError::RootAccount)
        } else {
            Ok::<(), AccountError>(())
        }),
{
    if !valid_username(username) {
        return Err(AccountError::InvalidUsername);
    }
    if same_text(username, "root") {
        return Err(AccountError::RootAccount);
    }
    Ok(())
}

/// The check of the first password typed: it cannot be empty.
pub fn check_new_password(password: &str) -> (r: Result<(), AccountError>)
    ensures
        r == (if password@.len() == 0 {
            Err(AccountError::EmptyPassword)
        } else {
            Ok::<(), AccountError>(())
        }),
{
    if password.is_empty() {
        Err(AccountError::EmptyPassword)
    } else {
        Ok(())
    }
}

/// The check of the retyped password: it cannot be empty, and must equal the first.
pub fn check_retyped_password(first: &str, retyped: &str) -> (r: Result<(), AccountError>)
    ensures
        r == (if retyped@.len() == 0 {
            Err(AccountError::EmptyPassword)
        } else if first@ != retyped@ {
            Err(AccountError::PasswordMismatch)
        } else {
            Ok::<(), AccountError>(())
        }),
{
    if retyped.is_empty() {
        return Err(AccountError::EmptyPassword);
    }
    if !same_text(first, retyped) {
        return Err(AccountError::PasswordMismatch);
    }
    Ok(())
}

/// The line that sets `username`'s password through `chpasswd`: `user:password\n`.
pub fn chpasswd_line(username: &str, password: &str) -> (line: String)
    ensures
        line@ == username@ + ":"@ + password@ + "\n"@,
{
    let mut line = username.to_string();
    line.append(":");
    line.append(password);
    line.append("\n");
    line
}

} // verus!
