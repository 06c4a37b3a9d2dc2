//! Managing the permitted-users list: the checks made before it is changed,
//! and the listing of its users.
use vstd::prelude::*;
use vstd::string::*;
use crate::text::{chars_vec, is_whitespace, same_text, white_space, lemma_vec_push_deep_view};

verus! {

broadcast use vstd::string::group_string_axioms;

/// Why a change to the permitted-users list was refused.
#[derive(Debug, Clone, Copy, PartialEq, Eq, Structural)]
pub enum ListError {
    /// The username is empty or only whitespace.
    EmptyUsername,
    /// No command (nor `ALL`) was given.
    NoCommands,
    /// The user is already listed; it has to be edited instead.
    AlreadyListed,
    /// The user is not listed.
    NotListed,
}

/// A change to the permitted-users list.
#[derive(Debug, Clone, Copy, PartialEq, Eq, Structural)]
pub enum Change {
    /// List a user that is not listed yet.
    Add,
    /// Replace the commands of a listed user.
    Edit,
    /// Take a listed user off the list.
    Remove,
}

/// Whether `s` is empty once whitespace is trimmed: every character is whitespace.
pub open spec fn is_blank(s: Seq<char>) -> bool {
    forall|i: int| 0 <= i < s.len() ==> white_space(#[trigger] s[i])
}

/// The check of an add or edit request: a username that is not blank, and at
/// least one command.
pub fn validate(username: &str, commands: &[String]) -> (r: Result<(), ListError>)
    ensures
        r == (if is_blank(username@) {
            Err(ListError::EmptyUsername)
        } else if commands@.len() == 0 {
            Err(ListError::NoCommands)
        } else {
            Ok::<(), ListError>(())
        }),
{
    let cs = chars_vec(username);
    let n = cs.len();
    let mut blank = true;
    let mut i: usize = 0;
    while i < n
        invariant
            n == cs.len(),
            cs@ == username@,
            i <= n,
            blank == forall|k: int| 0 <= k < i ==> white_space(#[trigger] cs@[k]),
        decreases n - i,
    {
        if !is_whitespace(cs[i]) {
            blank = false;
        }
        i = i + 1;
    }
    if blank {
        return Err(ListError::EmptyUsername);
    }
    if commands.len() == 0 {
        return Err(ListError::NoCommands);
    }
    Ok(())
}

/// The check of a change against whether its user is listed (for a removal:
/// whether the removal took any row away): a user can only be added when it is
/// not listed, and only edited or removed when it is.
pub fn check_listing(change: Change, listed: bool) -> (r: Result<(), ListError>)
    ensures
        r == (match change {
            Change::Add => if listed {
                Err(ListError::AlreadyListed)
            } else {
                Ok(())
            },
            _ => if listed {
                Ok(())
            } else {
                Err(ListError::NotListed)
            },
        }),
{
    match change {
        Change::Add => if listed {
            Err(ListError::AlreadyListed)
        } else {
            Ok(())
        },
        _ => if listed {
            Ok(())
        } else {
            Err(ListError::NotListed)
        },
    }
}

/// One listed user, with its uid and the commands it may run.
#[derive(Debug)]
pub struct SystemAccount {
    pub username: String,
    pub uid: u32,
    pub command: Vec<String>,
}

impl SystemAccount {
    /// Whether one of the account's commands is exactly `ALL`.
    pub fn permits_all(&self) -> (b: bool)
        ensures
            b == self.command.deep_view().contains("ALL"@),
    {
        let n = self.command.len();
        for i in 0..n
            invariant
                n == self.command.len(),
                forall|k: int| 0 <= k < i ==> self.command.deep_view()[k] != "ALL"@,
        {
            if same_text(self.command[i].as_str(), "ALL") {
                assert(self.command.deep_view()[i as int] == "ALL"@);
                return true;
            }
        }
        false
    }
}

/// The `(username, command)` rows that one account stands for.
pub open spec fn account_rows(a: SystemAccount) -> Seq<(Seq<char>, Seq<char>)> {
    a.command.deep_view().map_values(|c: Seq<char>| (a.username@, c))
}

/// The rows that a list of accounts stands for, in order.
pub open spec fn rows_of_accounts(accounts: Seq<SystemAccount>) -> Seq<(Seq<char>, Seq<char>)> {
    accounts.map_values(|a: SystemAccount| account_rows(a)).flatten()
}

/// The uid that the passwd records give `name`: that of the last record naming
/// it, or `u32::MAX` when none does.
pub open spec fn recorded_uid(records: Seq<(Seq<char>, u32)>, name: Seq<char>) -> u32
    decreases records.len(),
{
    if records.len() == 0 {
        u32::MAX
    } else if records.last().0 == name {
        records.last().1
    } else {
        recorded_uid(records.drop_last(), name)
    }
}

/// The uid listed for a user is the uid of the last passwd record naming it,
/// whatever that uid is (0 included); `u32::MAX` only when no record names it.
pub proof fn lemma_recorded_uid_is_last_record(records: Seq<(Seq<char>, u32)>, name: Seq<char>, k: int)
    requires
        0 <= k < records.len(),
        records[k].0 == name,
        forall|j: int| k < j < records.len() ==> (#[trigger] records[j]).0 != name,
    ensures
        recorded_uid(records, name) == records[k].1,
    decreases records.len(),
{
    if k < records.len() - 1 {
        let t = records.drop_last();
        assert(records[records.len() - 1].0 != name);
        assert forall|j: int| k < j < t.len() implies (#[trigger] t[j]).0 != name by {
            assert(t[j] == records[j]);
        }
        lemma_recorded_uid_is_last_record(t, name, k);
    }
}

/// A user that no passwd record names is listed with uid `u32::MAX`.
pub proof fn lemma_recorded_uid_absent(records: Seq<(Seq<char>, u32)>, name: Seq<char>)
    requires
        forall|j: int| 0 <= j < records.len() ==> (#[trigger] records[j]).0 != name,
    ensures
        recorded_uid(records, name) == u32::MAX,
    decreases records.len(),
{
    if records.len() > 0 {
        let t = records.drop_last();
        assert(records[records.len() - 1].0 != name);
        assert forall|j: int| 0 <= j < t.len() implies (#[trigger] t[j]).0 != name by {
            assert(t[j] == records[j]);
        }
        lemma_recorded_uid_absent(t, name);
    }
}

/// `accounts` groups the runs of consecutive rows that share a username: read
/// in order, the accounts stand for exactly `rows`; each has at least one
/// command; neighbours have different usernames; and each carries the uid
/// that `records` give its username.
pub open spec fn groups_rows(
    accounts: Seq<SystemAccount>,
    rows: Seq<(Seq<char>, Seq<char>)>,
    records: Seq<(Seq<char>, u32)>,
) -> bool {
    &&& rows_of_accounts(accounts) == rows
    &&& forall|i: int| 0 <= i < accounts.len() ==> (#[trigger] accounts[i]).command.len() > 0
    &&& forall|i: int|
        0 <= i < accounts.len() - 1 ==> (#[trigger] accounts[i]).username@ != accounts[i
            + 1].username@
    &&& forall|i: int|
        0 <= i < accounts.len() ==> (#[trigger] accounts[i]).uid == recorded_uid(
            records,
            accounts[i].username@,
        )
}

proof fn lemma_rows_of_push(accounts: Seq<SystemAccount>, a: SystemAccount)
    ensures
        rows_of_accounts(accounts.push(a)) == rows_of_accounts(accounts) + account_rows(a),
{
    let f = |x: SystemAccount| account_rows(x);
    assert(accounts.push(a).map_values(f) =~= accounts.map_values(f).push(account_rows(a)));
    accounts.map_values(f).lemma_flatten_push(account_rows(a));
}

/// The uid that `records` give `name` (see `recorded_uid`).
pub fn uid_of(records: &Vec<(String, u32)>, name: &String) -> (uid: u32)
    ensures
        uid == recorded_uid(records.deep_view(), name@),
        forall|k: int|
            0 <= k < records.len() && (#[trigger] records.deep_view()[k]).0 == name@ && (forall|j: int|
                k < j < records.len() ==> records.deep_view()[j].0 != name@) ==> uid
                == records.deep_view()[k].1,
        (forall|j: int| 0 <= j < records.len() ==> (#[trigger] records.deep_view()[j]).0 != name@)
            ==> uid == u32::MAX,
{
    let ghost rv = records.deep_view();
    proof {
        assert forall|k: int|
            0 <= k < records.len() && (#[trigger] rv[k]).0 == name@ && (forall|j: int|
                k < j < records.len() ==> rv[j].0 != name@) implies recorded_uid(rv, name@) == rv[k].1 by {
            assert forall|j: int| k < j < rv.len() implies (#[trigger] rv[j]).0 != name@ by {}
            lemma_recorded_uid_is_last_record(rv, name@, k);
        }
        if forall|j: int| 0 <= j < records.len() ==> (#[trigger] rv[j]).0 != name@ {
            lemma_recorded_uid_absent(rv, name@);
        }
    }
    let mut i = records.len();
    assert(rv.take(i as int) =~= rv);
    while i > 0
        invariant
            i <= records.len(),
            rv == records.deep_view(),
            recorded_uid(rv.take(i as int), name@) == recorded_uid(rv, name@),
            forall|k: int|
                0 <= k < records.len() && (#[trigger] rv[k]).0 == name@ && (forall|j: int|
                    k < j < records.len() ==> rv[j].0 != name@) ==> recorded_uid(rv, name@) == rv[k].1,
            (forall|j: int| 0 <= j < records.len() ==> (#[trigger] rv[j]).0 != name@) ==> recorded_uid(
                rv,
                name@,
            ) == u32::MAX,
        decreases i,
    {
        let ghost t = rv.take(i as int);
        assert(t.last() == (records@[i - 1].0@, records@[i - 1].1));
        if records[i - 1].0 == *name {
            return records[i - 1].1;
        }
        assert(t.drop_last() =~= rv.take(i - 1));
        i = i - 1;
    }
    assert(rv.take(0) =~= Seq::<(Seq<char>, u32)>::empty());
    u32::MAX
}

/// The listed users, from the table's rows ordered by username (as the listing
/// reads them) and the passwd records: one account per run of rows of the same
/// user, with the commands of those rows in order and the uid that the passwd
/// records give it (`u32::MAX` for a user that has none).
pub fn group_permitted(rows: Vec<(String, String)>, records: &Vec<(String, u32)>) -> (accounts: Vec<SystemAccount>)
    ensures
        groups_rows(accounts@, rows.deep_view(), records.deep_view()),
{
    let ghost r = rows.deep_view();
    let ghost rec = records.deep_view();
    let mut accounts: Vec<SystemAccount> = Vec::new();
    let n = rows.len();
    let mut i: usize = 0;
    proof {
        assert(accounts@.map_values(|a: SystemAccount| account_rows(a)) =~= Seq::<Seq<(Seq<char>, Seq<char>)>>::empty());
        assert(r.take(0) =~= Seq::<(Seq<char>, Seq<char>)>::empty());
    }
    while i < n
        invariant
            i <= n,
            n == rows.len(),
            r == rows.deep_view(),
            rec == records.deep_view(),
            groups_rows(accounts@, r.take(i as int), rec),
        decreases n - i,
    {
        let user = rows[i].0.clone();
        let command = rows[i].1.clone();
        let ghost row = (user@, command@);
        assert(r[i as int] == row);
        assert(r.take(i + 1) =~= r.take(i as int).push(row));
        let len = accounts.len();
        if len > 0 && accounts[len - 1].username == user {
            let ghost before = accounts@;
            let mut last = accounts.pop().unwrap();
            let ghost init = accounts@;
            let ghost old_last = last;
            assert(before =~= init.push(old_last));
            let ghost old_cmds = last.command;
            let ghost cg = command;
            last.command.push(command);
            proof {
                lemma_vec_push_deep_view(old_cmds, last.command, cg);
                assert(account_rows(last) =~= account_rows(old_last).push(row));
                lemma_rows_of_push(init, old_last);
                lemma_rows_of_push(init, last);
            }
            accounts.push(last);
            proof {
                assert(accounts@ == init.push(last));
                assert(rows_of_accounts(accounts@) =~= r.take(i + 1));
                assert forall|k: int| 0 <= k < accounts@.len() - 1 implies (#[trigger] accounts@[k]).username@
                    != accounts@[k + 1].username@ by {
                    assert(accounts@[k] == before[k]);
                    if k + 1 < accounts@.len() - 1 {
                        assert(accounts@[k + 1] == before[k + 1]);
                    }
                }
                assert forall|k: int| 0 <= k < accounts@.len() implies (#[trigger] accounts@[k]).command.len() > 0 by {
                    if k < accounts@.len() - 1 {
                        assert(accounts@[k] == before[k]);
                    }
                }
                assert forall|k: int| 0 <= k < accounts@.len() implies (#[trigger] accounts@[k]).uid
                    == recorded_uid(rec, accounts@[k].username@) by {
                    assert(k < accounts@.len() - 1 ==> accounts@[k] == before[k]);
                    assert(before[k].uid == recorded_uid(rec, before[k].username@));
                }
            }
        } else {
            let uid = uid_of(records, &user);
            let mut cmds: Vec<String> = Vec::new();
            let ghost empty = cmds;
            let ghost cg = command;
            cmds.push(command);
            let ghost before = accounts@;
            let account = SystemAccount { username: user, uid, command: cmds };
            proof {
                lemma_vec_push_deep_view(empty, cmds, cg);
                assert(empty.deep_view() =~= Seq::<Seq<char>>::empty());
                assert(account_rows(account) =~= seq![row]);
                lemma_rows_of_push(before, account);
            }
            accounts.push(account);
            proof {
                assert(rows_of_accounts(accounts@) =~= r.take(i + 1));
                assert forall|k: int| 0 <= k < accounts@.len() - 1 implies (#[trigger] accounts@[k]).username@
                    != accounts@[k + 1].username@ by {
                    assert(accounts@[k] == before[k]);
                    if k + 1 < accounts@.len() - 1 {
                        assert(accounts@[k + 1] == before[k + 1]);
                    }
                }
                assert forall|k: int| 0 <= k < accounts@.len() implies (#[trigger] accounts@[k]).command.len() > 0 by {
                    if k < accounts@.len() - 1 {
                        assert(accounts@[k] == before[k]);
                    }
                }
                assert forall|k: int| 0 <= k < accounts@.len() implies (#[trigger] accounts@[k]).uid
                    == recorded_uid(rec, accounts@[k].username@) by {
                    if k < accounts@.len() - 1 {
                        assert(accounts@[k] == before[k]);
                    }
                }
            }
        }
        i = i + 1;
    }
    assert(r.take(n as int) =~= r);
    accounts
}

} // verus!
