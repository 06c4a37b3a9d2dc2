use lksu::lksuers::{check_listing, group_permitted, uid_of, validate, Change, ListError, SystemAccount};
use lksu::list::system_accounts;
use lksu::passwd::passwd_entries;

fn strings(v: &[&str]) -> Vec<String> {
    v.iter().map(|s| s.to_string()).collect()
}

const PASSWD: &str = "root:x:0:0:root:/root:/bin/bash\n\
daemon:x:1:1:daemon:/usr/sbin:/usr/sbin/nologin\n\
bob:x:1001:1001::/home/bob:/bin/sh\r\n\
broken line\n\
alice:x:1000:1000::/home/alice:/bin/sh\n\
carol:x:+1001:1001::/home/carol:/bin/sh\n\
dave:x:-5:0::/:/bin/false\n\
eve:x:99999999999:0::/:/bin/false\n\
nobody:x:65534:65534::/nonexistent:/usr/sbin/nologin";

#[test]
fn passwd_records_skip_malformed_lines() {
    let r = passwd_entries(PASSWD);
    let names: Vec<(&str, u32)> = r.iter().map(|(n, u)| (n.as_str(), *u)).collect();
    assert_eq!(
        names,
        vec![("root", 0), ("daemon", 1), ("bob", 1001), ("alice", 1000), ("carol", 1001), ("nobody", 65534)]
    );
}

#[test]
fn passwd_lines_and_empty_input() {
    assert!(passwd_entries("").is_empty());
    assert!(passwd_entries("\n\n").is_empty());
    let r = passwd_entries("a:b:7\r");
    assert!(r.is_empty());
    let r = passwd_entries("a:b:7\r\n");
    assert_eq!(r, vec![("a".to_string(), 7)]);
}

#[test]
fn system_accounts_in_uid_order() {
    let accounts = system_accounts(PASSWD, 1000);
    let got: Vec<(&str, u32)> = accounts.iter().map(|a| (a.username.as_str(), a.uid)).collect();
    assert_eq!(got, vec![("root", 0), ("alice", 1000), ("bob", 1001), ("carol", 1001), ("nobody", 65534)]);
}

#[test]
fn system_accounts_with_zero_minimum() {
    let accounts = system_accounts("z:x:5\ny:x:5\nx:x:0\n", 0);
    let got: Vec<&str> = accounts.iter().map(|a| a.username.as_str()).collect();
    assert_eq!(got, vec!["x", "z", "y"]);
}

#[test]
fn validate_requests() {
    assert_eq!(validate("bob", &strings(&["ls"])), Ok(()));
    assert_eq!(validate("  ", &strings(&["ls"])), Err(ListError::EmptyUsername));
    assert_eq!(validate("", &[]), Err(ListError::EmptyUsername));
    assert_eq!(validate(" bob ", &[]), Err(ListError::NoCommands));
}

#[test]
fn listing_checks() {
    assert_eq!(check_listing(Change::Add, true), Err(ListError::AlreadyListed));
    assert_eq!(check_listing(Change::Add, false), Ok(()));
    assert_eq!(check_listing(Change::Edit, false), Err(ListError::NotListed));
    assert_eq!(check_listing(Change::Edit, true), Ok(()));
    assert_eq!(check_listing(Change::Remove, false), Err(ListError::NotListed));
    assert_eq!(check_listing(Change::Remove, true), Ok(()));
}

#[test]
fn last_passwd_line_wins() {
    let records = passwd_entries("bob:x:1\nbob:x:2\nann:x:3\n");
    assert_eq!(uid_of(&records, &"bob".to_string()), 2);
    assert_eq!(uid_of(&records, &"ann".to_string()), 3);
    assert_eq!(uid_of(&records, &"zed".to_string()), u32::MAX);
}

#[test]
fn grouping_permitted_rows() {
    let records = passwd_entries(PASSWD);
    let rows: Vec<(String, String)> = [("alice", "df"), ("alice", "ls"), ("bob", "ALL"), ("zed", "cat")]
        .iter()
        .map(|(u, c)| (u.to_string(), c.to_string()))
        .collect();
    let accounts = group_permitted(rows, &records);
    assert_eq!(accounts.len(), 3);
    assert_eq!(accounts[0].username, "alice");
    assert_eq!(accounts[0].uid, 1000);
    assert_eq!(accounts[0].command, strings(&["df", "ls"]));
    assert!(!accounts[0].permits_all());
    assert_eq!(accounts[1].username, "bob");
    assert_eq!(accounts[1].uid, 1001);
    assert!(accounts[1].permits_all());
    assert_eq!(accounts[2].username, "zed");
    assert_eq!(accounts[2].uid, u32::MAX);
    assert!(group_permitted(Vec::new(), &records).is_empty());
}

#[test]
fn permits_all_is_exact() {
    let a = SystemAccount { username: "a".to_string(), uid: 1, command: strings(&["all", "ls"]) };
    assert!(!a.permits_all());
}
