use lksu::account::{
    check_deletion, check_new_password, check_retyped_password, check_username, chpasswd_line,
    valid_username, AccountError,
};
use lksu::exec::cgroup_leaf;

#[test]
fn usernames() {
    assert!(valid_username("alice"));
    assert!(valid_username("a b"));
    assert!(!valid_username(""));
    assert!(!valid_username(" alice"));
    assert!(!valid_username("alice\t"));
    assert!(!valid_username("   "));
    assert!(!valid_username("alice\u{2003}"));
    assert_eq!(check_username("alice"), Ok(()));
    assert_eq!(check_username(" "), Err(AccountError::InvalidUsername));
}

#[test]
fn root_is_never_deleted() {
    assert_eq!(check_deletion("root"), Err(AccountError::RootAccount));
    assert_eq!(check_deletion(" root"), Err(AccountError::InvalidUsername));
    assert_eq!(check_deletion(""), Err(AccountError::InvalidUsername));
    assert_eq!(check_deletion("rooty"), Ok(()));
}

#[test]
fn passwords() {
    assert_eq!(check_new_password(""), Err(AccountError::EmptyPassword));
    assert_eq!(check_new_password("s3cret"), Ok(()));
    assert_eq!(check_retyped_password("s3cret", ""), Err(AccountError::EmptyPassword));
    assert_eq!(check_retyped_password("s3cret", "s3cre"), Err(AccountError::PasswordMismatch));
    assert_eq!(check_retyped_password("s3cret", "s3cret"), Ok(()));
}

#[test]
fn chpasswd_input() {
    assert_eq!(chpasswd_line("bob", "pa:ss"), "bob:pa:ss\n");
}

#[test]
fn cgroup_of_process() {
    assert_eq!(cgroup_leaf(0), "/sys/fs/cgroup/lksu.slice/lksu-0");
    assert_eq!(cgroup_leaf(4242), "/sys/fs/cgroup/lksu.slice/lksu-4242");
}
