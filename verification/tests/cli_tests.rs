use lksu::cli::{full_command, management_command, parse_request, Request};

fn args(v: &[&str]) -> Vec<String> {
    v.iter().map(|s| s.to_string()).collect()
}

#[test]
fn help_requests() {
    assert!(matches!(parse_request(&args(&["lksu"])), Request::Help));
    assert!(matches!(parse_request(&args(&[])), Request::Help));
    assert!(matches!(parse_request(&args(&["lksu", "-h"])), Request::Help));
    assert!(matches!(parse_request(&args(&["lksu", "--help", "x"])), Request::Help));
}

#[test]
fn add_and_edit_requests() {
    match parse_request(&args(&["lksu", "-a", "bob", "ls", "cat"])) {
        Request::Add { target, commands } => {
            assert_eq!(target.as_deref(), Some("bob"));
            assert_eq!(commands, args(&["ls", "cat"]));
        }
        other => panic!("unexpected {:?}", other),
    }
    match parse_request(&args(&["lksu", "--edit"])) {
        Request::Edit { target, commands } => {
            assert_eq!(target, None);
            assert!(commands.is_empty());
        }
        other => panic!("unexpected {:?}", other),
    }
    match parse_request(&args(&["lksu", "--remove", "bob", "extra"])) {
        Request::Remove { target } => assert_eq!(target.as_deref(), Some("bob")),
        other => panic!("unexpected {:?}", other),
    }
}

#[test]
fn listing_requests() {
    assert!(matches!(parse_request(&args(&["lksu", "-ul"])), Request::UserList));
    assert!(matches!(parse_request(&args(&["lksu", "--command-list"])), Request::CommandList));
    assert!(matches!(parse_request(&args(&["lksu", "-rc"])), Request::ResetCache));
}

#[test]
fn run_requests() {
    match parse_request(&args(&["lksu", "ls", "-la", "/root"])) {
        Request::Run { command, args: rest } => {
            assert_eq!(command, "ls");
            assert_eq!(rest, args(&["-la", "/root"]));
        }
        other => panic!("unexpected {:?}", other),
    }
    match parse_request(&args(&["lksu", "--ADD"])) {
        Request::Run { command, args: rest } => {
            assert_eq!(command, "--ADD");
            assert!(rest.is_empty());
        }
        other => panic!("unexpected {:?}", other),
    }
}

#[test]
fn command_lines() {
    assert_eq!(full_command(&args(&["lksu", "ls", "-la", "/root"])), "ls -la /root");
    assert_eq!(full_command(&args(&["lksu"])), "");
    assert_eq!(full_command(&args(&["lksu", "a b", "c"])), "a b c");
    assert_eq!(management_command("-a bob ls"), "lksu -a bob ls");
}
