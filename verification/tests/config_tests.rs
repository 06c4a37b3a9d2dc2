use lksu::config::{expand_aliases, is_blacklisted, normalize_tokens, Config, Permission, UserLists};

fn strings(v: &[&str]) -> Vec<String> {
    v.iter().map(|s| s.to_string()).collect()
}

fn rows(v: &[(&str, &str)]) -> Vec<(String, String)> {
    v.iter().map(|(u, c)| (u.to_string(), c.to_string())).collect()
}

#[test]
fn default_config_values() {
    let c = Config::default();
    assert_eq!(c.timeout, 300);
    assert_eq!(c.max_attempts, 3);
    assert!(c.require_password);
    assert!(c.blacklist.is_empty());
    assert_eq!(c.max_processes, 256);
}

#[test]
fn zero_limits_fall_back_to_defaults() {
    let c = Config {
        timeout: 10,
        max_attempts: 0,
        require_password: false,
        blacklist: strings(&["rm -rf /"]),
        max_processes: 0,
    }
    .with_fallbacks();
    assert_eq!(c.max_attempts, 3);
    assert_eq!(c.max_processes, 256);
    assert_eq!(c.timeout, 10);
    assert!(!c.require_password);
    assert_eq!(c.blacklist, strings(&["rm -rf /"]));
}

#[test]
fn nonzero_limits_are_kept() {
    let c = Config { timeout: 0, max_attempts: 7, require_password: true, blacklist: vec![], max_processes: 9 }
        .with_fallbacks();
    assert_eq!(c.max_attempts, 7);
    assert_eq!(c.max_processes, 9);
}

#[test]
fn attempts_allowed_is_at_least_one() {
    let mut c = Config::default();
    c.max_attempts = 0;
    assert_eq!(c.attempts_allowed(), 1);
    c.max_attempts = 5;
    assert_eq!(c.attempts_allowed(), 5);
}

#[test]
fn must_authenticate_cases() {
    let mut c = Config::default();
    assert!(c.must_authenticate(None));
    assert!(!c.must_authenticate(Some(299)));
    assert!(c.must_authenticate(Some(300)));
    c.timeout = 0;
    assert!(c.must_authenticate(Some(0)));
    c.require_password = false;
    assert!(!c.must_authenticate(None));
}

#[test]
fn blacklist_spacing_does_not_matter() {
    let rules = strings(&["rm -rf /"]);
    assert!(is_blacklisted("rm  -rf   /", &rules));
    assert!(is_blacklisted("rm -rf /", &rules));
}

#[test]
fn blacklist_split_flags_match_combined_rule() {
    let rules = strings(&["rm -rf /"]);
    assert!(is_blacklisted("rm -r -f /", &rules));
    assert!(is_blacklisted("rm -f -r /", &rules));
    assert!(is_blacklisted("rm -fr /", &rules));
}

#[test]
fn blacklist_long_flags_are_aliases() {
    let rules = strings(&["rm -rf /"]);
    assert!(is_blacklisted("rm --recursive --force /", &rules));
    assert!(is_blacklisted("rm --force -r /", &rules));
}

#[test]
fn blacklist_needs_every_rule_token() {
    let rules = strings(&["rm -rf /"]);
    assert!(!is_blacklisted("rm -r /home", &rules));
    assert!(!is_blacklisted("rm -rf /home", &rules));
    assert!(!is_blacklisted("ls /", &rules));
}

#[test]
fn blacklist_is_case_insensitive() {
    let rules = strings(&["rm -rf /"]);
    assert!(is_blacklisted("RM -RF /", &rules));
    let upper_rule = strings(&["LKSU"]);
    assert!(is_blacklisted("sudo lksu --add", &upper_rule));
}

#[test]
fn blacklist_bare_token_matches_anywhere() {
    let rules = strings(&["lksu"]);
    assert!(is_blacklisted("env lksu -a bob", &rules));
    assert!(!is_blacklisted("lksuers", &rules));
}

#[test]
fn blacklist_extra_arguments_still_match() {
    let rules = strings(&["rm -rf /"]);
    assert!(is_blacklisted("rm -rf / --no-preserve-root", &rules));
    assert!(is_blacklisted("/ rm -v -rf", &rules));
}

#[test]
fn blank_rules_match_nothing() {
    let rules = strings(&["", "   "]);
    assert!(!is_blacklisted("rm -rf /", &rules));
    assert!(!is_blacklisted("", &strings(&[])));
    assert!(!is_blacklisted("anything", &[]));
}

#[test]
fn blacklist_unicode_whitespace_separates_tokens() {
    let rules = strings(&["rm -rf /"]);
    assert!(is_blacklisted("rm\u{a0}-rf\t/", &rules));
}

#[test]
fn blacklist_double_dash_flag_is_not_split() {
    let rules = strings(&["--no-preserve-root"]);
    assert!(is_blacklisted("rm -rf / --no-preserve-root", &rules));
    assert!(!is_blacklisted("rm -rf / -n -o", &rules));
}

#[test]
fn permission_all_allows_everything() {
    assert!(Permission::All.allows("anything"));
    assert!(Permission::All.allows(""));
}

#[test]
fn permission_commands_are_exact() {
    let p = Permission::Commands(strings(&["ls", "cat"]));
    assert!(p.allows("ls"));
    assert!(p.allows("cat"));
    assert!(!p.allows("LS"));
    assert!(!p.allows("ls "));
    assert!(!p.allows("rm"));
}

#[test]
fn user_lists_from_rows_commands() {
    let lists = UserLists::from_rows(rows(&[("alice", "ls"), ("bob", "cat"), ("alice", "df")]));
    assert!(lists.is_permitted("alice", "ls"));
    assert!(lists.is_permitted("alice", "df"));
    assert!(!lists.is_permitted("alice", "cat"));
    assert!(lists.is_permitted("bob", "cat"));
    assert!(!lists.is_permitted("carol", "ls"));
    match lists.permissions_for("alice") {
        Some(Permission::Commands(c)) => assert_eq!(c, &strings(&["ls", "df"])),
        other => panic!("unexpected permission {:?}", other),
    }
}

#[test]
fn user_lists_all_keyword_any_case() {
    let lists = UserLists::from_rows(rows(&[("root", "ls"), ("root", "aLl"), ("eve", "ALLX")]));
    assert!(matches!(lists.permissions_for("root"), Some(Permission::All)));
    assert!(lists.is_permitted("root", "reboot"));
    assert!(lists.is_permitted("eve", "ALLX"));
    assert!(!lists.is_permitted("eve", "reboot"));
}

#[test]
fn user_lists_unknown_user() {
    let lists = UserLists::from_rows(rows(&[("alice", "ls")]));
    assert!(lists.permissions_for("bob").is_none());
    assert!(lists.permissions_for("alice").is_some());
    let empty = UserLists::default();
    assert!(empty.permissions_for("alice").is_none());
    assert!(!empty.is_permitted("alice", "ls"));
}

#[test]
fn tokens_are_split_and_lowercased() {
    assert_eq!(normalize_tokens("  RM\t-Rf  / "), strings(&["rm", "-rf", "/"]));
    assert!(normalize_tokens(" \n ").is_empty());
}

#[test]
fn aliases_expand() {
    assert_eq!(
        expand_aliases(&strings(&["rm", "--recursive", "--force", "-rfv", "--no-preserve-root", "-x", "-"])),
        strings(&["rm", "-r", "-f", "-r", "-f", "-v", "--no-preserve-root", "-x", "-"])
    );
    assert_eq!(expand_aliases(&strings(&["-r-f"])), strings(&["-r", "--", "-f"]));
    assert!(expand_aliases(&[]).is_empty());
}

#[test]
fn rule_matches_the_command_it_spells() {
    let rules = strings(&["shutdown -h now"]);
    assert!(is_blacklisted("shutdown -h now", &rules));
    assert!(is_blacklisted("now -h shutdown", &rules));
}

#[test]
fn more_words_or_rules_keep_a_command_blacklisted() {
    let rules = strings(&["rm -rf /"]);
    assert!(is_blacklisted("rm -rf /", &rules));
    assert!(is_blacklisted("rm -rf / extra", &rules));
    assert!(is_blacklisted("nice -n 5 rm -rf /", &rules));
    let more = strings(&["rm -rf /", "reboot"]);
    assert!(is_blacklisted("rm -rf /", &more));
}

#[test]
fn alias_expansion_is_tokenwise_and_idempotent() {
    let a = strings(&["rm", "-rf"]);
    let b = strings(&["--force", "/"]);
    let ab: Vec<String> = a.iter().chain(b.iter()).cloned().collect();
    let mut both = expand_aliases(&a);
    both.extend(expand_aliases(&b));
    assert_eq!(expand_aliases(&ab), both);
    let once = expand_aliases(&strings(&["--recursive", "-abc", "--no-preserve-root", "x"]));
    assert_eq!(expand_aliases(&once), once);
}

#[test]
fn normalized_words_join_and_are_clean() {
    let mut joined = normalize_tokens("Rm -RF");
    joined.extend(normalize_tokens("  /Home "));
    assert_eq!(normalize_tokens("Rm -RF   /Home "), joined);
    for w in normalize_tokens(" MiXeD\tCASE words ") {
        assert!(!w.is_empty());
        assert!(!w.chars().any(|c| c.is_whitespace() || c.is_ascii_uppercase()));
    }
}

#[test]
fn cloned_table_grants_the_same() {
    let lists = UserLists::from_rows(rows(&[("alice", "ls"), ("root", "ALL")]));
    let copy = lists.clone();
    assert!(copy.is_permitted("alice", "ls"));
    assert!(!copy.is_permitted("alice", "df"));
    assert!(copy.is_permitted("root", "reboot"));
    assert!(copy.permissions_for("bob").is_none());
    match Permission::Commands(strings(&["ls"])).clone() {
        Permission::Commands(c) => assert_eq!(c, strings(&["ls"])),
        Permission::All => panic!("clone changed the permission"),
    }
}
