//! Behaviour settings, the command blacklist, and the permitted-users table.
use vstd::prelude::*;
use vstd::string::*;
use crate::auth::has_recent_auth;
use crate::text::{
    all_ascii, ascii_lower, is_ascii_upper, lemma_ws_tokens_join, lemma_ws_tokens_words, white_space,
    lemma_vec_push_deep_view, chars_vec, lowercase, same_text, split_whitespace, to_lowercase, push_char, ws_tokens,
};

verus! {

broadcast use vstd::string::group_string_axioms;

pub const DEFAULT_CONFIG_PATH: &'static str = "/etc/lksu.d/config.lua";

pub const DEFAULT_USER_LISTS_PATH: &'static str = "/var/db/lksu/lksuers.db";

pub const DEFAULT_LOG_PATH: &'static str = "/var/log/lksu";

/// Default for `Config::timeout`, in seconds.
pub const DEFAULT_TIMEOUT: u64 = 300;

/// Default for `Config::max_attempts`.
pub const DEFAULT_MAX_ATTEMPTS: u32 = 3;

/// Default for `Config::max_processes`.
pub const DEFAULT_MAX_PROCESSES: u32 = 256;

/// lksu's behaviour settings (what `/etc/lksu.d/config.lua` evaluates to).
#[derive(Debug, Clone)]
pub struct Config {
    /// How long, in seconds, a successful authentication is remembered.
    pub timeout: u64,
    /// How many passwords a user may try before being refused.
    pub max_attempts: u32,
    /// Whether running a permitted command asks for a password at all.
    pub require_password: bool,
    /// Command patterns that are refused.
    pub blacklist: Vec<String>,
    /// The process-count cap put on commands that lksu runs.
    pub max_processes: u32,
}

impl Default for Config {
    fn default() -> (c: Config)
        ensures
            c.timeout == DEFAULT_TIMEOUT,
            c.max_attempts == DEFAULT_MAX_ATTEMPTS,
            c.require_password,
            c.blacklist@.len() == 0,
            c.max_processes == DEFAULT_MAX_PROCESSES,
    {
        Config {
            timeout: DEFAULT_TIMEOUT,
            max_attempts: DEFAULT_MAX_ATTEMPTS,
            require_password: true,
            blacklist: Vec::new(),
            max_processes: DEFAULT_MAX_PROCESSES,
        }
    }
}

impl Config {
    /// The settings as they are used once loaded: a zero attempt limit or a zero
    /// process cap means "unset" and falls back to the default; every other field
    /// is kept.
    pub fn with_fallbacks(self) -> (cfg: Config)
        ensures
            cfg.max_attempts == (if self.max_attempts == 0 {
                DEFAULT_MAX_ATTEMPTS
            } else {
                self.max_attempts
            }),
            cfg.max_processes == (if self.max_processes == 0 {
                DEFAULT_MAX_PROCESSES
            } else {
                self.max_processes
            }),
            cfg.timeout == self.timeout,
            cfg.require_password == self.require_password,
            cfg.blacklist == self.blacklist,
    {
        let mut cfg = self;
        if cfg.max_attempts == 0 {
            cfg.max_attempts = DEFAULT_MAX_ATTEMPTS;
        }
        if cfg.max_processes == 0 {
            cfg.max_processes = DEFAULT_MAX_PROCESSES;
        }
        cfg
    }

    /// How many passwords an authentication allows: the configured limit, but
    /// at least one.
    pub fn attempts_allowed(&self) -> (n: u32)
        ensures
            n == (if self.max_attempts == 0 {
                1
            } else {
                self.max_attempts
            }),
    {
        if self.max_attempts == 0 {
            1
        } else {
            self.max_attempts
        }
    }

    /// Whether running a permitted command has to ask for a password: passwords
    /// are required and no authentication is remembered, the last one being
    /// `elapsed_secs` seconds old (`None` when there is none, or its age cannot
    /// be told).
    pub fn must_authenticate(&self, elapsed_secs: Option<u64>) -> (b: bool)
        ensures
            b == (self.require_password && !(self.timeout > 0 && elapsed_secs is Some
                && elapsed_secs->0 < self.timeout)),
    {
        self.require_password && !has_recent_auth(self.timeout, elapsed_secs)
    }
}

// ---------------------------------------------------------------------------
// Blacklist matching

/// A normalized word: non-empty, with no whitespace and no capital letter.
pub open spec fn clean_word(t: Seq<char>) -> bool {
    &&& t.len() > 0
    &&& forall|j: int| 0 <= j < t.len() ==> !white_space(#[trigger] t[j]) && !is_ascii_upper(t[j])
}

/// The words of a command line, each lowercased.
pub open spec fn normalized(s: Seq<char>) -> Seq<Seq<char>> {
    ws_tokens(s).map_values(|t: Seq<char>| lowercase(t))
}

/// What one word stands for when commands are compared: the long flags
/// `--recursive` and `--force` become `-r` and `-f`; a combined short flag
/// such as `-rf` (a `-`, not `--`, and more than two characters) becomes one
/// flag per letter (`-r`, `-f`); any other word, `--no-preserve-root` among
/// them, stands for itself.
pub open spec fn alias_of(t: Seq<char>) -> Seq<Seq<char>> {
    if t == "--recursive"@ {
        seq!["-r"@]
    } else if t == "--force"@ {
        seq!["-f"@]
    } else if t.len() > 2 && t[0] == '-' && t[1] != '-' {
        Seq::new((t.len() - 1) as nat, |i: int| seq!['-', t[i + 1]])
    } else {
        seq![t]
    }
}

/// Every word replaced by what it stands for, in order.
pub open spec fn expanded(tokens: Seq<Seq<char>>) -> Seq<Seq<char>> {
    tokens.map_values(|t: Seq<char>| alias_of(t)).flatten()
}

/// The tokens by which a command line (or a blacklist rule) is compared.
pub open spec fn command_tokens(s: Seq<char>) -> Seq<Seq<char>> {
    expanded(normalized(s))
}

/// A rule matches a command when the rule has at least one token and every
/// token of the rule occurs among the command's tokens, in any order.
pub open spec fn rule_matches(command: Seq<char>, rule: Seq<char>) -> bool {
    let r = command_tokens(rule);
    &&& r.len() > 0
    &&& forall|i: int| 0 <= i < r.len() ==> command_tokens(command).contains(#[trigger] r[i])
}

/// Whether some rule of `rules` matches `command`.
pub open spec fn blacklisted(command: Seq<char>, rules: Seq<Seq<char>>) -> bool {
    exists|k: int| 0 <= k < rules.len() && rule_matches(command, #[trigger] rules[k])
}

// Splits a command line into normalized tokens: this is what lets
// "rm  -rf   /", "rm -r -f /", and "rm --recursive --force /" all be
// recognized as equivalent to "rm -rf /". A plain whitespace split is
// enough since lksu commands are not passed through a shell, so there is
// no quoting or escaping to handle.
pub fn normalize_tokens(s: &str) -> (tokens: Vec<String>)
    ensures
        tokens.deep_view() == normalized(s@),
        all_ascii(s@) ==> forall|i: int|
            0 <= i < tokens.len() ==> clean_word(#[trigger] tokens.deep_view()[i]),
{
    let words = split_whitespace(s);
    proof {
        lemma_ws_tokens_words(s@);
    }
    let mut tokens: Vec<String> = Vec::new();
    let n = words.len();
    for i in 0..n
        invariant
            n == words.len(),
            words.deep_view() == ws_tokens(s@),
            tokens.deep_view() == normalized(s@).take(i as int),
            forall|k: int| 0 <= k < ws_tokens(s@).len() ==> (#[trigger] ws_tokens(s@)[k]).len() > 0,
            forall|k: int, j: int|
                0 <= k < ws_tokens(s@).len() && 0 <= j < ws_tokens(s@)[k].len() ==> {
                    &&& !white_space(#[trigger] ws_tokens(s@)[k][j])
                    &&& (all_ascii(s@) ==> (ws_tokens(s@)[k][j] as int) < 128)
                },
            all_ascii(s@) ==> forall|k: int| 0 <= k < i ==> clean_word(#[trigger] tokens.deep_view()[k]),
    {
        let t = to_lowercase(words[i].as_str());
        assert(words.deep_view()[i as int] == words@[i as int]@);
        proof {
            let w = ws_tokens(s@)[i as int];
            if all_ascii(s@) {
                assert(all_ascii(w)) by {
                    assert forall|j: int| 0 <= j < w.len() implies (#[trigger] w[j] as int) < 128 by {
                        assert((ws_tokens(s@)[i as int][j] as int) < 128);
                    }
                }
                assert(clean_word(t@)) by {
                    assert forall|j: int| 0 <= j < t@.len() implies !white_space(#[trigger] t@[j])
                        && !is_ascii_upper(t@[j]) by {
                        assert(t@[j] == ascii_lower(w[j]));
                        assert(!white_space(ws_tokens(s@)[i as int][j]));
                    }
                    assert(w.len() > 0);
                }
            }
        }
        let ghost before = tokens;
        tokens.push(t);
        proof {
            lemma_vec_push_deep_view(before, tokens, t);
        }
        assert(tokens.deep_view() =~= normalized(s@).take(i + 1));
    }
    assert(normalized(s@).take(n as int) =~= normalized(s@));
    tokens
}

fn one_string(s: String) -> (v: Vec<String>)
    ensures
        v.deep_view() == seq![s@],
{
    let mut v: Vec<String> = Vec::new();
    v.push(s);
    assert(v.deep_view() =~= seq![s@]);
    v
}

/// What a single word stands for (see `alias_of`).
fn alias_expansion(t: &String) -> (out: Vec<String>)
    ensures
        out.deep_view() == alias_of(t@),
{
    if same_text(t.as_str(), "--recursive") {
        return one_string("-r".to_string());
    }
    if same_text(t.as_str(), "--force") {
        return one_string("-f".to_string());
    }
    let cs = chars_vec(t.as_str());
    if cs.len() > 2 && cs[0] == '-' && cs[1] != '-' {
        // A combined short flag such as "-rf" is split into "-r" "-f" so that
        // ordering or spacing differences do not matter.
        let mut out: Vec<String> = Vec::new();
        let n = cs.len();
        for k in 1..n
            invariant
                n == cs.len(),
                cs@ == t@,
                out.deep_view() == Seq::new((k - 1) as nat, |i: int| seq!['-', t@[i + 1]]),
        {
            let mut flag = String::new();
            push_char(&mut flag, '-');
            push_char(&mut flag, cs[k]);
            assert(flag@ =~= seq!['-', t@[k as int]]);
            let ghost before = out;
            out.push(flag);
            proof {
                lemma_vec_push_deep_view(before, out, flag);
            }
            assert(out.deep_view() =~= Seq::new(k as nat, |i: int| seq!['-', t@[i + 1]]));
        }
        out
    } else {
        one_string(t.clone())
    }
}

// A blacklist entry can either be a single bare token (which matches if that
// token appears anywhere in the command, e.g. "lksu") or a short sequence
// (whose tokens must all appear). Long-form flags are treated as aliases of
// their short-form equivalents for the common destructive cases.
pub fn expand_aliases(tokens: &[String]) -> (out: Vec<String>)
    ensures
        out.deep_view() == expanded(tokens.deep_view()),
{
    let mut out: Vec<String> = Vec::new();
    let n = tokens.len();
    let ghost f = |t: Seq<char>| alias_of(t);
    for i in 0..n
        invariant
            n == tokens@.len(),
            f == (|t: Seq<char>| alias_of(t)),
            out.deep_view() == tokens.deep_view().take(i as int).map_values(f).flatten(),
    {
        let mut e = alias_expansion(&tokens[i]);
        let ghost before = out.deep_view();
        let ghost ev = e.deep_view();
        out.append(&mut e);
        proof {
            let pre = tokens.deep_view().take(i as int);
            assert(tokens.deep_view().take(i + 1) =~= pre.push(tokens.deep_view()[i as int]));
            assert(tokens.deep_view().take(i + 1).map_values(f) =~= pre.map_values(f).push(ev));
            pre.map_values(f).lemma_flatten_push(ev);
            assert(out.deep_view() =~= before + ev);
        }
    }
    assert(tokens.deep_view().take(n as int) =~= tokens.deep_view());
    out
}

fn contains_token(tokens: &Vec<String>, t: &String) -> (b: bool)
    ensures
        b == tokens.deep_view().contains(t@),
{
    let n = tokens.len();
    for i in 0..n
        invariant
            n == tokens.len(),
            forall|k: int| 0 <= k < i ==> tokens.deep_view()[k] != t@,
    {
        if tokens[i] == *t {
            assert(tokens.deep_view()[i as int] == t@);
            return true;
        }
    }
    false
}

/// Whether `full_command` matches a rule of `blacklist`: some rule has at least
/// one token, and each of its tokens occurs among the command's tokens, after
/// both are split at whitespace, lowercased and have their flag aliases
/// expanded.
pub fn is_blacklisted(full_command: &str, blacklist: &[String]) -> (b: bool)
    ensures
        b == blacklisted(full_command@, blacklist.deep_view()),
        b <==> exists|k: int|
            0 <= k < blacklist.len() && command_tokens(#[trigger] blacklist.deep_view()[k]).len() > 0
                && (forall|t: Seq<char>|
                command_tokens(blacklist.deep_view()[k]).contains(t) ==> command_tokens(
                    full_command@,
                ).contains(t)),
{
    proof {
        lemma_blacklisted_iff_all_rule_tokens(full_command@, blacklist.deep_view());
    }
    let cmd_tokens = expand_aliases(normalize_tokens(full_command).as_slice());
    let n = blacklist.len();
    for k in 0..n
        invariant
            n == blacklist@.len(),
            cmd_tokens.deep_view() == command_tokens(full_command@),
            forall|j: int|
                0 <= j < k ==> !rule_matches(full_command@, #[trigger] blacklist.deep_view()[j]),
    {
        let rule = &blacklist[k];
        let rule_tokens = expand_aliases(normalize_tokens(rule.as_str()).as_slice());
        let m = rule_tokens.len();
        let mut all = m > 0;
        let mut i: usize = 0;
        while all && i < m
            invariant
                m == rule_tokens.len(),
                i <= m,
                all ==> m > 0,
                all ==> forall|j: int|
                    0 <= j < i ==> cmd_tokens.deep_view().contains(
                        #[trigger] rule_tokens.deep_view()[j],
                    ),
                !all ==> (m == 0 || !cmd_tokens.deep_view().contains(
                    rule_tokens.deep_view()[i as int],
                )),
                !all ==> i < m || m == 0,
            decreases m - i + (if all { 1int } else { 0int }),
        {
            if contains_token(&cmd_tokens, &rule_tokens[i]) {
                i = i + 1;
            } else {
                all = false;
            }
        }
        assert(blacklist.deep_view()[k as int] == rule@);
        if all {
            assert(rule_matches(full_command@, blacklist.deep_view()[k as int]));
            return true;
        }
    }
    false
}

/// Whether a command is blacklisted depends only on which tokens it has, not on
/// their order, spacing or repetition.
pub proof fn lemma_blacklist_ignores_order(a: Seq<char>, b: Seq<char>, rules: Seq<Seq<char>>)
    requires
        forall|t: Seq<char>| command_tokens(a).contains(t) <==> command_tokens(b).contains(t),
    ensures
        blacklisted(a, rules) == blacklisted(b, rules),
{
    if blacklisted(a, rules) {
        let k = choose|k: int| 0 <= k < rules.len() && rule_matches(a, #[trigger] rules[k]);
        assert(rule_matches(b, rules[k]));
    }
    if blacklisted(b, rules) {
        let k = choose|k: int| 0 <= k < rules.len() && rule_matches(b, #[trigger] rules[k]);
        assert(rule_matches(a, rules[k]));
    }
}

/// A command that has every token of a blacklisted command is blacklisted too:
/// adding arguments never gets a command past the blacklist.
pub proof fn lemma_blacklist_monotone(a: Seq<char>, b: Seq<char>, rules: Seq<Seq<char>>)
    requires
        blacklisted(a, rules),
        forall|t: Seq<char>| command_tokens(a).contains(t) ==> command_tokens(b).contains(t),
    ensures
        blacklisted(b, rules),
{
    let k = choose|k: int| 0 <= k < rules.len() && rule_matches(a, #[trigger] rules[k]);
    assert(rule_matches(b, rules[k]));
}

/// A rule with at least one token matches the very command it spells.
pub proof fn lemma_rule_matches_itself(rule: Seq<char>)
    requires
        command_tokens(rule).len() > 0,
    ensures
        rule_matches(rule, rule),
        blacklisted(rule, seq![rule]),
{
    let r = command_tokens(rule);
    assert forall|i: int| 0 <= i < r.len() implies r.contains(#[trigger] r[i]) by {}
    assert(seq![rule][0] == rule);
}

/// A rule that stands for a single token matches exactly the commands that
/// have that token somewhere.
pub proof fn lemma_single_token_rule(command: Seq<char>, rule: Seq<char>)
    requires
        command_tokens(rule).len() == 1,
    ensures
        rule_matches(command, rule) == command_tokens(command).contains(command_tokens(rule)[0]),
{
}

/// Normalizing two command lines joined by a space gives the words of the
/// first followed by those of the second.
pub proof fn lemma_normalized_join(a: Seq<char>, b: Seq<char>)
    ensures
        normalized(a + " "@ + b) == normalized(a) + normalized(b),
{
    reveal_strlit(" ");
    assert(" "@ =~= seq![' ']);
    lemma_ws_tokens_join(a, b);
    let f = |t: Seq<char>| lowercase(t);
    assert((ws_tokens(a) + ws_tokens(b)).map_values(f) =~= ws_tokens(a).map_values(f) + ws_tokens(
        b,
    ).map_values(f));
}

/// Expanding the aliases of two token lists one after the other gives the
/// expansion of the first followed by that of the second.
pub proof fn lemma_expanded_concat(a: Seq<Seq<char>>, b: Seq<Seq<char>>)
    ensures
        expanded(a + b) == expanded(a) + expanded(b),
{
    let f = |t: Seq<char>| alias_of(t);
    assert((a + b).map_values(f) =~= a.map_values(f) + b.map_values(f));
    vstd::seq_lib::lemma_flatten_concat(a.map_values(f), b.map_values(f));
}

/// Whether each token stands for itself alone.
pub open spec fn alias_free(tokens: Seq<Seq<char>>) -> bool {
    forall|i: int| 0 <= i < tokens.len() ==> alias_of(#[trigger] tokens[i]) == seq![tokens[i]]
}

proof fn lemma_alias_of_alias_free(t: Seq<char>)
    ensures
        alias_free(alias_of(t)),
{
    reveal_strlit("--recursive");
    reveal_strlit("--force");
    reveal_strlit("-r");
    reveal_strlit("-f");
    let e = alias_of(t);
    assert forall|i: int| 0 <= i < e.len() implies alias_of(#[trigger] e[i]) == seq![e[i]] by {
        assert(e[i].len() <= 2 || e[i] == t);
        if e[i].len() <= 2 {
            assert(e[i] != "--recursive"@);
            assert(e[i] != "--force"@);
        }
    }
}

proof fn lemma_expanded_alias_free(x: Seq<Seq<char>>)
    ensures
        alias_free(expanded(x)),
    decreases x.len(),
{
    if x.len() > 0 {
        let init = x.drop_last();
        lemma_expanded_alias_free(init);
        lemma_alias_of_alias_free(x.last());
        assert(x =~= init + seq![x.last()]);
        lemma_expanded_concat(init, seq![x.last()]);
        let f = |t: Seq<char>| alias_of(t);
        assert(seq![x.last()].map_values(f) =~= seq![alias_of(x.last())]);
        seq![x.last()].map_values(f).lemma_flatten_singleton();
        let e = expanded(x);
        let a = expanded(init);
        assert forall|i: int| 0 <= i < e.len() implies alias_of(#[trigger] e[i]) == seq![e[i]] by {
            if i < a.len() {
                assert(e[i] == a[i]);
            } else {
                assert(e[i] == alias_of(x.last())[i - a.len()]);
            }
        }
    }
}

proof fn lemma_expanded_fixed(y: Seq<Seq<char>>)
    requires
        alias_free(y),
    ensures
        expanded(y) == y,
    decreases y.len(),
{
    if y.len() > 0 {
        let init = y.drop_last();
        assert(alias_free(init)) by {
            assert forall|i: int| 0 <= i < init.len() implies alias_of(#[trigger] init[i]) == seq![init[i]] by {
                assert(init[i] == y[i]);
            }
        }
        lemma_expanded_fixed(init);
        assert(y =~= init + seq![y.last()]);
        lemma_expanded_concat(init, seq![y.last()]);
        let f = |t: Seq<char>| alias_of(t);
        assert(alias_of(y[y.len() - 1]) == seq![y[y.len() - 1]]);
        assert(seq![y.last()].map_values(f) =~= seq![seq![y.last()]]);
        seq![y.last()].map_values(f).lemma_flatten_singleton();
    } else {
        assert(y.map_values(|t: Seq<char>| alias_of(t)) =~= Seq::<Seq<Seq<char>>>::empty());
    }
}

/// The one-letter flags that a combined short flag such as `-rf` stands for.
pub open spec fn flag_letters(t: Seq<char>) -> Seq<Seq<char>> {
    Seq::new((t.len() - 1) as nat, |i: int| seq!['-', t[i + 1]])
}

proof fn lemma_expanded_three(a: Seq<Seq<char>>, m: Seq<Seq<char>>, b: Seq<Seq<char>>)
    ensures
        expanded(a + m + b) == expanded(a) + expanded(m) + expanded(b),
{
    lemma_expanded_concat(a + m, b);
    lemma_expanded_concat(a, m);
}

proof fn lemma_expanded_single(t: Seq<char>)
    ensures
        expanded(seq![t]) == alias_of(t),
{
    let f = |x: Seq<char>| alias_of(x);
    assert(seq![t].map_values(f) =~= seq![alias_of(t)]);
    seq![alias_of(t)].lemma_flatten_singleton();
}

/// Wherever it stands among other tokens, `--recursive` counts as `-r`,
/// `--force` as `-f`, and a combined short flag (`-`, not `--`, more than two
/// characters) as its one-letter flags: this is what makes `rm -rf /`,
/// `rm -r -f /` and `rm --recursive --force /` the same command.
pub proof fn lemma_alias_equivalences(a: Seq<Seq<char>>, b: Seq<Seq<char>>, t: Seq<char>)
    ensures
        expanded(a + seq!["--recursive"@] + b) == expanded(a + seq!["-r"@] + b),
        expanded(a + seq!["--force"@] + b) == expanded(a + seq!["-f"@] + b),
        t.len() > 2 && t[0] == '-' && t[1] != '-' ==> expanded(a + seq![t] + b) == expanded(
            a + flag_letters(t) + b,
        ),
{
    reveal_strlit("--recursive");
    reveal_strlit("--force");
    reveal_strlit("-r");
    reveal_strlit("-f");
    lemma_expanded_three(a, seq!["--recursive"@], b);
    lemma_expanded_three(a, seq!["-r"@], b);
    lemma_expanded_three(a, seq!["--force"@], b);
    lemma_expanded_three(a, seq!["-f"@], b);
    lemma_expanded_single("--recursive"@);
    lemma_expanded_single("-r"@);
    lemma_expanded_single("--force"@);
    lemma_expanded_single("-f"@);
    assert("-r"@ != "--recursive"@);
    assert("-r"@ != "--force"@);
    assert("-f"@ != "--recursive"@);
    assert("-f"@ != "--force"@);
    if t.len() > 2 && t[0] == '-' && t[1] != '-' {
        assert(t != "--recursive"@);
        assert(t != "--force"@);
        lemma_expanded_three(a, seq![t], b);
        lemma_expanded_three(a, flag_letters(t), b);
        lemma_expanded_single(t);
        lemma_alias_of_alias_free(t);
        assert(alias_of(t) == flag_letters(t));
        lemma_expanded_fixed(flag_letters(t));
    }
}

/// Expanding aliases a second time changes nothing.
pub proof fn lemma_expanded_idempotent(x: Seq<Seq<char>>)
    ensures
        expanded(expanded(x)) == expanded(x),
{
    lemma_expanded_alias_free(x);
    lemma_expanded_fixed(expanded(x));
}

/// The tokens of two command lines joined by a space are the tokens of the
/// first followed by those of the second.
pub proof fn lemma_command_tokens_join(a: Seq<char>, b: Seq<char>)
    ensures
        command_tokens(a + " "@ + b) == command_tokens(a) + command_tokens(b),
{
    lemma_normalized_join(a, b);
    lemma_expanded_concat(normalized(a), normalized(b));
}

/// More words in a command, before or after it, or more rules, never take a
/// blacklisted command off the blacklist.
pub proof fn lemma_blacklist_extended(
    command: Seq<char>,
    extra: Seq<char>,
    rules: Seq<Seq<char>>,
    more: Seq<Seq<char>>,
)
    requires
        blacklisted(command, rules),
    ensures
        blacklisted(command + " "@ + extra, rules),
        blacklisted(extra + " "@ + command, rules),
        blacklisted(command, rules + more),
{
    let c = command_tokens(command);
    lemma_command_tokens_join(command, extra);
    lemma_command_tokens_join(extra, command);
    let e = command_tokens(extra);
    assert forall|t: Seq<char>| c.contains(t) implies (c + e).contains(t) by {
        let k = choose|k: int| 0 <= k < c.len() && c[k] == t;
        assert((c + e)[k] == t);
    }
    assert forall|t: Seq<char>| c.contains(t) implies (e + c).contains(t) by {
        let k = choose|k: int| 0 <= k < c.len() && c[k] == t;
        assert((e + c)[e.len() + k] == t);
    }
    lemma_blacklist_monotone(command, command + " "@ + extra, rules);
    lemma_blacklist_monotone(command, extra + " "@ + command, rules);
    let k = choose|k: int| 0 <= k < rules.len() && rule_matches(command, #[trigger] rules[k]);
    assert((rules + more)[k] == rules[k]);
}

/// A rule never matches a command that lacks one of the rule's tokens, whatever
/// its position in the rule: every token of a rule is required.
pub proof fn lemma_rule_needs_every_token(command: Seq<char>, rule: Seq<char>, t: Seq<char>)
    requires
        command_tokens(rule).contains(t),
        !command_tokens(command).contains(t),
    ensures
        !rule_matches(command, rule),
        !blacklisted(command, seq![rule]),
{
    let r = command_tokens(rule);
    let k = choose|k: int| 0 <= k < r.len() && r[k] == t;
    assert(!command_tokens(command).contains(r[k]));
    assert(seq![rule][0] == rule);
}

/// A command is blacklisted by a rule list exactly when one of the rules has
/// tokens and every one of them occurs among the command's tokens.
pub proof fn lemma_blacklisted_iff_all_rule_tokens(command: Seq<char>, rules: Seq<Seq<char>>)
    ensures
        blacklisted(command, rules) <==> exists|k: int|
            0 <= k < rules.len() && command_tokens(#[trigger] rules[k]).len() > 0 && (forall|t: Seq<char>|
                command_tokens(rules[k]).contains(t) ==> command_tokens(command).contains(t)),
{
    if blacklisted(command, rules) {
        let k = choose|k: int| 0 <= k < rules.len() && rule_matches(command, #[trigger] rules[k]);
        let r = command_tokens(rules[k]);
        assert forall|t: Seq<char>| r.contains(t) implies command_tokens(command).contains(t) by {
            let i = choose|i: int| 0 <= i < r.len() && r[i] == t;
        }
    }
    if exists|k: int|
        0 <= k < rules.len() && command_tokens(#[trigger] rules[k]).len() > 0 && (forall|t: Seq<char>|
            command_tokens(rules[k]).contains(t) ==> command_tokens(command).contains(t)) {
        let k = choose|k: int|
            0 <= k < rules.len() && command_tokens(#[trigger] rules[k]).len() > 0 && (forall|t: Seq<char>|
                command_tokens(rules[k]).contains(t) ==> command_tokens(command).contains(t));
        let r = command_tokens(rules[k]);
        assert forall|i: int| 0 <= i < r.len() implies command_tokens(command).contains(#[trigger] r[i]) by {
            assert(r.contains(r[i]));
        }
        assert(rule_matches(command, rules[k]));
    }
}

/// A rule without tokens (empty, or only whitespace) matches nothing, so an
/// empty blacklist, or one of blank rules, refuses no command.
pub proof fn lemma_blank_rules_match_nothing(command: Seq<char>, rules: Seq<Seq<char>>)
    requires
        forall|k: int| 0 <= k < rules.len() ==> command_tokens(#[trigger] rules[k]).len() == 0,
    ensures
        !blacklisted(command, rules),
{
}

} // verus!

verus! {

// ---------------------------------------------------------------------------
// Permissions

/// What a user listed in the permitted-users table may run.
#[derive(Debug)]
pub enum Permission {
    /// Any command.
    All,
    /// Exactly the commands named here.
    Commands(Vec<String>),
}

impl Permission {
    /// Whether this permission covers `command`: every command under `All`,
    /// otherwise a listed command spelled exactly the same.
    pub open spec fn grants(&self, command: Seq<char>) -> bool {
        match self {
            Permission::All => true,
            Permission::Commands(list) => list.deep_view().contains(command),
        }
    }

    /// The commands a `Commands` permission names (none for `All`).
    pub open spec fn listed(&self) -> Seq<Seq<char>> {
        match self {
            Permission::All => Seq::empty(),
            Permission::Commands(list) => list.deep_view(),
        }
    }

    pub fn allows(&self, command: &str) -> (b: bool)
        ensures
            b == self.grants(command@),
    {
        match self {
            Permission::All => true,
            Permission::Commands(list) => names_command(list, command),
        }
    }
}

/// Whether two permissions cover the same commands: both `All`, or both the
/// same list of commands.
pub open spec fn same_permission(p: Permission, q: Permission) -> bool {
    &&& (p is All) == (q is All)
    &&& p.listed() == q.listed()
}

impl Clone for Permission {
    fn clone(&self) -> (r: Self)
        ensures
            same_permission(r, *self),
    {
        match self {
            Permission::All => Permission::All,
            Permission::Commands(list) => {
                let copy = list.clone();
                assert(copy.deep_view() =~= list.deep_view()) by {
                    assert forall|i: int| 0 <= i < list.len() implies copy@[i] == list@[i] by {
                        assert(cloned::<String>(list@[i], copy@[i]));
                    }
                }
                Permission::Commands(copy)
            },
        }
    }
}

/// Whether `command` is one of `list`, spelled exactly the same.
fn names_command(list: &Vec<String>, command: &str) -> (b: bool)
    ensures
        b == list.deep_view().contains(command@),
{
    let n = list.len();
    for i in 0..n
        invariant
            n == list.len(),
            forall|k: int| 0 <= k < i ==> list.deep_view()[k] != command@,
    {
        if same_text(list[i].as_str(), command) {
            assert(list.deep_view()[i as int] == command@);
            return true;
        }
    }
    false
}

/// Whether a stored command is the keyword `ALL`, in any mix of letter case.
pub open spec fn is_all_keyword(c: Seq<char>) -> bool {
    &&& c.len() == 3
    &&& (c[0] == 'a' || c[0] == 'A')
    &&& (c[1] == 'l' || c[1] == 'L')
    &&& (c[2] == 'l' || c[2] == 'L')
}

/// Whether one of `commands` is the keyword `ALL`.
pub open spec fn names_all(commands: Seq<Seq<char>>) -> bool {
    exists|k: int| 0 <= k < commands.len() && is_all_keyword(#[trigger] commands[k])
}

/// The commands of `user`'s rows, in row order.
pub open spec fn commands_of(rows: Seq<(Seq<char>, Seq<char>)>, user: Seq<char>) -> Seq<Seq<char>>
    decreases rows.len(),
{
    if rows.len() == 0 {
        Seq::empty()
    } else {
        let earlier = commands_of(rows.drop_last(), user);
        if rows.last().0 == user {
            earlier.push(rows.last().1)
        } else {
            earlier
        }
    }
}

/// Whether one of `users` is `u`.
pub open spec fn user_listed(users: Seq<String>, u: Seq<char>) -> bool {
    exists|a: int| 0 <= a < users.len() && (#[trigger] users[a])@ == u
}

/// Whether some row of the table names `user`.
pub open spec fn has_rows(rows: Seq<(Seq<char>, Seq<char>)>, user: Seq<char>) -> bool {
    exists|k: int| 0 <= k < rows.len() && (#[trigger] rows[k]).0 == user
}

/// The permission that a user's commands add up to: `All` if one of them is the
/// keyword `ALL` (any letter case), else exactly those commands in row order.
pub open spec fn permission_from(p: Permission, commands: Seq<Seq<char>>) -> bool {
    if names_all(commands) {
        p is All
    } else {
        p is Commands && p.listed() == commands
    }
}

/// `table` is the permitted-users table that the `(username, command)` rows describe.
pub open spec fn loaded_from(table: Map<Seq<char>, Permission>, rows: Seq<(Seq<char>, Seq<char>)>) -> bool {
    &&& forall|u: Seq<char>| #[trigger] table.contains_key(u) <==> has_rows(rows, u)
    &&& forall|u: Seq<char>|
        #[trigger] table.contains_key(u) ==> permission_from(table[u], commands_of(rows, u))
}

/// Whether the rows let `user` run `command`: a row of `user` names that
/// command exactly, or names `ALL` in any letter case.
pub open spec fn rows_permit(rows: Seq<(Seq<char>, Seq<char>)>, user: Seq<char>, command: Seq<char>) -> bool {
    exists|k: int|
        0 <= k < rows.len() && (#[trigger] rows[k]).0 == user && (rows[k].1 == command
            || is_all_keyword(rows[k].1))
}

/// The map of a list of entries with distinct usernames: each username to the
/// permission of its entry.
pub open spec fn entries_map(s: Seq<(String, Permission)>) -> Map<Seq<char>, Permission> {
    Map::new(
        |u: Seq<char>| exists|i: int| 0 <= i < s.len() && (#[trigger] s[i]).0@ == u,
        |u: Seq<char>| s[choose|i: int| 0 <= i < s.len() && (#[trigger] s[i]).0@ == u].1,
    )
}

/// Whether no two entries share a username.
pub open spec fn distinct_users(s: Seq<(String, Permission)>) -> bool {
    forall|a: int, b: int| 0 <= a < b < s.len() ==> (#[trigger] s[a]).0@ != (#[trigger] s[b]).0@
}

proof fn lemma_entries_map(s: Seq<(String, Permission)>)
    requires
        distinct_users(s),
    ensures
        forall|i: int| 0 <= i < s.len() ==> #[trigger] entries_map(s).contains_key(s[i].0@),
        forall|i: int| 0 <= i < s.len() ==> entries_map(s)[(#[trigger] s[i]).0@] == s[i].1,
{
    assert forall|i: int| 0 <= i < s.len() implies entries_map(s)[(#[trigger] s[i]).0@] == s[i].1 by {
        let u = s[i].0@;
        assert(entries_map(s).contains_key(u));
        let j = choose|j: int| 0 <= j < s.len() && (#[trigger] s[j]).0@ == u;
        if j < i {
            assert(s[j].0@ != s[i].0@);
        } else if i < j {
            assert(s[i].0@ != s[j].0@);
        }
    }
}

/// The permitted-users table: which commands each listed user may run.
#[derive(Debug)]
pub struct UserLists {
    entries: Vec<(String, Permission)>,
}

impl View for UserLists {
    type V = Map<Seq<char>, Permission>;

    closed spec fn view(&self) -> Map<Seq<char>, Permission> {
        entries_map(self.entries@)
    }
}

impl Default for UserLists {
    fn default() -> (lists: UserLists)
        ensures
            lists@ == Map::<Seq<char>, Permission>::empty(),
    {
        UserLists { entries: Vec::new() }
    }
}

impl Clone for UserLists {
    fn clone(&self) -> (r: Self)
        ensures
            r@.dom() == self@.dom(),
            forall|u: Seq<char>| #[trigger] r@.contains_key(u) ==> same_permission(r@[u], self@[u]),
    {
        proof {
            use_type_invariant(self);
        }
        let n = self.entries.len();
        let mut entries: Vec<(String, Permission)> = Vec::new();
        for i in 0..n
            invariant
                n == self.entries.len(),
                distinct_users(self.entries@),
                entries.len() == i,
                forall|k: int| 0 <= k < i ==> (#[trigger] entries@[k]).0@ == self.entries@[k].0@,
                forall|k: int| 0 <= k < i ==> same_permission((#[trigger] entries@[k]).1, self.entries@[k].1),
        {
            let name = self.entries[i].0.clone();
            let perm = self.entries[i].1.clone();
            entries.push((name, perm));
        }
        let ghost s = self.entries@;
        proof {
            assert(distinct_users(entries@)) by {
                assert forall|a: int, b: int| 0 <= a < b < entries@.len() implies (#[trigger] entries@[a]).0@
                    != (#[trigger] entries@[b]).0@ by {
                    assert(s[a].0@ != s[b].0@);
                }
            }
            lemma_entries_map(entries@);
            lemma_entries_map(s);
            let t = entries_map(entries@);
            let m = entries_map(s);
            assert forall|u: Seq<char>| t.contains_key(u) <==> m.contains_key(u) by {
                if t.contains_key(u) {
                    let k = choose|k: int| 0 <= k < entries@.len() && (#[trigger] entries@[k]).0@ == u;
                    assert(m.contains_key(s[k].0@));
                }
                if m.contains_key(u) {
                    let k = choose|k: int| 0 <= k < s.len() && (#[trigger] s[k]).0@ == u;
                    assert(t.contains_key(entries@[k].0@));
                }
            }
            assert(t.dom() =~= m.dom());
            assert forall|u: Seq<char>| #[trigger] t.contains_key(u) implies same_permission(t[u], m[u]) by {
                let k = choose|k: int| 0 <= k < entries@.len() && (#[trigger] entries@[k]).0@ == u;
                assert(t[entries@[k].0@] == entries@[k].1);
                assert(m[s[k].0@] == s[k].1);
            }
        }
        UserLists { entries }
    }
}

impl UserLists {
    #[verifier::type_invariant]
    spec fn well_formed(self) -> bool {
        distinct_users(self.entries@)
    }

    /// Builds the table from its `(username, command)` rows: a user is listed
    /// when it has a row; its permission is `All` when one of its commands is
    /// `ALL` in any letter case, otherwise its commands in row order.
    pub fn from_rows(rows: Vec<(String, String)>) -> (lists: UserLists)
        ensures
            loaded_from(lists@, rows.deep_view()),
            forall|k: int|
                0 <= k < rows.len() && (#[trigger] rows.deep_view()[k]).1.map_values(
                    |x: char| ascii_lower(x),
                ) == seq!['a', 'l', 'l'] ==> lists@.contains_key(rows.deep_view()[k].0)
                    && lists@[rows.deep_view()[k].0] is All,
    {
        let ghost r = rows.deep_view();
        let users = users_of(&rows);
        let m = users.len();
        let mut entries: Vec<(String, Permission)> = Vec::new();
        for a in 0..m
            invariant
                m == users.len(),
                r == rows.deep_view(),
                forall|x: int, y: int| 0 <= x < y < users.len() ==> (#[trigger] users@[x])@ != (#[trigger] users@[y])@,
                forall|u: Seq<char>| #[trigger] has_rows(r, u) == user_listed(users@, u),
                entries.len() == a,
                forall|x: int| 0 <= x < a ==> (#[trigger] entries@[x]).0@ == users@[x]@,
                forall|x: int| 0 <= x < a ==> permission_from((#[trigger] entries@[x]).1, commands_of(r, users@[x]@)),
        {
            let list = commands_for(&rows, &users[a]);
            let all = any_all_keyword(&list);
            let perm = if all {
                Permission::All
            } else {
                Permission::Commands(list)
            };
            entries.push((users[a].clone(), perm));
        }
        proof {
            assert(distinct_users(entries@)) by {
                assert forall|x: int, y: int| 0 <= x < y < entries@.len() implies (#[trigger] entries@[x]).0@ != (#[trigger] entries@[y]).0@ by {
                    assert(users@[x]@ != users@[y]@);
                }
            }
            lemma_entries_map(entries@);
            let t = entries_map(entries@);
            assert forall|u: Seq<char>| #[trigger] t.contains_key(u) <==> has_rows(r, u) by {
                if t.contains_key(u) {
                    let x = choose|x: int| 0 <= x < entries@.len() && (#[trigger] entries@[x]).0@ == u;
                    assert(users@[x]@ == u);
                }
                if has_rows(r, u) {
                    let x = choose|x: int| 0 <= x < users.len() && (#[trigger] users@[x])@ == u;
                    assert(entries@[x].0@ == u);
                    assert(t.contains_key(entries@[x].0@));
                }
            }
            assert forall|u: Seq<char>| #[trigger] t.contains_key(u) implies permission_from(t[u], commands_of(r, u)) by {
                let x = choose|x: int| 0 <= x < entries@.len() && (#[trigger] entries@[x]).0@ == u;
                assert(t[entries@[x].0@] == entries@[x].1);
            }
            assert forall|k: int|
                0 <= k < rows.len() && (#[trigger] r[k]).1.map_values(|x: char| ascii_lower(x)) == seq![
                    'a',
                    'l',
                    'l',
                ] implies t.contains_key(r[k].0) && t[r[k].0] is All by {
                lemma_all_row_grants_everything(t, r, k, r[k].1);
            }
        }
        UserLists { entries }
    }

    /// Whether `user` may run `command`: it is listed and its permission covers the command.
    pub fn is_permitted(&self, user: &str, command: &str) -> (b: bool)
        ensures
            b == (self@.contains_key(user@) && self@[user@].grants(command@)),
    {
        match self.permissions_for(user) {
            Some(perm) => perm.allows(command),
            None => false,
        }
    }

    /// The permission of `user`, if it is listed.
    pub fn permissions_for(&self, user: &str) -> (p: Option<&Permission>)
        ensures
            match p {
                Some(perm) => self@.contains_key(user@) && *perm == self@[user@],
                None => !self@.contains_key(user@),
            },
    {
        proof {
            use_type_invariant(self);
            lemma_entries_map(self.entries@);
        }
        let name = user.to_string();
        let n = self.entries.len();
        for i in 0..n
            invariant
                n == self.entries.len(),
                name@ == user@,
                forall|k: int| 0 <= k < i ==> (#[trigger] self.entries@[k]).0@ != user@,
        {
            if self.entries[i].0 == name {
                proof {
                    use_type_invariant(self);
                    lemma_entries_map(self.entries@);
                }
                return Some(&self.entries[i].1);
            }
        }
        assert(!self@.contains_key(user@)) by {
            if self@.contains_key(user@) {
                let k = choose|k: int| 0 <= k < self.entries@.len() && (#[trigger] self.entries@[k]).0@ == user@;
                assert(self.entries@[k].0@ != user@);
            }
        }
        None
    }
}

/// The distinct usernames of the rows, in order of first appearance.
fn users_of(rows: &Vec<(String, String)>) -> (users: Vec<String>)
    ensures
        forall|a: int, b: int| 0 <= a < b < users.len() ==> (#[trigger] users@[a])@ != (#[trigger] users@[b])@,
        forall|u: Seq<char>| #[trigger] has_rows(rows.deep_view(), u) == user_listed(users@, u),
{
    let ghost r = rows.deep_view();
    let mut users: Vec<String> = Vec::new();
    let n = rows.len();
    let mut i: usize = 0;
    while i < n
        invariant
            i <= n,
            n == rows.len(),
            r == rows.deep_view(),
            forall|a: int, b: int| 0 <= a < b < users.len() ==> (#[trigger] users@[a])@ != (#[trigger] users@[b])@,
            forall|u: Seq<char>| #[trigger] has_rows(r.take(i as int), u) == user_listed(users@, u),
        decreases n - i,
    {
        let user = &rows[i].0;
        let ghost pre = r.take(i as int);
        let ghost post = r.take(i + 1);
        let ghost old_users = users@;
        assert(r[i as int].0 == user@);
        if position_of(&users, user).is_none() {
            users.push(user.clone());
        }
        assert forall|u: Seq<char>| #[trigger] has_rows(post, u) == user_listed(users@, u) by {
            if has_rows(post, u) {
                let k = choose|k: int| 0 <= k < post.len() && (#[trigger] post[k]).0 == u;
                if k < i {
                    assert(pre[k] == post[k]);
                    assert(has_rows(pre, u));
                    let a = choose|a: int| 0 <= a < old_users.len() && (#[trigger] old_users[a])@ == u;
                    assert(users@[a] == old_users[a]);
                } else {
                    assert(u == user@);
                    if user_listed(old_users, u) {
                        let a = choose|a: int| 0 <= a < old_users.len() && (#[trigger] old_users[a])@ == u;
                        assert(users@[a] == old_users[a]);
                    } else {
                        assert(users@[old_users.len() as int]@ == u);
                    }
                }
            }
            if user_listed(users@, u) {
                let a = choose|a: int| 0 <= a < users.len() && (#[trigger] users@[a])@ == u;
                if a < old_users.len() {
                    assert(users@[a] == old_users[a]);
                    assert(user_listed(old_users, u));
                    assert(has_rows(pre, u));
                    let k = choose|k: int| 0 <= k < pre.len() && (#[trigger] pre[k]).0 == u;
                    assert(post[k] == pre[k]);
                } else {
                    assert(post[i as int].0 == u);
                }
            }
        }
        i = i + 1;
    }
    assert(r.take(n as int) =~= r);
    users
}

/// The commands of `user`'s rows, in row order.
fn commands_for(rows: &Vec<(String, String)>, user: &String) -> (cmds: Vec<String>)
    ensures
        cmds.deep_view() == commands_of(rows.deep_view(), user@),
{
    let ghost r = rows.deep_view();
    let mut cmds: Vec<String> = Vec::new();
    let n = rows.len();
    for i in 0..n
        invariant
            n == rows.len(),
            r == rows.deep_view(),
            cmds.deep_view() == commands_of(r.take(i as int), user@),
    {
        assert(r.take(i + 1).drop_last() =~= r.take(i as int));
        assert(r.take(i + 1).last() == (rows@[i as int].0@, rows@[i as int].1@));
        if rows[i].0 == *user {
            let c = rows[i].1.clone();
            let ghost before = cmds;
            let ghost cg = c;
            cmds.push(c);
            proof {
                lemma_vec_push_deep_view(before, cmds, cg);
            }
        }
    }
    assert(r.take(n as int) =~= r);
    cmds
}

/// The index of `user` in `users`, if it occurs there.
fn position_of(users: &Vec<String>, user: &String) -> (r: Option<usize>)
    ensures
        match r {
            Some(j) => j < users.len() && users@[j as int]@ == user@,
            None => forall|a: int| 0 <= a < users.len() ==> (#[trigger] users@[a])@ != user@,
        },
{
    let n = users.len();
    for j in 0..n
        invariant
            n == users.len(),
            forall|a: int| 0 <= a < j ==> (#[trigger] users@[a])@ != user@,
    {
        if users[j] == *user {
            return Some(j);
        }
    }
    None
}

/// Whether one of `list` is the keyword `ALL` in any letter case.
fn any_all_keyword(list: &Vec<String>) -> (b: bool)
    ensures
        b == names_all(list.deep_view()),
{
    let n = list.len();
    for i in 0..n
        invariant
            n == list.len(),
            forall|k: int| 0 <= k < i ==> !is_all_keyword(#[trigger] list.deep_view()[k]),
    {
        let cs = chars_vec(list[i].as_str());
        assert(list.deep_view()[i as int] == cs@);
        if cs.len() == 3 && (cs[0] == 'a' || cs[0] == 'A') && (cs[1] == 'l' || cs[1] == 'L') && (
        cs[2] == 'l' || cs[2] == 'L') {
            return true;
        }
    }
    false
}

proof fn lemma_commands_of_contains(rows: Seq<(Seq<char>, Seq<char>)>, user: Seq<char>, c: Seq<char>)
    ensures
        commands_of(rows, user).contains(c) <==> exists|k: int|
            0 <= k < rows.len() && (#[trigger] rows[k]).0 == user && rows[k].1 == c,
    decreases rows.len(),
{
    if rows.len() > 0 {
        let t = rows.drop_last();
        lemma_commands_of_contains(t, user, c);
        let e = commands_of(t, user);
        if commands_of(rows, user).contains(c) {
            if e.contains(c) {
                let k = choose|k: int| 0 <= k < t.len() && (#[trigger] t[k]).0 == user && t[k].1 == c;
                assert(rows[k] == t[k]);
            } else {
                let j = choose|j: int| 0 <= j < commands_of(rows, user).len() && commands_of(rows, user)[j] == c;
                if rows.last().0 == user {
                    assert(j == e.len());
                    assert(rows[rows.len() - 1] == rows.last());
                }
            }
        }
        if exists|k: int| 0 <= k < rows.len() && (#[trigger] rows[k]).0 == user && rows[k].1 == c {
            let k = choose|k: int| 0 <= k < rows.len() && (#[trigger] rows[k]).0 == user && rows[k].1 == c;
            if k < rows.len() - 1 {
                assert(t[k] == rows[k]);
                let j = choose|j: int| 0 <= j < e.len() && e[j] == c;
                if rows.last().0 == user {
                    assert(commands_of(rows, user)[j] == c);
                } else {
                    assert(commands_of(rows, user)[j] == c);
                }
            } else {
                assert(commands_of(rows, user).last() == c);
                assert(commands_of(rows, user)[commands_of(rows, user).len() - 1] == c);
            }
        }
    }
}

/// The keyword `ALL` in any letter case: a stored command is the keyword exactly
/// when its ASCII lowercase form is `all`.
pub proof fn lemma_all_keyword_is_case_insensitive(c: Seq<char>)
    ensures
        is_all_keyword(c) <==> c.map_values(|x: char| ascii_lower(x)) == seq!['a', 'l', 'l'],
{
    let low = c.map_values(|x: char| ascii_lower(x));
    if is_all_keyword(c) {
        assert(low =~= seq!['a', 'l', 'l']);
    }
    if low == seq!['a', 'l', 'l'] {
        assert(low.len() == 3);
        assert(c.len() == 3);
        assert(low[0] == ascii_lower(c[0]));
        assert(low[1] == ascii_lower(c[1]));
        assert(low[2] == ascii_lower(c[2]));
    }
}

/// A row whose command lowercases (ASCII) to `all` lets its user run every command.
pub proof fn lemma_all_row_grants_everything(
    table: Map<Seq<char>, Permission>,
    rows: Seq<(Seq<char>, Seq<char>)>,
    k: int,
    command: Seq<char>,
)
    requires
        loaded_from(table, rows),
        0 <= k < rows.len(),
        rows[k].1.map_values(|x: char| ascii_lower(x)) == seq!['a', 'l', 'l'],
    ensures
        table.contains_key(rows[k].0),
        table[rows[k].0] is All,
        table[rows[k].0].grants(command),
{
    lemma_all_keyword_is_case_insensitive(rows[k].1);
    assert(rows_permit(rows, rows[k].0, command));
    lemma_loaded_permission(table, rows, rows[k].0, command);
    let cmds = commands_of(rows, rows[k].0);
    lemma_commands_of_contains(rows, rows[k].0, rows[k].1);
    let j = choose|j: int| 0 <= j < cmds.len() && cmds[j] == rows[k].1;
    assert(is_all_keyword(cmds[j]));
}

/// A table loaded from rows lets a user run a command exactly when one of that
/// user's rows names the command, or names `ALL` in any letter case.
pub proof fn lemma_loaded_permission(
    table: Map<Seq<char>, Permission>,
    rows: Seq<(Seq<char>, Seq<char>)>,
    user: Seq<char>,
    command: Seq<char>,
)
    requires
        loaded_from(table, rows),
    ensures
        (table.contains_key(user) && table[user].grants(command)) == rows_permit(rows, user, command),
{
    let cmds = commands_of(rows, user);
    if table.contains_key(user) && table[user].grants(command) {
        if names_all(cmds) {
            let j = choose|j: int| 0 <= j < cmds.len() && is_all_keyword(#[trigger] cmds[j]);
            lemma_commands_of_contains(rows, user, cmds[j]);
            assert(cmds.contains(cmds[j]));
        } else {
            lemma_commands_of_contains(rows, user, command);
        }
    }
    if rows_permit(rows, user, command) {
        let k = choose|k: int|
            0 <= k < rows.len() && (#[trigger] rows[k]).0 == user && (rows[k].1 == command
                || is_all_keyword(rows[k].1));
        assert(has_rows(rows, user));
        assert(table.contains_key(user));
        lemma_commands_of_contains(rows, user, rows[k].1);
        let j = choose|j: int| 0 <= j < cmds.len() && cmds[j] == rows[k].1;
        if !names_all(cmds) {
            assert(!is_all_keyword(cmds[j]));
            lemma_commands_of_contains(rows, user, command);
        }
    }
}

} // verus!
