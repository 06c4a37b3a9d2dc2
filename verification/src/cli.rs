//! What an `lksu` command line asks for.
use vstd::prelude::*;
use vstd::string::*;
use crate::text::{same_text, lemma_vec_push_deep_view};

verus! {

broadcast use vstd::string::group_string_axioms;

/// What an `lksu` invocation asks for.
#[derive(Debug)]
pub enum Request {
    /// Print the usage text (`-h`, `--help`, or no argument at all).
    Help,
    /// `-a`/`--add <username> [command|ALL]...`: list a user.
    Add { target: Option<String>, commands: Vec<String> },
    /// `-e`/`--edit <username> [command|ALL]...`: replace a listed user's commands.
    Edit { target: Option<String>, commands: Vec<String> },
    /// `-r`/`--remove <username>`: take a user off the list.
    Remove { target: Option<String> },
    /// `-ul`/`--user-list`: list the permitted users.
    UserList,
    /// `-cl`/`--command-list`: list the caller's permitted commands.
    CommandList,
    /// `-rc`/`--reset-cache`: forget the caller's remembered authentication.
    ResetCache,
    /// Anything else: run `command` with `args` as root.
    Run { command: String, args: Vec<String> },
}

/// Whether `arg` is the option spelled `long` or `short`.
pub open spec fn is_option(arg: Seq<char>, long: Seq<char>, short: Seq<char>) -> bool {
    arg == long || arg == short
}

/// The argument at `k`, if there is one.
pub open spec fn arg_at(args: Seq<Seq<char>>, k: int) -> Option<Seq<char>> {
    if k < args.len() {
        Some(args[k])
    } else {
        None
    }
}

/// The arguments from `k` on (none if there are fewer than `k`).
pub open spec fn args_from(args: Seq<Seq<char>>, k: int) -> Seq<Seq<char>> {
    if k <= args.len() {
        args.subrange(k, args.len() as int)
    } else {
        Seq::empty()
    }
}

/// Whether `r` is what the command line `args` (program name first) asks for.
/// The first argument decides, options being tried in the order of this list.
pub open spec fn asks_for(r: Request, args: Seq<Seq<char>>) -> bool {
    if args.len() < 2 || is_option(args[1], "--help"@, "-h"@) {
        r is Help
    } else if is_option(args[1], "--add"@, "-a"@) {
        r matches Request::Add { target, commands } && target.deep_view() == arg_at(args, 2)
            && commands.deep_view() == args_from(args, 3)
    } else if is_option(args[1], "--edit"@, "-e"@) {
        r matches Request::Edit { target, commands } && target.deep_view() == arg_at(args, 2)
            && commands.deep_view() == args_from(args, 3)
    } else if is_option(args[1], "--remove"@, "-r"@) {
        r matches Request::Remove { target } && target.deep_view() == arg_at(args, 2)
    } else if is_option(args[1], "--user-list"@, "-ul"@) {
        r is UserList
    } else if is_option(args[1], "--command-list"@, "-cl"@) {
        r is CommandList
    } else if is_option(args[1], "--reset-cache"@, "-rc"@) {
        r is ResetCache
    } else {
        r matches Request::Run { command, args: rest } && command@ == args[1] && rest.deep_view()
            == args_from(args, 2)
    }
}

/// An add or edit request with a username takes it from the argument after the
/// option, and its commands are all the arguments after the username: the
/// username followed by the commands spells exactly the rest of the line.
pub proof fn lemma_add_edit_arguments(r: Request, args: Seq<Seq<char>>)
    requires
        asks_for(r, args),
        args.len() >= 3,
    ensures
        r matches Request::Add { target, commands } ==> target.deep_view() == Some(args[2])
            && seq![args[2]] + commands.deep_view() == args.subrange(2, args.len() as int),
        r matches Request::Edit { target, commands } ==> target.deep_view() == Some(args[2])
            && seq![args[2]] + commands.deep_view() == args.subrange(2, args.len() as int),
{
    assert(seq![args[2]] + args.subrange(3, args.len() as int) =~= args.subrange(2, args.len() as int));
}

/// A command to run is the first argument after the program name, and its
/// arguments are all those after it: command and arguments spell exactly the
/// rest of the line. An add or edit request without a username has nothing
/// after the option, so no commands either.
pub proof fn lemma_run_arguments(r: Request, args: Seq<Seq<char>>)
    requires
        asks_for(r, args),
    ensures
        r matches Request::Run { command, args: rest } ==> args.len() >= 2 && seq![command@]
            + rest.deep_view() == args.subrange(1, args.len() as int),
        r matches Request::Add { target, commands } ==> (target is None <==> args.len() == 2) && (
        target is None ==> commands.deep_view().len() == 0),
        r matches Request::Edit { target, commands } ==> (target is None <==> args.len() == 2) && (
        target is None ==> commands.deep_view().len() == 0),
{
    if args.len() >= 2 {
        assert(seq![args[1]] + args.subrange(2, args.len() as int) =~= args.subrange(1, args.len() as int));
    }
}

fn option_is(arg: &String, long: &str, short: &str) -> (b: bool)
    ensures
        b == is_option(arg@, long@, short@),
{
    same_text(arg.as_str(), long) || same_text(arg.as_str(), short)
}

fn arg_at_exec(args: &Vec<String>, k: usize) -> (r: Option<String>)
    ensures
        r.deep_view() == arg_at(args.deep_view(), k as int),
{
    if k < args.len() {
        Some(args[k].clone())
    } else {
        None
    }
}

fn args_from_exec(args: &Vec<String>, k: usize) -> (r: Vec<String>)
    ensures
        r.deep_view() == args_from(args.deep_view(), k as int),
{
    let mut r: Vec<String> = Vec::new();
    let n = args.len();
    if k > n {
        assert(r.deep_view() =~= Seq::<Seq<char>>::empty());
        return r;
    }
    let mut i = k;
    while i < n
        invariant
            n == args.len(),
            k <= i <= n,
            r.deep_view() == args.deep_view().subrange(k as int, i as int),
        decreases n - i,
    {
        let x = args[i].clone();
        let ghost before = r;
        let ghost xg = x;
        r.push(x);
        proof {
            lemma_vec_push_deep_view(before, r, xg);
        }
        assert(r.deep_view() =~= args.deep_view().subrange(k as int, i + 1));
        i = i + 1;
    }
    r
}

/// What the command line `args` (program name first) asks for.
pub fn parse_request(args: &Vec<String>) -> (r: Request)
    ensures
        asks_for(r, args.deep_view()),
{
    let ghost a = args.deep_view();
    if args.len() < 2 {
        return Request::Help;
    }
    assert(a[1] == args@[1]@);
    let first = &args[1];
    if option_is(first, "--help", "-h") {
        Request::Help
    } else if option_is(first, "--add", "-a") {
        Request::Add { target: arg_at_exec(args, 2), commands: args_from_exec(args, 3) }
    } else if option_is(first, "--edit", "-e") {
        Request::Edit { target: arg_at_exec(args, 2), commands: args_from_exec(args, 3) }
    } else if option_is(first, "--remove", "-r") {
        Request::Remove { target: arg_at_exec(args, 2) }
    } else if option_is(first, "--user-list", "-ul") {
        Request::UserList
    } else if option_is(first, "--command-list", "-cl") {
        Request::CommandList
    } else if option_is(first, "--reset-cache", "-rc") {
        Request::ResetCache
    } else {
        Request::Run { command: first.clone(), args: args_from_exec(args, 2) }
    }
}

/// `words` separated by single spaces.
pub open spec fn joined(words: Seq<Seq<char>>) -> Seq<char>
    decreases words.len(),
{
    if words.len() == 0 {
        Seq::empty()
    } else if words.len() == 1 {
        words[0]
    } else {
        joined(words.drop_last()) + " "@ + words.last()
    }
}

/// The command line as it is logged: every argument after the program name,
/// separated by single spaces.
pub fn full_command(args: &Vec<String>) -> (s: String)
    ensures
        s@ == joined(args_from(args.deep_view(), 1)),
{
    let rest = args_from_exec(args, 1);
    let ghost w = rest.deep_view();
    let mut s = String::new();
    let n = rest.len();
    let mut i: usize = 0;
    assert(w.take(0) =~= Seq::<Seq<char>>::empty());
    while i < n
        invariant
            n == rest.len(),
            w == rest.deep_view(),
            i <= n,
            s@ == joined(w.take(i as int)),
        decreases n - i,
    {
        assert(w.take(i + 1).drop_last() =~= w.take(i as int));
        assert(w[i as int] == rest@[i as int]@);
        if i > 0 {
            s.append(" ");
        } else {
            assert(s@ =~= Seq::<char>::empty());
        }
        s.append(rest[i].as_str());
        assert(s@ =~= joined(w.take(i + 1)));
        i = i + 1;
    }
    assert(w.take(n as int) =~= w);
    s
}

/// The name under which a management request is logged: `lksu ` and the command line.
pub fn management_command(full_command: &str) -> (s: String)
    ensures
        s@ == "lksu "@ + full_command@,
{
    let mut s = "lksu ".to_string();
    s.append(full_command);
    s
}

} // verus!
