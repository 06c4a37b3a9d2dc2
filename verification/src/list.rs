//! The accounts that `--user-list` shows: real accounts of the system, in uid order.
use vstd::prelude::*;
use vstd::string::*;
use crate::passwd::{passwd_entries, passwd_records};

verus! {

broadcast use vstd::string::group_string_axioms;

/// One row of `--user-list` output.
#[derive(Debug)]
pub struct SystemAccount {
    pub username: String,
    pub uid: u32,
}

/// The `(username, uid)` pairs of a list of accounts.
pub open spec fn account_pairs(accounts: Seq<SystemAccount>) -> Seq<(Seq<char>, u32)> {
    accounts.map_values(|a: SystemAccount| (a.username@, a.uid))
}

/// Whether an account is shown: root, and every account whose uid is at least
/// `min_uid` (1000 on most distributions, `UID_MIN` in `/etc/login.defs`), so
/// that system and service accounts stay out of the list.
pub open spec fn is_shown(uid: u32, min_uid: u32) -> bool {
    uid == 0 || uid >= min_uid
}

/// The records that are shown, in file order.
pub open spec fn shown_records(records: Seq<(Seq<char>, u32)>, min_uid: u32) -> Seq<(Seq<char>, u32)> {
    records.filter(|r: (Seq<char>, u32)| is_shown(r.1, min_uid))
}

/// The records with uid `k`, in order.
pub open spec fn with_uid(s: Seq<(Seq<char>, u32)>, k: u32) -> Seq<(Seq<char>, u32)> {
    s.filter(|r: (Seq<char>, u32)| r.1 == k)
}

/// Whether `s` is in ascending uid order.
pub open spec fn uid_ordered(s: Seq<(Seq<char>, u32)>) -> bool {
    forall|i: int, j: int| 0 <= i < j < s.len() ==> (#[trigger] s[i]).1 <= (#[trigger] s[j]).1
}

/// `out` is `input` sorted by uid, records with equal uids keeping their order:
/// it is in uid order and, for every uid, holds the records with that uid in
/// the order of `input`.
pub open spec fn stably_sorted(out: Seq<(Seq<char>, u32)>, input: Seq<(Seq<char>, u32)>) -> bool {
    &&& uid_ordered(out)
    &&& forall|k: u32| #[trigger] with_uid(out, k) == with_uid(input, k)
}

proof fn lemma_filter_none<A>(s: Seq<A>, p: spec_fn(A) -> bool)
    requires
        forall|i: int| 0 <= i < s.len() ==> !p(#[trigger] s[i]),
    ensures
        s.filter(p) == Seq::<A>::empty(),
    decreases s.len(),
{
    reveal(Seq::filter);
    if s.len() > 0 {
        let t = s.drop_last();
        assert forall|i: int| 0 <= i < t.len() implies !p(#[trigger] t[i]) by {
            assert(t[i] == s[i]);
        }
        lemma_filter_none(t, p);
        assert(!p(s[s.len() - 1]));
    }
}

proof fn lemma_singleton_filter<A>(x: A, p: spec_fn(A) -> bool)
    ensures
        seq![x].filter(p) == (if p(x) { seq![x] } else { Seq::<A>::empty() }),
{
    reveal(Seq::filter);
    assert(seq![x].drop_last() =~= Seq::<A>::empty());
    assert(Seq::<A>::empty().filter(p) =~= Seq::<A>::empty());
    if p(x) {
        assert(Seq::<A>::empty().push(x) =~= seq![x]);
    }
}

/// Inserting `x` right after the last record whose uid is at most `x`'s keeps a
/// stable sort stable, now of the input with `x` appended.
proof fn lemma_insert_stable(
    out: Seq<(Seq<char>, u32)>,
    input: Seq<(Seq<char>, u32)>,
    x: (Seq<char>, u32),
    p: int,
)
    requires
        stably_sorted(out, input),
        0 <= p <= out.len(),
        forall|i: int| 0 <= i < p ==> (#[trigger] out[i]).1 <= x.1,
        forall|i: int| p <= i < out.len() ==> (#[trigger] out[i]).1 > x.1,
    ensures
        stably_sorted(out.insert(p, x), input.push(x)),
{
    broadcast use Seq::filter_distributes_over_add, Seq::lemma_filter_push;

    let o2 = out.insert(p, x);
    let a = out.take(p);
    let b = out.skip(p);
    assert(out =~= a + b);
    assert(o2 =~= a + seq![x] + b);
    assert forall|i: int, j: int| 0 <= i < j < o2.len() implies (#[trigger] o2[i]).1 <= (
    #[trigger] o2[j]).1 by {
        if j < p {
            assert(o2[i] == out[i] && o2[j] == out[j]);
        } else if j == p {
            assert(o2[i] == out[i]);
        } else if i < p {
            assert(o2[i] == out[i] && o2[j] == out[j - 1]);
        } else if i == p {
            assert(o2[j] == out[j - 1]);
        } else {
            assert(o2[i] == out[i - 1] && o2[j] == out[j - 1]);
        }
    }
    assert forall|k: u32| #[trigger] with_uid(o2, k) == with_uid(input.push(x), k) by {
        let pk = |r: (Seq<char>, u32)| r.1 == k;
        assert(with_uid(o2, k) == (a + seq![x] + b).filter(pk));
        assert((a + seq![x] + b).filter(pk) == (a + seq![x]).filter(pk) + b.filter(pk));
        assert((a + seq![x]).filter(pk) == a.filter(pk) + seq![x].filter(pk));
        assert(with_uid(out, k) == (a + b).filter(pk));
        assert((a + b).filter(pk) == a.filter(pk) + b.filter(pk));
        lemma_singleton_filter(x, pk);
        if x.1 == k {
            assert forall|i: int| 0 <= i < b.len() implies !pk(#[trigger] b[i]) by {
                assert(b[i] == out[p + i]);
            }
            lemma_filter_none(b, pk);
            assert(with_uid(o2, k) =~= with_uid(input.push(x), k));
        } else {
            assert(with_uid(o2, k) =~= with_uid(input.push(x), k));
        }
    }
}

proof fn lemma_filter_contains_iff<A>(s: Seq<A>, p: spec_fn(A) -> bool, x: A)
    ensures
        s.filter(p).contains(x) <==> s.contains(x) && p(x),
{
    if s.filter(p).contains(x) {
        s.lemma_filter_contains_rev(p, x);
        let i = choose|i: int| 0 <= i < s.filter(p).len() && s.filter(p)[i] == x;
        s.lemma_filter_pred(p, i);
    }
    if s.contains(x) && p(x) {
        let i = choose|i: int| 0 <= i < s.len() && s[i] == x;
        s.lemma_filter_contains(p, i);
    }
}

/// The listing holds an account exactly when the passwd records hold it and it
/// is root (uid 0) or its uid is at least `min_uid`.
pub proof fn lemma_listed_accounts(
    out: Seq<(Seq<char>, u32)>,
    records: Seq<(Seq<char>, u32)>,
    min_uid: u32,
    x: (Seq<char>, u32),
)
    requires
        stably_sorted(out, shown_records(records, min_uid)),
    ensures
        out.contains(x) <==> records.contains(x) && (x.1 == 0 || x.1 >= min_uid),
{
    let input = shown_records(records, min_uid);
    let pk = |r: (Seq<char>, u32)| r.1 == x.1;
    assert(with_uid(out, x.1) == with_uid(input, x.1));
    lemma_filter_contains_iff(out, pk, x);
    lemma_filter_contains_iff(input, pk, x);
    lemma_filter_contains_iff(records, |r: (Seq<char>, u32)| is_shown(r.1, min_uid), x);
}

/// Where `uid` goes in the uid-ordered `out`: after every account whose uid is
/// at most `uid`.
fn insert_position(out: &Vec<SystemAccount>, uid: u32) -> (p: usize)
    requires
        uid_ordered(account_pairs(out@)),
    ensures
        p <= out.len(),
        forall|i: int| 0 <= i < p ==> (#[trigger] out@[i]).uid <= uid,
        forall|i: int| p <= i < out.len() ==> (#[trigger] out@[i]).uid > uid,
{
    let n = out.len();
    let mut p: usize = 0;
    while p < n && out[p].uid <= uid
        invariant
            n == out.len(),
            p <= n,
            uid_ordered(account_pairs(out@)),
            forall|i: int| 0 <= i < p ==> (#[trigger] out@[i]).uid <= uid,
        decreases n - p,
    {
        p = p + 1;
    }
    assert forall|i: int| p <= i < out.len() implies (#[trigger] out@[i]).uid > uid by {
        if i > p {
            assert(account_pairs(out@)[p as int].1 <= account_pairs(out@)[i].1);
        }
    }
    p
}

/// The accounts that `--user-list` shows, from the text of a passwd file: root
/// and every account with a uid of at least `min_uid`, in ascending uid order,
/// accounts with equal uids in file order.
pub fn system_accounts(passwd: &str, min_uid: u32) -> (accounts: Vec<SystemAccount>)
    ensures
        stably_sorted(account_pairs(accounts@), shown_records(passwd_records(passwd@), min_uid)),
{
    let records = passwd_entries(passwd);
    let ghost rv = records.deep_view();
    let ghost shown = |r: (Seq<char>, u32)| is_shown(r.1, min_uid);
    let mut accounts: Vec<SystemAccount> = Vec::new();
    let n = records.len();
    let mut i: usize = 0;
    proof {
        assert forall|k: u32| #[trigger] with_uid(account_pairs(accounts@), k) == with_uid(
            rv.take(0).filter(shown),
            k,
        ) by {
            reveal(Seq::filter);
            assert(account_pairs(accounts@) =~= Seq::<(Seq<char>, u32)>::empty());
            assert(rv.take(0) =~= Seq::<(Seq<char>, u32)>::empty());
        }
    }
    while i < n
        invariant
            i <= n,
            n == records.len(),
            rv == records.deep_view(),
            rv == passwd_records(passwd@),
            shown == (|r: (Seq<char>, u32)| is_shown(r.1, min_uid)),
            stably_sorted(account_pairs(accounts@), rv.take(i as int).filter(shown)),
        decreases n - i,
    {
        let (name, uid) = (records[i].0.clone(), records[i].1);
        let ghost pre = rv.take(i as int);
        assert(rv.take(i + 1) =~= pre.push(rv[i as int]));
        assert(rv[i as int] == (name@, uid));
        proof {
            pre.lemma_filter_push((name@, uid), shown);
        }
        if uid == 0 || uid >= min_uid {
            let p = insert_position(&accounts, uid);
            let ghost before = account_pairs(accounts@);
            proof {
                lemma_insert_stable(before, pre.filter(shown), (name@, uid), p as int);
            }
            accounts.insert(p, SystemAccount { username: name, uid });
            assert(account_pairs(accounts@) =~= before.insert(p as int, (name@, uid)));
            assert(pre.push((name@, uid)).filter(shown) == pre.filter(shown).push((name@, uid)));
        } else {
            assert(pre.push((name@, uid)).filter(shown) == pre.filter(shown));
        }
        assert(rv.take(i + 1) == pre.push((name@, uid)));
        i = i + 1;
    }
    assert(rv.take(n as int) =~= rv);
    accounts
}

} // verus!
