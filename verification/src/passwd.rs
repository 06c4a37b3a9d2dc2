//! Reading account names and uids out of the text of `/etc/passwd`.
use vstd::prelude::*;
use vstd::string::*;
use crate::text::{
    chars_vec, lines, lines_of, parse_u32, parse_u32_chars, split_chars, split_on, string_of,
    lemma_char_vec_deep_view, lemma_vec_push_deep_view,
};

verus! {

broadcast use vstd::string::group_string_axioms;

/// The account that one passwd line describes: its first `:`-separated field
/// and the uid in its third, when the line has at least three fields and the
/// third parses as a `u32`.
pub open spec fn passwd_record(line: Seq<char>) -> Option<(Seq<char>, u32)> {
    let f = split_on(line, ':');
    if f.len() >= 3 {
        match parse_u32(f[2]) {
            Some(uid) => Some((f[0], uid)),
            None => None,
        }
    } else {
        None
    }
}

/// The `(username, uid)` of every line of `contents` that describes an
/// account, in line order; other lines are skipped.
pub open spec fn passwd_records(contents: Seq<char>) -> Seq<(Seq<char>, u32)> {
    lines(contents).filter_map(|l: Seq<char>| passwd_record(l))
}

fn line_record(line: &Vec<char>) -> (r: Option<(String, u32)>)
    ensures
        match r {
            Some(x) => passwd_record(line@) == Some((x.0@, x.1)),
            None => passwd_record(line@) is None,
        },
{
    broadcast use lemma_char_vec_deep_view;

    let fields = split_chars(line, ':');
    if fields.len() < 3 {
        return None;
    }
    let uid_field = &fields[2];
    assert(fields.deep_view()[2] == uid_field@);
    match parse_u32_chars(uid_field, 0, uid_field.len()) {
        Some(uid) => {
            assert(uid_field@.subrange(0, uid_field@.len() as int) =~= uid_field@);
            let name_field = &fields[0];
            assert(fields.deep_view()[0] == name_field@);
            let name = string_of(name_field, 0, name_field.len());
            assert(name@ =~= name_field@);
            Some((name, uid))
        },
        None => {
            assert(uid_field@.subrange(0, uid_field@.len() as int) =~= uid_field@);
            None
        },
    }
}

/// The `(username, uid)` records of the text of a passwd file.
pub fn passwd_entries(contents: &str) -> (records: Vec<(String, u32)>)
    ensures
        records.deep_view() == passwd_records(contents@),
{
    let v = chars_vec(contents);
    let ls = lines_of(&v);
    let ghost f = |l: Seq<char>| passwd_record(l);
    let ghost lv = ls.deep_view();
    let mut records: Vec<(String, u32)> = Vec::new();
    let n = ls.len();
    for i in 0..n
        invariant
            n == ls.len(),
            lv == ls.deep_view(),
            lv == lines(contents@),
            f == (|l: Seq<char>| passwd_record(l)),
            records.deep_view() == lv.take(i as int).filter_map(f),
    {
        assert(lv.take(i + 1).drop_last() =~= lv.take(i as int));
        assert(lv[i as int] == ls@[i as int]@) by {
            lemma_char_vec_deep_view(ls@[i as int]);
        }
        match line_record(&ls[i]) {
            Some(x) => {
                let ghost before = records;
                let ghost xg = x;
                records.push(x);
                proof {
                    lemma_vec_push_deep_view(before, records, xg);
                }
                assert(records.deep_view() =~= lv.take(i + 1).filter_map(f));
            },
            None => {
                assert(records.deep_view() =~= lv.take(i + 1).filter_map(f));
            },
        }
    }
    assert(lv.take(n as int) =~= lv);
    records
}

} // verus!
