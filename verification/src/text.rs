//! Character-level building blocks: splitting, decimal numbers, and the
//! few facts of std's text functions that the rest of the crate uses.
use vstd::prelude::*;
use vstd::string::*;

verus! {

broadcast use vstd::string::group_string_axioms;

/// A vector of characters is seen the same way through `deep_view` and `view`.
pub broadcast proof fn lemma_char_vec_deep_view(x: Vec<char>)
    ensures
        #[trigger] x.deep_view() == x@,
{
    assert(x.deep_view() =~= x@);
}

/// Whether `c` has the Unicode `White_Space` property (listed in the Unicode
/// Character Database, `PropList.txt`), which `char::is_whitespace` reports:
/// the ASCII tab, line feed, vertical tab, form feed, carriage return and
/// space, next line, no-break space, ogham space mark, the spaces from en quad
/// to hair space, line and paragraph separators, narrow no-break space, medium
/// mathematical space and ideographic space.
pub open spec fn white_space(c: char) -> bool {
    ||| '\u{9}' <= c <= '\u{d}'
    ||| c == ' '
    ||| c == '\u{85}'
    ||| c == '\u{a0}'
    ||| c == '\u{1680}'
    ||| '\u{2000}' <= c <= '\u{200a}'
    ||| c == '\u{2028}'
    ||| c == '\u{2029}'
    ||| c == '\u{202f}'
    ||| c == '\u{205f}'
    ||| c == '\u{3000}'
}

/// The characters of the string that `str::to_lowercase` returns for a string whose
/// characters are `s` (Unicode lowercase mapping, which may change the length).
pub uninterp spec fn lowercase(s: Seq<char>) -> Seq<char>;

/// Whether `c` is whitespace, as `char::is_whitespace` tells (see `white_space`).
pub fn is_whitespace(c: char) -> (b: bool)
    ensures
        b == white_space(c),
{
    ('\u{9}' <= c && c <= '\u{d}') || c == ' ' || c == '\u{85}' || c == '\u{a0}' || c
        == '\u{1680}' || ('\u{2000}' <= c && c <= '\u{200a}') || c == '\u{2028}' || c
        == '\u{2029}' || c == '\u{202f}' || c == '\u{205f}' || c == '\u{3000}'
}

/// Whether every character of `s` is ASCII.
pub open spec fn all_ascii(s: Seq<char>) -> bool {
    forall|i: int| 0 <= i < s.len() ==> (#[trigger] s[i] as int) < 128
}

/// Whether `c` is an ASCII capital letter.
pub open spec fn is_ascii_upper(c: char) -> bool {
    'A' <= c && c <= 'Z'
}

/// `c` with an ASCII capital letter replaced by its small letter.
pub open spec fn ascii_lower(c: char) -> char {
    if is_ascii_upper(c) {
        (c as int + 32) as char
    } else {
        c
    }
}

/// Calls `str::to_lowercase`. The result is named (`lowercase`) as a function of the
/// characters of `s` alone; the Unicode case tables are not written out. Of an
/// ASCII string the contract states the result: each capital letter `A`-`Z`
/// becomes its small letter, every other character stays.
#[verifier::external_body]
pub(crate) fn to_lowercase(s: &str) -> (r: String)
    ensures
        r@ == lowercase(s@),
        all_ascii(s@) ==> r@ == s@.map_values(|c: char| ascii_lower(c)),
{
    s.to_lowercase()
}

/// Calls `String::push`, which appends one character to the string.
#[verifier::external_body]
pub(crate) fn push_char(s: &mut String, c: char)
    ensures
        final(s)@ == old(s)@.push(c),
{
    s.push(c)
}

/// The characters of a string slice, in order.
pub fn chars_vec(s: &str) -> (v: Vec<char>)
    ensures
        v@ == s@,
{
    let mut v: Vec<char> = Vec::new();
    for c in it: s.chars()
        invariant
            v@ == it.seq().take(it.index() as int),
            it.seq() == s@,
    {
        v.push(c);
    }
    v
}

/// Pushing onto a vector pushes the element's deep view onto the vector's.
pub proof fn lemma_vec_push_deep_view<T: DeepView>(before: Vec<T>, after: Vec<T>, x: T)
    requires
        after@ == before@.push(x),
    ensures
        after.deep_view() == before.deep_view().push(x.deep_view()),
{
    assert(after.deep_view() =~= before.deep_view().push(x.deep_view()));
}

/// A string made of the characters `v[lo..hi]`.
pub fn string_of(v: &Vec<char>, lo: usize, hi: usize) -> (s: String)
    requires
        lo <= hi <= v.len(),
    ensures
        s@ == v@.subrange(lo as int, hi as int),
{
    let mut s = String::new();
    let mut i = lo;
    while i < hi
        invariant
            lo <= i <= hi <= v.len(),
            s@ == v@.subrange(lo as int, i as int),
        decreases hi - i,
    {
        push_char(&mut s, v[i]);
        assert(v@.subrange(lo as int, i + 1) == v@.subrange(lo as int, i as int).push(v@[i as int]));
        i = i + 1;
    }
    s
}

/// Whether two strings hold the same characters.
pub fn same_text(a: &str, b: &str) -> (r: bool)
    ensures
        r == (a@ == b@),
{
    let x = a.to_string();
    let y = b.to_string();
    x == y
}

// ---------------------------------------------------------------------------
// Splitting

/// The pieces of `s` between occurrences of `sep`, in order, empty pieces
/// included: what `str::split` with a character pattern yields. There is
/// always at least one piece.
pub open spec fn split_on(s: Seq<char>, sep: char) -> Seq<Seq<char>>
    decreases s.len(),
{
    if s.len() == 0 {
        seq![Seq::<char>::empty()]
    } else {
        let p = split_on(s.drop_last(), sep);
        if s.last() == sep {
            p.push(Seq::<char>::empty())
        } else {
            p.update(p.len() - 1, p.last().push(s.last()))
        }
    }
}

pub proof fn lemma_split_on_nonempty(s: Seq<char>, sep: char)
    ensures
        split_on(s, sep).len() >= 1,
    decreases s.len(),
{
    if s.len() > 0 {
        lemma_split_on_nonempty(s.drop_last(), sep);
    }
}

/// `s` without one trailing carriage return, if it has one.
pub open spec fn strip_cr(x: Seq<char>) -> Seq<char> {
    if x.len() > 0 && x.last() == '\r' {
        x.drop_last()
    } else {
        x
    }
}

/// The lines of `s` as `str::lines` yields them: split at `\n`; a piece that a
/// `\n` ends loses one trailing `\r`; an empty piece after the final `\n` is not a line.
pub open spec fn lines(s: Seq<char>) -> Seq<Seq<char>> {
    let p = split_on(s, '\n');
    let n: int = if p.last().len() == 0 { p.len() - 1 } else { p.len() as int };
    Seq::new(n as nat, |j: int| if j < p.len() - 1 { strip_cr(p[j]) } else { p[j] })
}

/// Splits `v` at every `sep`.
pub fn split_chars(v: &Vec<char>, sep: char) -> (pieces: Vec<Vec<char>>)
    ensures
        pieces.deep_view() == split_on(v@, sep),
{
    broadcast use lemma_char_vec_deep_view;

    let mut done: Vec<Vec<char>> = Vec::new();
    let mut cur: Vec<char> = Vec::new();
    let n = v.len();
    for i in 0..n
        invariant
            n == v.len(),
            split_on(v@.take(i as int), sep) == done.deep_view().push(cur@),
    {
        let c = v[i];
        assert(v@.take(i + 1).drop_last() == v@.take(i as int));
        if c == sep {
            let piece = cur;
            let ghost old_done = done;
            let ghost pg = piece;
            cur = Vec::new();
            done.push(piece);
            proof {
                lemma_vec_push_deep_view(old_done, done, pg);
                lemma_char_vec_deep_view(pg);
            }
            assert(split_on(v@.take(i + 1), sep) =~= done.deep_view().push(cur@));
        } else {
            cur.push(c);
            assert(split_on(v@.take(i + 1), sep) =~= done.deep_view().push(cur@));
        }
    }
    assert(v@.take(n as int) == v@);
    let ghost old_done = done;
    let ghost cg = cur;
    done.push(cur);
    proof {
        lemma_vec_push_deep_view(old_done, done, cg);
        lemma_char_vec_deep_view(cg);
    }
    assert(done.deep_view() =~= split_on(v@, sep));
    done
}

/// The lines of `v`, as `str::lines` yields them.
pub fn lines_of(v: &Vec<char>) -> (ls: Vec<Vec<char>>)
    ensures
        ls.deep_view() == lines(v@),
{
    broadcast use lemma_char_vec_deep_view;

    let p = split_chars(v, '\n');
    proof {
        lemma_split_on_nonempty(v@, '\n');
    }
    let plen = p.len();
    let n = if p[plen - 1].len() == 0 {
        plen - 1
    } else {
        plen
    };
    let mut ls: Vec<Vec<char>> = Vec::new();
    let ghost target = lines(v@);
    for j in 0..n
        invariant
            plen == p.len() >= 1,
            p.deep_view() == split_on(v@, '\n'),
            n <= plen,
            target == lines(v@),
            target.len() == n,
            ls.deep_view() == target.take(j as int),
    {
        let piece = &p[j];
        let len = piece.len();
        let mut line: Vec<char> = Vec::new();
        let keep = if j + 1 < plen && len > 0 && piece[len - 1] == '\r' {
            len - 1
        } else {
            len
        };
        for k in 0..keep
            invariant
                piece == &p[j as int],
                keep <= piece.len(),
                line@ == piece@.take(k as int),
        {
            line.push(piece[k]);
        }
        assert(line@ == target[j as int]) by {
            assert(p.deep_view()[j as int] == piece@);
            if j + 1 < plen && len > 0 && piece@[len - 1] == '\r' {
                assert(line@ =~= piece@.drop_last());
            } else {
                assert(line@ =~= piece@);
            }
        }
        let ghost old_ls = ls;
        let ghost lg = line;
        ls.push(line);
        proof {
            lemma_vec_push_deep_view(old_ls, ls, lg);
            lemma_char_vec_deep_view(lg);
        }
        assert(ls.deep_view() =~= target.take(j + 1));
    }
    assert(ls.deep_view() =~= target);
    ls
}

/// The maximal runs of non-whitespace characters, with empty pieces between
/// runs of whitespace: the pieces of `s` split at each whitespace character.
pub open spec fn ws_pieces(s: Seq<char>) -> Seq<Seq<char>>
    decreases s.len(),
{
    if s.len() == 0 {
        seq![Seq::<char>::empty()]
    } else {
        let p = ws_pieces(s.drop_last());
        if white_space(s.last()) {
            p.push(Seq::<char>::empty())
        } else {
            p.update(p.len() - 1, p.last().push(s.last()))
        }
    }
}

/// The words of `s`, as `str::split_whitespace` yields them: the non-empty
/// pieces of `s` between whitespace characters.
pub open spec fn ws_tokens(s: Seq<char>) -> Seq<Seq<char>> {
    ws_pieces(s).filter(|t: Seq<char>| t.len() > 0)
}

proof fn lemma_ws_pieces_nonempty(s: Seq<char>)
    ensures
        ws_pieces(s).len() >= 1,
    decreases s.len(),
{
    if s.len() > 0 {
        lemma_ws_pieces_nonempty(s.drop_last());
    }
}

/// Splitting two strings joined by a space at whitespace gives the pieces of
/// the first followed by those of the second.
pub proof fn lemma_ws_pieces_join(a: Seq<char>, b: Seq<char>)
    ensures
        ws_pieces(a + seq![' '] + b) == ws_pieces(a) + ws_pieces(b),
    decreases b.len(),
{
    let x = a + seq![' '];
    assert((a + seq![' ']).drop_last() =~= a);
    lemma_ws_pieces_nonempty(a);
    if b.len() == 0 {
        assert(x + b =~= x);
        assert(ws_pieces(x) =~= ws_pieces(a) + ws_pieces(b));
    } else {
        let b1 = b.drop_last();
        let c = b.last();
        lemma_ws_pieces_join(a, b1);
        lemma_ws_pieces_nonempty(b1);
        assert((x + b).drop_last() =~= x + b1);
        assert((x + b).last() == c);
        let p = ws_pieces(a);
        let q = ws_pieces(b1);
        if white_space(c) {
            assert(ws_pieces(x + b) =~= (p + q).push(Seq::<char>::empty()));
            assert(ws_pieces(x + b) =~= p + ws_pieces(b));
        } else {
            assert(ws_pieces(x + b) =~= (p + q).update(p.len() + q.len() - 1, q.last().push(c)));
            assert(ws_pieces(x + b) =~= p + ws_pieces(b));
        }
    }
}

/// The words of two strings joined by a space are the words of the first
/// followed by those of the second.
pub proof fn lemma_ws_tokens_join(a: Seq<char>, b: Seq<char>)
    ensures
        ws_tokens(a + seq![' '] + b) == ws_tokens(a) + ws_tokens(b),
{
    lemma_ws_pieces_join(a, b);
    Seq::filter_distributes_over_add(ws_pieces(a), ws_pieces(b), |t: Seq<char>| t.len() > 0);
}

proof fn lemma_ws_pieces_chars(s: Seq<char>)
    ensures
        forall|i: int, j: int|
            0 <= i < ws_pieces(s).len() && 0 <= j < ws_pieces(s)[i].len() ==> {
                &&& !white_space(#[trigger] ws_pieces(s)[i][j])
                &&& (all_ascii(s) ==> (ws_pieces(s)[i][j] as int) < 128)
            },
    decreases s.len(),
{
    if s.len() > 0 {
        let t = s.drop_last();
        lemma_ws_pieces_chars(t);
        lemma_ws_pieces_nonempty(t);
        let p = ws_pieces(t);
        if all_ascii(s) {
            assert(all_ascii(t)) by {
                assert forall|k: int| 0 <= k < t.len() implies (#[trigger] t[k] as int) < 128 by {
                    assert(t[k] == s[k]);
                }
            }
            assert((s[s.len() - 1] as int) < 128);
        }
        assert forall|i: int, j: int|
            0 <= i < ws_pieces(s).len() && 0 <= j < ws_pieces(s)[i].len() implies {
                &&& !white_space(#[trigger] ws_pieces(s)[i][j])
                &&& (all_ascii(s) ==> (ws_pieces(s)[i][j] as int) < 128)
            } by {
            if !white_space(s.last()) && i == p.len() - 1 {
                if j < p[i].len() {
                    assert(ws_pieces(s)[i][j] == p[i][j]);
                } else {
                    assert(ws_pieces(s)[i][j] == s.last());
                }
            } else if i < p.len() {
                assert(ws_pieces(s)[i] == p[i]);
            }
        }
    }
}

/// Every word of `s` is non-empty and holds no whitespace; the words of an
/// ASCII string are ASCII.
pub proof fn lemma_ws_tokens_words(s: Seq<char>)
    ensures
        forall|i: int| 0 <= i < ws_tokens(s).len() ==> (#[trigger] ws_tokens(s)[i]).len() > 0,
        forall|i: int, j: int|
            0 <= i < ws_tokens(s).len() && 0 <= j < ws_tokens(s)[i].len() ==> {
                &&& !white_space(#[trigger] ws_tokens(s)[i][j])
                &&& (all_ascii(s) ==> (ws_tokens(s)[i][j] as int) < 128)
            },
{
    let nonempty = |t: Seq<char>| t.len() > 0;
    let p = ws_pieces(s);
    lemma_ws_pieces_chars(s);
    assert forall|i: int| 0 <= i < ws_tokens(s).len() implies (#[trigger] ws_tokens(s)[i]).len() > 0 by {
        p.lemma_filter_pred(nonempty, i);
    }
    assert forall|i: int, j: int|
        0 <= i < ws_tokens(s).len() && 0 <= j < ws_tokens(s)[i].len() implies {
            &&& !white_space(#[trigger] ws_tokens(s)[i][j])
            &&& (all_ascii(s) ==> (ws_tokens(s)[i][j] as int) < 128)
        } by {
        let w = ws_tokens(s)[i];
        assert(p.filter(nonempty).contains(w));
        p.lemma_filter_contains_rev(nonempty, w);
        let k = choose|k: int| 0 <= k < p.len() && p[k] == w;
        assert(ws_tokens(s)[i][j] == p[k][j]);
    }
}

/// The words of `s`, split at whitespace, as owned strings.
pub fn split_whitespace(s: &str) -> (words: Vec<String>)
    ensures
        words.deep_view() == ws_tokens(s@),
{
    let v = chars_vec(s);
    let n = v.len();
    let mut words: Vec<String> = Vec::new();
    let mut start: usize = 0;
    let ghost nonempty = |t: Seq<char>| t.len() > 0;
    for i in 0..n
        invariant
            n == v.len(),
            v@ == s@,
            start <= i,
            nonempty == (|t: Seq<char>| t.len() > 0),
            ws_pieces(v@.take(i as int)).last() == v@.subrange(start as int, i as int),
            ws_pieces(v@.take(i as int)).drop_last().filter(nonempty) == words.deep_view(),
    {
        let c = v[i];
        let ghost pre = v@.take(i as int);
        proof {
            lemma_ws_pieces_nonempty(pre);
            assert(v@.take(i + 1).drop_last() == pre);
            assert(v@.take(i + 1).last() == c);
        }
        if is_whitespace(c) {
            let ghost before = words.deep_view();
            let ghost p = ws_pieces(pre);
            proof {
                assert(ws_pieces(v@.take(i + 1)) == p.push(Seq::<char>::empty()));
                assert(p.push(Seq::<char>::empty()).drop_last() =~= p);
                assert(p =~= p.drop_last().push(p.last()));
                p.drop_last().lemma_filter_push(p.last(), nonempty);
                assert(p.drop_last().push(p.last()).filter(nonempty) == if nonempty(p.last()) {
                    p.drop_last().filter(nonempty).push(p.last())
                } else {
                    p.drop_last().filter(nonempty)
                });
            }
            if start < i {
                let w = string_of(&v, start, i);
                words.push(w);
                assert(words.deep_view() =~= before.push(p.last()));
            } else {
                assert(p.last().len() == 0);
            }
            start = i + 1;
            assert(ws_pieces(v@.take(i + 1)).last() =~= v@.subrange(start as int, i + 1));
        } else {
            proof {
                let p = ws_pieces(pre);
                let q = ws_pieces(v@.take(i + 1));
                assert(q == p.update(p.len() - 1, p.last().push(c)));
                assert(q.drop_last() =~= p.drop_last());
                assert(q.last() =~= v@.subrange(start as int, i + 1));
            }
        }
    }
    assert(v@.take(n as int) == v@);
    let ghost p = ws_pieces(v@);
    proof {
        lemma_ws_pieces_nonempty(v@);
        assert(p == p.drop_last().push(p.last()));
    }
    let ghost before = words.deep_view();
    proof {
        p.drop_last().lemma_filter_push(p.last(), nonempty);
    }
    assert(p.drop_last().push(p.last()).filter(nonempty) == if nonempty(p.last()) {
        p.drop_last().filter(nonempty).push(p.last())
    } else {
        p.drop_last().filter(nonempty)
    });
    if start < n {
        let w = string_of(&v, start, n);
        words.push(w);
        assert(words.deep_view() =~= before.push(p.last()));
    }
    assert(words.deep_view() =~= p.filter(nonempty));
    words
}

// ---------------------------------------------------------------------------
// Decimal numbers

/// The character of the decimal digit `d` (`d < 10`).
pub open spec fn digit_char(d: nat) -> char {
    if d == 0 {
        '0'
    } else if d == 1 {
        '1'
    } else if d == 2 {
        '2'
    } else if d == 3 {
        '3'
    } else if d == 4 {
        '4'
    } else if d == 5 {
        '5'
    } else if d == 6 {
        '6'
    } else if d == 7 {
        '7'
    } else if d == 8 {
        '8'
    } else {
        '9'
    }
}

/// The decimal notation of `n`, without sign or leading zeros: what `Display` prints.
pub open spec fn decimal(n: nat) -> Seq<char>
    decreases n,
{
    if n < 10 {
        seq![digit_char(n)]
    } else {
        decimal(n / 10).push(digit_char(n % 10))
    }
}

fn digit(d: u32) -> (c: char)
    requires
        d < 10,
    ensures
        c == digit_char(d as nat),
{
    if d == 0 {
        '0'
    } else if d == 1 {
        '1'
    } else if d == 2 {
        '2'
    } else if d == 3 {
        '3'
    } else if d == 4 {
        '4'
    } else if d == 5 {
        '5'
    } else if d == 6 {
        '6'
    } else if d == 7 {
        '7'
    } else if d == 8 {
        '8'
    } else {
        '9'
    }
}

/// Appends the decimal notation of `n` to `s`.
pub fn push_decimal(s: &mut String, n: u32)
    ensures
        final(s)@ == old(s)@ + decimal(n as nat),
    decreases n,
{
    if n >= 10 {
        push_decimal(s, n / 10);
    }
    push_char(s, digit(n % 10));
    assert(final(s)@ =~= old(s)@ + decimal(n as nat));
}

/// The decimal notation of `n`.
pub fn decimal_string(n: u32) -> (s: String)
    ensures
        s@ == decimal(n as nat),
{
    let mut s = String::new();
    push_decimal(&mut s, n);
    assert(s@ =~= decimal(n as nat));
    s
}

/// Whether `c` is an ASCII decimal digit.
pub open spec fn is_digit(c: char) -> bool {
    '0' <= c && c <= '9'
}

/// The value of the digit character `c`.
pub open spec fn digit_value(c: char) -> nat {
    (c as int - '0' as int) as nat
}

/// The value of a string of decimal digits (most significant first).
pub open spec fn digits_value(s: Seq<char>) -> nat
    decreases s.len(),
{
    if s.len() == 0 {
        0
    } else {
        digits_value(s.drop_last()) * 10 + digit_value(s.last())
    }
}

/// What `str::parse::<u32>` returns for a string with characters `s`: one
/// optional leading `+`, then at least one ASCII digit and nothing else, whose
/// value fits in a `u32`.
pub open spec fn parse_u32(s: Seq<char>) -> Option<u32> {
    let d = unsigned_digits(s);
    if d.len() > 0 && all_digits(d) && digits_value(d) <= u32::MAX {
        Some(digits_value(d) as u32)
    } else {
        None
    }
}

/// `s` without one leading `+`, if it starts with one.
pub open spec fn unsigned_digits(s: Seq<char>) -> Seq<char> {
    if s.len() > 0 && s[0] == '+' {
        s.drop_first()
    } else {
        s
    }
}

/// Whether every character of `s` is an ASCII decimal digit.
pub open spec fn all_digits(s: Seq<char>) -> bool {
    forall|i: int| 0 <= i < s.len() ==> is_digit(#[trigger] s[i])
}

proof fn lemma_digits_value_prefix(s: Seq<char>, k: int)
    requires
        0 <= k <= s.len(),
        forall|i: int| 0 <= i < s.len() ==> is_digit(#[trigger] s[i]),
    ensures
        digits_value(s.take(k)) <= digits_value(s),
    decreases s.len() - k,
{
    if k < s.len() {
        lemma_digits_value_prefix(s, k + 1);
        assert(s.take(k + 1).drop_last() =~= s.take(k));
    } else {
        assert(s.take(k) =~= s);
    }
}

proof fn lemma_digit_char(d: nat)
    requires
        d < 10,
    ensures
        is_digit(digit_char(d)),
        digit_value(digit_char(d)) == d,
        digit_char(d) != '+',
{
}

proof fn lemma_decimal_digits(n: nat)
    ensures
        decimal(n).len() > 0,
        all_digits(decimal(n)),
        digits_value(decimal(n)) == n,
        decimal(n)[0] != '+',
    decreases n,
{
    lemma_digit_char(n % 10);
    if n < 10 {
        assert(decimal(n).drop_last() =~= Seq::<char>::empty());
        assert(digits_value(Seq::<char>::empty()) == 0);
        assert(decimal(n).last() == digit_char(n));
    } else {
        lemma_decimal_digits(n / 10);
        let d = decimal(n / 10);
        let e = decimal(n);
        assert(e == d.push(digit_char(n % 10)));
        assert(e.drop_last() =~= d);
        assert forall|i: int| 0 <= i < e.len() implies is_digit(#[trigger] e[i]) by {
            if i < d.len() {
                assert(e[i] == d[i]);
            }
        }
        assert(e[0] == d[0]);
        assert(digits_value(e) == digits_value(d) * 10 + digit_value(digit_char(n % 10)));
        assert(n == (n / 10) * 10 + n % 10);
    }
}

/// Reading back the decimal notation of a `u32` gives the number again.
pub proof fn lemma_parse_decimal(n: u32)
    ensures
        parse_u32(decimal(n as nat)) == Some(n),
{
    lemma_decimal_digits(n as nat);
}

/// Parses `v[lo..hi]` as `str::parse::<u32>` does.
pub fn parse_u32_chars(v: &Vec<char>, lo: usize, hi: usize) -> (r: Option<u32>)
    requires
        lo <= hi <= v.len(),
    ensures
        r == parse_u32(v@.subrange(lo as int, hi as int)),
{
    let ghost s = v@.subrange(lo as int, hi as int);
    let start = if lo < hi && v[lo] == '+' {
        lo + 1
    } else {
        lo
    };
    let ghost d = v@.subrange(start as int, hi as int);
    assert(d =~= unsigned_digits(s));
    if start == hi {
        return None;
    }
    let mut acc: u64 = 0;
    let mut i = start;
    while i < hi
        invariant
            lo <= start < hi <= v.len(),
            start <= i <= hi,
            d == v@.subrange(start as int, hi as int),
            s == v@.subrange(lo as int, hi as int),
            d == unsigned_digits(s),
            forall|j: int| 0 <= j < i - start ==> is_digit(#[trigger] d[j]),
            acc == digits_value(d.take(i - start)),
            acc <= u32::MAX,
        decreases hi - i,
    {
        let c = v[i];
        assert(d[i - start] == c);
        if !('0' <= c && c <= '9') {
            assert(!is_digit(d[i - start]));
            assert(!all_digits(d));
            return None;
        }
        let dv = (c as u32 - '0' as u32) as u64;
        assert(d.take(i - start + 1).drop_last() =~= d.take(i - start));
        let next = acc * 10 + dv;
        assert(digits_value(d.take(i - start + 1)) == next);
        if next > 0xffff_ffff {
            proof {
                if all_digits(d) {
                    lemma_digits_value_prefix(d, i - start + 1);
                }
            }
            return None;
        }
        acc = next;
        i = i + 1;
    }
    assert(d.take(hi - start) =~= d);
    Some(acc as u32)
}

} // verus!
