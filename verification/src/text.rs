//! Character-level text utilities that the patch logic is built on.
//!
//! Text is handled as sequences of Unicode scalar values (`char`); the
//! specifications below are stated over `Seq<char>`, the view of `str`,
//! `String` and `[char]`.
use vstd::prelude::*;

verus! {

// ---------------------------------------------------------------------------
// Specifications
// ---------------------------------------------------------------------------

/// The Unicode `White_Space` property, as used by `char::is_whitespace`
/// and `str::trim`.
pub open spec fn is_whitespace(c: char) -> bool {
    ||| ('\u{9}' <= c && c <= '\u{d}')
    ||| c == ' '
    ||| c == '\u{85}'
    ||| c == '\u{a0}'
    ||| c == '\u{1680}'
    ||| ('\u{2000}' <= c && c <= '\u{200a}')
    ||| c == '\u{2028}'
    ||| c == '\u{2029}'
    ||| c == '\u{202f}'
    ||| c == '\u{205f}'
    ||| c == '\u{3000}'
}

/// `s` with its leading whitespace removed.
pub open spec fn trim_start(s: Seq<char>) -> Seq<char>
    decreases s.len(),
{
    if s.len() > 0 && is_whitespace(s[0]) {
        trim_start(s.drop_first())
    } else {
        s
    }
}

/// `s` with its trailing whitespace removed.
pub open spec fn trim_end(s: Seq<char>) -> Seq<char>
    decreases s.len(),
{
    if s.len() > 0 && is_whitespace(s.last()) {
        trim_end(s.drop_last())
    } else {
        s
    }
}

/// `s` with leading and trailing whitespace removed (`str::trim`).
pub open spec fn trim(s: Seq<char>) -> Seq<char> {
    trim_end(trim_start(s))
}

/// `p` is a prefix of `s`.
pub open spec fn starts_with(s: Seq<char>, p: Seq<char>) -> bool {
    p.len() <= s.len() && s.subrange(0, p.len() as int) == p
}

/// `p` is a suffix of `s`.
pub open spec fn ends_with(s: Seq<char>, p: Seq<char>) -> bool {
    p.len() <= s.len() && s.subrange(s.len() - p.len(), s.len() as int) == p
}

/// `p` occurs in `s` starting at index `i`.
pub open spec fn occurs_at(s: Seq<char>, p: Seq<char>, i: int) -> bool {
    0 <= i && i + p.len() <= s.len() && s.subrange(i, i + p.len()) == p
}

/// `p` occurs somewhere in `s` (`str::contains` with a string pattern).
pub open spec fn contains(s: Seq<char>, p: Seq<char>) -> bool {
    exists|i: int| occurs_at(s, p, i)
}

/// The index of the first occurrence of `p` in `s` (`str::find`).
#[verifier::opaque]
pub open spec fn find(s: Seq<char>, p: Seq<char>) -> Option<int> {
    if contains(s, p) {
        Some(choose|i: int| occurs_at(s, p, i) && forall|j: int| 0 <= j < i ==> !occurs_at(s, p, j))
    } else {
        None
    }
}

/// The index of the first `c` in `s`.
pub open spec fn find_char(s: Seq<char>, c: char) -> Option<int>
    decreases s.len(),
{
    if s.len() == 0 {
        None
    } else if s[0] == c {
        Some(0)
    } else {
        match find_char(s.drop_first(), c) {
            Some(i) => Some(i + 1),
            None => None,
        }
    }
}

/// One line as `str::lines` yields it: a `'\r'` is dropped only when it
/// came directly before the `'\n'` that ended the line.
pub open spec fn strip_cr(l: Seq<char>) -> Seq<char> {
    if l.len() > 0 && l.last() == '\r' {
        l.drop_last()
    } else {
        l
    }
}

/// The lines of `s` (`str::lines`): split at `'\n'` (and `"\r\n"`), the
/// final line ending being optional.
pub open spec fn lines(s: Seq<char>) -> Seq<Seq<char>>
    decreases s.len(),
{
    if s.len() == 0 {
        seq![]
    } else {
        proof {
            lemma_find_char(s, '\n');
        }
        match find_char(s, '\n') {
            Some(i) => seq![strip_cr(s.subrange(0, i))] + lines(s.subrange(i + 1, s.len() as int)),
            None => seq![s],
        }
    }
}

/// The pieces of `ls` joined with `'\n'` between them (`join("\n")`).
pub open spec fn join_lines(ls: Seq<Seq<char>>) -> Seq<char>
    decreases ls.len(),
{
    if ls.len() == 0 {
        seq![]
    } else if ls.len() == 1 {
        ls[0]
    } else {
        join_lines(ls.drop_last()) + seq!['\n'] + ls.last()
    }
}

/// The line ending that `str::lines` removes after `raw`, the text before
/// a `'\n'`: `"\r\n"` when `raw` ends with `'\r'`, else `"\n"`.
pub open spec fn ending_of(raw: Seq<char>) -> Seq<char> {
    if raw.len() > 0 && raw.last() == '\r' {
        seq!['\r', '\n']
    } else {
        seq!['\n']
    }
}

/// The line endings of `s`, one for each line of `lines(s)`: the last is
/// empty when `s` does not end with a line break.
pub open spec fn endings(s: Seq<char>) -> Seq<Seq<char>>
    decreases s.len(),
{
    if s.len() == 0 {
        seq![]
    } else {
        proof {
            lemma_find_char(s, '\n');
        }
        match find_char(s, '\n') {
            Some(i) => seq![ending_of(s.subrange(0, i))] + endings(s.subrange(i + 1, s.len() as int)),
            None => seq![seq![]],
        }
    }
}

/// The lines `ls`, each followed by its ending in `es`.
pub open spec fn join_ended(ls: Seq<Seq<char>>, es: Seq<Seq<char>>) -> Seq<char>
    decreases ls.len(),
{
    if ls.len() == 0 || es.len() == 0 {
        seq![]
    } else {
        ls[0] + es[0] + join_ended(ls.drop_first(), es.drop_first())
    }
}

/// Line `l` with ending `e` reads back as itself: after `"\n"` it does not
/// end with `'\r'`; an empty ending closes a non-empty last line.
pub open spec fn ending_fits(l: Seq<char>, e: Seq<char>, last: bool) -> bool {
    ||| e == seq!['\n'] && !ends_cr(l)
    ||| e == seq!['\r', '\n']
    ||| last && e.len() == 0 && l.len() > 0
}

/// Lines and their endings as `str::lines` reads them off a text.
pub open spec fn well_ended(ls: Seq<Seq<char>>, es: Seq<Seq<char>>) -> bool {
    &&& ls.len() == es.len()
    &&& forall|k: int|
        0 <= k < ls.len() ==> no_newline(#[trigger] ls[k]) && ending_fits(ls[k], es[k], k == ls.len() - 1)
}

/// The character sequences held by a vector of character vectors.
pub open spec fn views(v: Seq<Vec<char>>) -> Seq<Seq<char>> {
    v.map_values(|x: Vec<char>| x@)
}

/// The first `n` characters of `s`, or all of them when there are fewer.
pub open spec fn take_chars(s: Seq<char>, n: nat) -> Seq<char> {
    if s.len() <= n {
        s
    } else {
        s.take(n as int)
    }
}

/// `s` in reverse order.
pub open spec fn reversed(s: Seq<char>) -> Seq<char> {
    Seq::new(s.len(), |i: int| s[s.len() - 1 - i])
}

// ---------------------------------------------------------------------------
// Lemmas
// ---------------------------------------------------------------------------

/// `trim_start` removes a prefix.
pub proof fn lemma_trim_start_is_suffix(s: Seq<char>)
    ensures
        trim_start(s).len() <= s.len(),
        trim_start(s) == s.subrange(s.len() - trim_start(s).len(), s.len() as int),
    decreases s.len(),
{
    if s.len() > 0 && is_whitespace(s[0]) {
        lemma_trim_start_is_suffix(s.drop_first());
        assert(s.drop_first().subrange(
            s.drop_first().len() - trim_start(s).len(),
            s.drop_first().len() as int,
        ) == s.subrange(s.len() - trim_start(s).len(), s.len() as int));
    } else {
        assert(s.subrange(0, s.len() as int) == s);
    }
}

/// `trim_end` removes a suffix.
pub proof fn lemma_trim_end_is_prefix(s: Seq<char>)
    ensures
        trim_end(s).len() <= s.len(),
        trim_end(s) == s.subrange(0, trim_end(s).len() as int),
    decreases s.len(),
{
    if s.len() > 0 && is_whitespace(s.last()) {
        lemma_trim_end_is_prefix(s.drop_last());
        assert(s.drop_last().subrange(0, trim_end(s).len() as int) == s.subrange(
            0,
            trim_end(s).len() as int,
        ));
    } else {
        assert(s.subrange(0, s.len() as int) == s);
    }
}

/// The index that `find_char` reports holds `c`, and no earlier one does.
pub proof fn lemma_find_char(s: Seq<char>, c: char)
    ensures
        match find_char(s, c) {
            Some(i) => 0 <= i < s.len() && s[i] == c && forall|j: int| 0 <= j < i ==> s[j] != c,
            None => forall|j: int| 0 <= j < s.len() ==> s[j] != c,
        },
    decreases s.len(),
{
    if s.len() > 0 && s[0] != c {
        lemma_find_char(s.drop_first(), c);
        match find_char(s.drop_first(), c) {
            Some(i) => {
                assert forall|j: int| 0 <= j < i + 1 implies s[j] != c by {
                    if j > 0 {
                        assert(s[j] == s.drop_first()[j - 1]);
                    }
                }
            },
            None => {
                assert forall|j: int| 0 <= j < s.len() implies s[j] != c by {
                    if j > 0 {
                        assert(s[j] == s.drop_first()[j - 1]);
                    }
                }
            },
        }
    }
}

/// `find_char` is determined by the position of the first `c`.
pub proof fn lemma_find_char_at(s: Seq<char>, c: char, i: int)
    requires
        0 <= i < s.len(),
        s[i] == c,
        forall|j: int| 0 <= j < i ==> s[j] != c,
    ensures
        find_char(s, c) == Some(i),
{
    lemma_find_char(s, c);
}

/// `find_char` reports `None` when `c` does not occur.
pub proof fn lemma_find_char_none(s: Seq<char>, c: char)
    requires
        forall|j: int| 0 <= j < s.len() ==> s[j] != c,
    ensures
        find_char(s, c) == None::<int>,
{
    lemma_find_char(s, c);
}

/// `l` holds no line break.
pub open spec fn no_newline(l: Seq<char>) -> bool {
    forall|j: int| 0 <= j < l.len() ==> #[trigger] l[j] != '\n'
}

/// `l` ends with a carriage return.
pub open spec fn ends_cr(l: Seq<char>) -> bool {
    l.len() > 0 && l.last() == '\r'
}

/// Joining puts the first piece, a line break, and the rest joined.
pub proof fn lemma_join_front(ls: Seq<Seq<char>>)
    requires
        ls.len() >= 2,
    ensures
        join_lines(ls) == ls[0] + seq!['\n'] + join_lines(ls.drop_first()),
    decreases ls.len(),
{
    if ls.len() == 2 {
        assert(ls.drop_last() =~= seq![ls[0]]);
        assert(ls.drop_first() =~= seq![ls[1]]);
        assert(join_lines(ls.drop_last()) == ls[0]);
        assert(join_lines(ls.drop_first()) == ls[1]);
    } else {
        lemma_join_front(ls.drop_last());
        assert(ls.drop_last().drop_first() =~= ls.drop_first().drop_last());
        assert(ls.drop_last()[0] == ls[0]);
        assert(ls.drop_first().last() == ls.last());
        assert(join_lines(ls.drop_first()) == join_lines(ls.drop_first().drop_last()) + seq!['\n'] + ls.last());
        assert(join_lines(ls) == join_lines(ls.drop_last()) + seq!['\n'] + ls.last());
        let a = join_lines(ls.drop_last().drop_first());
        assert(join_lines(ls.drop_last()) == ls[0] + seq!['\n'] + a);
        assert(join_lines(ls.drop_first()) == a + seq!['\n'] + ls.last());
        assert(ls[0] + seq!['\n'] + (a + seq!['\n'] + ls.last()) =~= ls[0] + seq!['\n'] + a + seq!['\n']
            + ls.last());
    }
}

/// The lines of a piece without line break, a line break and a rest: the
/// piece, then the lines of the rest.
pub proof fn lemma_lines_front(first: Seq<char>, rest: Seq<char>)
    requires
        no_newline(first),
        !ends_cr(first),
    ensures
        lines(first + seq!['\n'] + rest) == seq![first] + lines(rest),
{
    let s = first + seq!['\n'] + rest;
    let n = first.len() as int;
    assert forall|j: int| 0 <= j < n implies s[j] != '\n' by {
        assert(s[j] == first[j]);
    }
    lemma_find_char_at(s, '\n', n);
    assert(s.subrange(0, n) =~= first);
    assert(s.subrange(n + 1, s.len() as int) =~= rest);
    assert(strip_cr(first) == first);
}

/// Pieces without line breaks, none but the last ending in a carriage
/// return and the last not empty, are the lines of their join.
pub proof fn lemma_lines_join_open(ls: Seq<Seq<char>>)
    requires
        ls.len() >= 1,
        ls.last().len() > 0,
        forall|k: int| 0 <= k < ls.len() ==> no_newline(#[trigger] ls[k]),
        forall|k: int| 0 <= k < ls.len() - 1 ==> !ends_cr(#[trigger] ls[k]),
    ensures
        lines(join_lines(ls)) == ls,
    decreases ls.len(),
{
    if ls.len() == 1 {
        let s = ls[0];
        assert(join_lines(ls) == s);
        lemma_find_char_none(s, '\n');
        assert(lines(s) == seq![s]);
        assert(seq![s] =~= ls);
    } else {
        lemma_join_front(ls);
        let rest = ls.drop_first();
        assert forall|k: int| 0 <= k < rest.len() implies no_newline(#[trigger] rest[k]) by {
            assert(rest[k] == ls[k + 1]);
        }
        assert forall|k: int| 0 <= k < rest.len() - 1 implies !ends_cr(#[trigger] rest[k]) by {
            assert(rest[k] == ls[k + 1]);
        }
        lemma_lines_join_open(rest);
        lemma_lines_front(ls[0], join_lines(rest));
        assert(seq![ls[0]] + rest =~= ls);
    }
}

/// The lines of a text hold no line break; a non-empty text has a line,
/// and the last line of a text that does not end with a line break is not
/// empty.
pub proof fn lemma_lines_facts(s: Seq<char>)
    ensures
        forall|j: int| 0 <= j < lines(s).len() ==> no_newline(#[trigger] lines(s)[j]),
        s.len() > 0 ==> lines(s).len() >= 1,
        s.len() > 0 && s.last() != '\n' ==> lines(s).last().len() > 0,
    decreases s.len(),
{
    if s.len() > 0 {
        lemma_find_char(s, '\n');
        match find_char(s, '\n') {
            Some(i) => {
                let head = strip_cr(s.subrange(0, i));
                let tail = s.subrange(i + 1, s.len() as int);
                lemma_lines_facts(tail);
                assert(lines(s) == seq![head] + lines(tail));
                assert forall|t: int| 0 <= t < head.len() implies #[trigger] head[t] != '\n' by {
                    assert(head[t] == s[t]);
                }
                assert forall|j: int| 0 <= j < lines(s).len() implies no_newline(#[trigger] lines(s)[j]) by {
                    if j > 0 {
                        assert(lines(s)[j] == lines(tail)[j - 1]);
                    }
                }
                if s.last() != '\n' {
                    assert(tail.len() > 0);
                    assert(tail.last() == s.last());
                    assert(lines(s).last() == lines(tail).last());
                }
            },
            None => {
                assert forall|j: int| 0 <= j < lines(s).len() implies no_newline(#[trigger] lines(s)[j]) by {
                    assert(lines(s)[j] == s);
                }
            },
        }
    }
}

proof fn lemma_trim_start_first(s: Seq<char>)
    ensures
        trim_start(s).len() > 0 ==> !is_whitespace(trim_start(s)[0]),
    decreases s.len(),
{
    if s.len() > 0 && is_whitespace(s[0]) {
        lemma_trim_start_first(s.drop_first());
    }
}

proof fn lemma_trim_end_last(s: Seq<char>)
    ensures
        trim_end(s).len() > 0 ==> !is_whitespace(trim_end(s).last()),
    decreases s.len(),
{
    if s.len() > 0 && is_whitespace(s.last()) {
        lemma_trim_end_last(s.drop_last());
    }
}

/// A trimmed text starts and ends with a character that is not whitespace.
pub proof fn lemma_trim_ends(s: Seq<char>)
    ensures
        trim(s).len() > 0 ==> !is_whitespace(trim(s)[0]) && !is_whitespace(trim(s).last()),
{
    let a = trim_start(s);
    lemma_trim_start_first(s);
    lemma_trim_end_last(a);
    lemma_trim_end_is_prefix(a);
    if trim(s).len() > 0 {
        assert(trim(s)[0] == a[0]);
    }
}

/// Trimming a trimmed text changes nothing; trimming keeps a text free of
/// line breaks.
pub proof fn lemma_trim_idempotent(s: Seq<char>)
    ensures
        trim(trim(s)) == trim(s),
        no_newline(s) ==> no_newline(trim(s)),
{
    lemma_trim_ends(s);
    let t = trim(s);
    assert(trim_start(t) == t);
    assert(trim_end(t) == t);
    lemma_trim_start_is_suffix(s);
    lemma_trim_end_is_prefix(trim_start(s));
    if no_newline(s) {
        assert forall|j: int| 0 <= j < t.len() implies #[trigger] t[j] != '\n' by {
            assert(t[j] == trim_start(s)[j]);
            assert(trim_start(s)[j] == s[s.len() - trim_start(s).len() + j]);
        }
    }
}

/// The lines and endings of a text that starts with `raw` and a line
/// break.
pub proof fn lemma_split_front(raw: Seq<char>, rest: Seq<char>)
    requires
        no_newline(raw),
    ensures
        lines(raw + seq!['\n'] + rest) == seq![strip_cr(raw)] + lines(rest),
        endings(raw + seq!['\n'] + rest) == seq![ending_of(raw)] + endings(rest),
{
    let s = raw + seq!['\n'] + rest;
    let n = raw.len() as int;
    assert forall|j: int| 0 <= j < n implies s[j] != '\n' by {
        assert(s[j] == raw[j]);
    }
    lemma_find_char_at(s, '\n', n);
    assert(s.subrange(0, n) =~= raw);
    assert(s.subrange(n + 1, s.len() as int) =~= rest);
}

/// The lines and endings of every text read back as such, and the text is
/// its lines each followed by its ending.
pub proof fn lemma_split_well_ended(s: Seq<char>)
    ensures
        well_ended(lines(s), endings(s)),
        join_ended(lines(s), endings(s)) == s,
    decreases s.len(),
{
    if s.len() > 0 {
        lemma_find_char(s, '\n');
        match find_char(s, '\n') {
            Some(i) => {
                let raw = s.subrange(0, i);
                let tail = s.subrange(i + 1, s.len() as int);
                lemma_split_well_ended(tail);
                assert forall|t: int| 0 <= t < raw.len() implies #[trigger] raw[t] != '\n' by {}
                assert(s =~= raw + seq!['\n'] + tail);
                lemma_split_front(raw, tail);
                let ls = lines(s);
                let es = endings(s);
                let h = strip_cr(raw);
                assert forall|t: int| 0 <= t < h.len() implies #[trigger] h[t] != '\n' by {
                    assert(h[t] == raw[t]);
                }
                if !(raw.len() > 0 && raw.last() == '\r') {
                    assert(h == raw);
                }
                assert(ls.drop_first() =~= lines(tail));
                assert(es.drop_first() =~= endings(tail));
                assert forall|k: int| 0 <= k < ls.len() implies no_newline(#[trigger] ls[k]) && ending_fits(
                    ls[k],
                    es[k],
                    k == ls.len() - 1,
                ) by {
                    if k > 0 {
                        assert(ls[k] == lines(tail)[k - 1]);
                        assert(es[k] == endings(tail)[k - 1]);
                    }
                }
                if raw.len() > 0 && raw.last() == '\r' {
                    assert(h + seq!['\r', '\n'] =~= raw + seq!['\n']);
                } else {
                    assert(h + seq!['\n'] =~= raw + seq!['\n']);
                }
                assert(join_ended(ls, es) == ls[0] + es[0] + join_ended(lines(tail), endings(tail)));
                assert(join_ended(ls, es) =~= s);
            },
            None => {
                assert(lines(s) == seq![s]);
                assert(endings(s) == seq![Seq::<char>::empty()]);
                let l1 = seq![s];
                let e1 = seq![Seq::<char>::empty()];
                assert(l1.drop_first().len() == 0);
                assert(join_ended(l1.drop_first(), e1.drop_first()) == Seq::<char>::empty());
                assert(join_ended(l1, e1) == l1[0] + e1[0] + join_ended(l1.drop_first(), e1.drop_first()));
                assert(join_ended(l1, e1) =~= s);
            },
        }
    }
}

/// Lines and endings that read back as such are the lines and endings of
/// the text they make.
pub proof fn lemma_join_ended_split(ls: Seq<Seq<char>>, es: Seq<Seq<char>>)
    requires
        well_ended(ls, es),
    ensures
        lines(join_ended(ls, es)) == ls,
        endings(join_ended(ls, es)) == es,
    decreases ls.len(),
{
    if ls.len() > 0 {
        let rest = ls.drop_first();
        let erest = es.drop_first();
        let j = join_ended(ls, es);
        assert(no_newline(ls[0]) && ending_fits(ls[0], es[0], 0 == ls.len() - 1));
        if es[0].len() == 0 {
            assert(ls.len() == 1);
            assert(rest.len() == 0);
            assert(join_ended(rest, erest) == Seq::<char>::empty());
            assert(j =~= ls[0]);
            lemma_find_char_none(ls[0], '\n');
            assert(lines(j) == seq![ls[0]]);
            assert(endings(j) == seq![Seq::<char>::empty()]);
            assert(es[0] =~= Seq::<char>::empty());
            assert(seq![ls[0]] =~= ls);
            assert(seq![es[0]] =~= es);
        } else {
            assert forall|k: int| 0 <= k < rest.len() implies no_newline(#[trigger] rest[k]) && ending_fits(
                rest[k],
                erest[k],
                k == rest.len() - 1,
            ) by {
                assert(rest[k] == ls[k + 1]);
                assert(erest[k] == es[k + 1]);
            }
            lemma_join_ended_split(rest, erest);
            let tail = join_ended(rest, erest);
            let raw = if es[0] == seq!['\n'] {
                ls[0]
            } else {
                ls[0].push('\r')
            };
            assert forall|t: int| 0 <= t < raw.len() implies #[trigger] raw[t] != '\n' by {
                if t < ls[0].len() {
                    assert(raw[t] == ls[0][t]);
                }
            }
            assert(j =~= raw + seq!['\n'] + tail);
            lemma_split_front(raw, tail);
            if es[0] == seq!['\n'] {
                assert(strip_cr(raw) == ls[0]);
            } else {
                assert(raw.drop_last() =~= ls[0]);
            }
            assert(seq![ls[0]] + rest =~= ls);
            assert(seq![es[0]] + erest =~= es);
        }
    }
}

// ---------------------------------------------------------------------------
// Executable functions
// ---------------------------------------------------------------------------

/// Appends one character to a `String` (`String::push`).
#[verifier::external_body]
fn push_char(s: &mut String, c: char)
    ensures
        final(s)@ == old(s)@.push(c),
{
    s.push(c);
}

/// The characters of `s`, in order.
pub fn chars_of(s: &str) -> (v: Vec<char>)
    ensures
        v@ == s@,
{
    let mut v: Vec<char> = Vec::new();
    for c in it: s.chars()
        invariant
            it.seq() == s@,
            v@ == it.seq().take(it.index() as int),
    {
        v.push(c);
    }
    v
}

/// A `String` holding the characters of `v`.
pub fn string_from(v: &[char]) -> (s: String)
    ensures
        s@ == v@,
{
    let mut s = String::new();
    let mut i: usize = 0;
    while i < v.len()
        invariant
            i <= v.len(),
            s@ == v@.take(i as int),
        decreases v.len() - i,
    {
        push_char(&mut s, v[i]);
        i += 1;
        assert(v@.take(i as int) == v@.take(i - 1).push(v@[i - 1]));
    }
    assert(v@.take(v.len() as int) == v@);
    s
}

/// Appends the characters of `v` to `s`.
pub fn push_chars(s: &mut String, v: &[char])
    ensures
        final(s)@ == old(s)@ + v@,
{
    let mut i: usize = 0;
    while i < v.len()
        invariant
            i <= v.len(),
            s@ == old(s)@ + v@.take(i as int),
        decreases v.len() - i,
    {
        push_char(s, v[i]);
        i += 1;
        assert(v@.take(i as int) == v@.take(i - 1).push(v@[i - 1]));
    }
    assert(v@.take(v.len() as int) == v@);
}

/// Appends the characters of `v` to `out`.
pub fn extend_chars(out: &mut Vec<char>, v: &[char])
    ensures
        final(out)@ == old(out)@ + v@,
{
    let mut i: usize = 0;
    while i < v.len()
        invariant
            i <= v.len(),
            out@ == old(out)@ + v@.take(i as int),
        decreases v.len() - i,
    {
        out.push(v[i]);
        i += 1;
        assert(v@.take(i as int) == v@.take(i - 1).push(v@[i - 1]));
    }
    assert(v@.take(v.len() as int) == v@);
}

/// The line endings of `s`, one per line.
pub fn endings_of(s: &[char]) -> (r: Vec<Vec<char>>)
    ensures
        views(r@) == endings(s@),
{
    let mut out: Vec<Vec<char>> = Vec::new();
    let mut start: usize = 0;
    let mut i: usize = 0;
    assert(s@.subrange(0, s@.len() as int) =~= s@);
    assert(views(out@) + endings(s@) =~= endings(s@));
    while i < s.len()
        invariant
            start <= i <= s@.len(),
            forall|j: int| start <= j < i ==> s@[j] != '\n',
            endings(s@) == views(out@) + endings(s@.subrange(start as int, s@.len() as int)),
        decreases s.len() - i,
    {
        if s[i] == '\n' {
            let ghost whole = s@.subrange(start as int, s@.len() as int);
            let ghost k = i - start;
            proof {
                assert forall|j: int| 0 <= j < k implies whole[j] != '\n' by {
                    assert(whole[j] == s@[start + j]);
                }
                lemma_find_char_at(whole, '\n', k);
                assert(whole.subrange(k + 1, whole.len() as int) =~= s@.subrange(i + 1, s@.len() as int));
                assert(whole.subrange(0, k) =~= s@.subrange(start as int, i as int));
            }
            let e = if i > start && s[i - 1] == '\r' {
                let mut e: Vec<char> = Vec::new();
                e.push('\r');
                e.push('\n');
                e
            } else {
                let mut e: Vec<char> = Vec::new();
                e.push('\n');
                e
            };
            proof {
                let raw = s@.subrange(start as int, i as int);
                if raw.len() > 0 {
                    assert(raw.last() == s@[i - 1]);
                }
                assert(e@ =~= ending_of(raw));
            }
            let ghost prev = views(out@);
            out.push(e);
            proof {
                assert(views(out@) =~= prev.push(e@));
                assert(prev.push(e@) + endings(s@.subrange(i + 1, s@.len() as int)) =~= prev + (seq![e@]
                    + endings(s@.subrange(i + 1, s@.len() as int))));
            }
            start = i + 1;
        }
        i += 1;
    }
    if start < s.len() {
        let ghost whole = s@.subrange(start as int, s@.len() as int);
        proof {
            assert forall|j: int| 0 <= j < whole.len() implies whole[j] != '\n' by {
                assert(whole[j] == s@[start + j]);
            }
            lemma_find_char_none(whole, '\n');
        }
        let ghost prev = views(out@);
        out.push(Vec::new());
        assert(views(out@) =~= prev + seq![Seq::<char>::empty()]);
    } else {
        assert(s@.subrange(start as int, s@.len() as int) =~= Seq::<char>::empty());
        assert(views(out@) + Seq::<Seq<char>>::empty() =~= views(out@));
    }
    out
}

/// The lines `ls`, each followed by its ending in `es`.
pub fn join_ended_exec(ls: &Vec<Vec<char>>, es: &Vec<Vec<char>>) -> (r: Vec<char>)
    requires
        ls@.len() == es@.len(),
    ensures
        r@ == join_ended(views(ls@), views(es@)),
{
    let mut out: Vec<char> = Vec::new();
    let mut i: usize = 0;
    assert(views(ls@).skip(0) =~= views(ls@));
    assert(views(es@).skip(0) =~= views(es@));
    while i < ls.len()
        invariant
            i <= ls@.len(),
            ls@.len() == es@.len(),
            join_ended(views(ls@), views(es@)) == out@ + join_ended(views(ls@).skip(i as int), views(es@).skip(i as int)),
        decreases ls.len() - i,
    {
        let ghost a = views(ls@).skip(i as int);
        let ghost b = views(es@).skip(i as int);
        proof {
            assert(a.drop_first() =~= views(ls@).skip(i + 1));
            assert(b.drop_first() =~= views(es@).skip(i + 1));
            assert(a[0] == ls@[i as int]@);
            assert(b[0] == es@[i as int]@);
        }
        let ghost before = out@;
        extend_chars(&mut out, &ls[i]);
        extend_chars(&mut out, &es[i]);
        assert(out@ + join_ended(a.drop_first(), b.drop_first()) =~= before + (a[0] + b[0] + join_ended(
            a.drop_first(),
            b.drop_first(),
        )));
        i += 1;
    }
    assert(views(ls@).skip(i as int) =~= Seq::<Seq<char>>::empty());
    assert(out@ + Seq::<char>::empty() =~= out@);
    out
}

/// A copy of `s[from..to]`.
pub fn copy_range(s: &[char], from: usize, to: usize) -> (r: Vec<char>)
    requires
        from <= to <= s@.len(),
    ensures
        r@ == s@.subrange(from as int, to as int),
{
    let mut r: Vec<char> = Vec::new();
    let mut i: usize = from;
    while i < to
        invariant
            from <= i <= to <= s@.len(),
            r@ == s@.subrange(from as int, i as int),
        decreases to - i,
    {
        r.push(s[i]);
        i += 1;
        assert(s@.subrange(from as int, i as int) == s@.subrange(from as int, i - 1).push(
            s@[i - 1],
        ));
    }
    r
}

/// `c` is whitespace (`char::is_whitespace`).
pub fn is_whitespace_char(c: char) -> (r: bool)
    ensures
        r == is_whitespace(c),
{
    ('\u{9}' <= c && c <= '\u{d}') || c == ' ' || c == '\u{85}' || c == '\u{a0}' || c
        == '\u{1680}' || ('\u{2000}' <= c && c <= '\u{200a}') || c == '\u{2028}' || c
        == '\u{2029}' || c == '\u{202f}' || c == '\u{205f}' || c == '\u{3000}'
}

/// The bounds of `trim(s)` within `s`.
pub fn trim_bounds(s: &[char]) -> (r: (usize, usize))
    ensures
        r.0 <= r.1 <= s@.len(),
        s@.subrange(r.0 as int, r.1 as int) == trim(s@),
{
    let mut a: usize = 0;
    assert(s@.subrange(0, s@.len() as int) == s@);
    while a < s.len() && is_whitespace_char(s[a])
        invariant
            a <= s@.len(),
            trim_start(s@) == trim_start(s@.subrange(a as int, s@.len() as int)),
        decreases s.len() - a,
    {
        assert(s@.subrange(a as int, s@.len() as int).drop_first() == s@.subrange(
            a + 1,
            s@.len() as int,
        ));
        a += 1;
    }
    let ghost t = s@.subrange(a as int, s@.len() as int);
    assert(trim_start(s@) == t);
    let mut b: usize = s.len();
    while b > a && is_whitespace_char(s[b - 1])
        invariant
            a <= b <= s@.len(),
            t == s@.subrange(a as int, s@.len() as int),
            trim_end(t) == trim_end(s@.subrange(a as int, b as int)),
        decreases b - a,
    {
        assert(s@.subrange(a as int, b as int).drop_last() == s@.subrange(a as int, b - 1));
        b -= 1;
    }
    (a, b)
}

/// `trim(s)` as a new vector.
pub fn trim_chars(s: &[char]) -> (r: Vec<char>)
    ensures
        r@ == trim(s@),
{
    let (a, b) = trim_bounds(s);
    copy_range(s, a, b)
}

/// Whether `p` is a prefix of `s`.
pub fn starts_with_chars(s: &[char], p: &[char]) -> (r: bool)
    ensures
        r == starts_with(s@, p@),
{
    if p.len() > s.len() {
        return false;
    }
    let mut i: usize = 0;
    while i < p.len()
        invariant
            p@.len() <= s@.len(),
            i <= p@.len(),
            forall|j: int| 0 <= j < i ==> s@[j] == p@[j],
        decreases p.len() - i,
    {
        if s[i] != p[i] {
            assert(s@.subrange(0, p@.len() as int)[i as int] != p@[i as int]);
            return false;
        }
        i += 1;
    }
    assert(s@.subrange(0, p@.len() as int) == p@);
    true
}

/// Whether `p` occurs in `s` at index `i`.
pub fn occurs_at_chars(s: &[char], p: &[char], i: usize) -> (r: bool)
    ensures
        r == occurs_at(s@, p@, i as int),
{
    if i > s.len() || p.len() > s.len() - i {
        return false;
    }
    let mut k: usize = 0;
    while k < p.len()
        invariant
            i + p@.len() <= s@.len(),
            s@.len() == s.len(),
            k <= p@.len(),
            forall|j: int| 0 <= j < k ==> s@[i + j] == p@[j],
        decreases p.len() - k,
    {
        if s[i + k] != p[k] {
            assert(s@.subrange(i as int, i + p@.len())[k as int] != p@[k as int]);
            return false;
        }
        k += 1;
    }
    assert(s@.subrange(i as int, i + p@.len()) == p@);
    true
}

/// Whether `p` is a suffix of `s`.
pub fn ends_with_chars(s: &[char], p: &[char]) -> (r: bool)
    ensures
        r == ends_with(s@, p@),
{
    if p.len() > s.len() {
        return false;
    }
    occurs_at_chars(s, p, s.len() - p.len())
}

/// `find` gives the first index at which `p` occurs.
pub proof fn lemma_find_first(s: Seq<char>, p: Seq<char>, i: int)
    requires
        occurs_at(s, p, i),
        forall|j: int| 0 <= j < i ==> !occurs_at(s, p, j),
    ensures
        find(s, p) == Some(i),
{
    reveal(find);
    assert(contains(s, p));
    let c = choose|k: int| occurs_at(s, p, k) && forall|j: int| 0 <= j < k ==> !occurs_at(s, p, j);
    assert(occurs_at(s, p, c) && forall|j: int| 0 <= j < c ==> !occurs_at(s, p, j));
    if c < i {
        assert(!occurs_at(s, p, c));
    } else if c > i {
        assert(!occurs_at(s, p, i));
    }
}

/// `find` reports `None` when `p` does not occur.
pub proof fn lemma_find_none(s: Seq<char>, p: Seq<char>)
    requires
        !contains(s, p),
    ensures
        find(s, p) is None,
{
    reveal(find);
}

/// The index of the first occurrence of `p` in `s`.
pub fn find_chars(s: &[char], p: &[char]) -> (r: Option<usize>)
    ensures
        r matches Some(i) ==> find(s@, p@) == Some(i as int) && occurs_at(s@, p@, i as int),
        r is None ==> find(s@, p@) is None && !contains(s@, p@),
{
    let mut i: usize = 0;
    loop
        invariant
            i <= s@.len(),
            forall|j: int| 0 <= j < i ==> !occurs_at(s@, p@, j),
        decreases s.len() - i,
    {
        if occurs_at_chars(s, p, i) {
            proof {
                lemma_find_first(s@, p@, i as int);
            }
            return Some(i);
        }
        if i == s.len() {
            assert forall|j: int| !occurs_at(s@, p@, j) by {
                if 0 <= j < i {
                }
            }
            proof {
                lemma_find_none(s@, p@);
            }
            return None;
        }
        i += 1;
    }
}

/// Whether `p` occurs in `s`.
pub fn contains_chars(s: &[char], p: &[char]) -> (r: bool)
    ensures
        r == contains(s@, p@),
{
    find_chars(s, p).is_some()
}

/// Whether the two character slices are equal.
pub fn chars_eq(a: &[char], b: &[char]) -> (r: bool)
    ensures
        r == (a@ == b@),
{
    if a.len() != b.len() {
        return false;
    }
    let r = starts_with_chars(a, b);
    assert(a@.subrange(0, b@.len() as int) == a@);
    r
}

/// The lines of `s` (`str::lines`).
pub fn lines_of(s: &[char]) -> (r: Vec<Vec<char>>)
    ensures
        views(r@) == lines(s@),
{
    let mut out: Vec<Vec<char>> = Vec::new();
    let mut cur: Vec<char> = Vec::new();
    let mut i: usize = 0;
    assert(cur@ + s@.subrange(0, s@.len() as int) == s@);
    assert(views(out@) + lines(s@) == lines(s@));
    while i < s.len()
        invariant
            i <= s@.len(),
            forall|j: int| 0 <= j < cur@.len() ==> cur@[j] != '\n',
            lines(s@) == views(out@) + lines(cur@ + s@.subrange(i as int, s@.len() as int)),
        decreases s.len() - i,
    {
        let c = s[i];
        let ghost rest = s@.subrange(i as int, s@.len() as int);
        let ghost whole = cur@ + rest;
        if c == '\n' {
            proof {
                assert forall|j: int| 0 <= j < cur@.len() implies whole[j] != '\n' by {
                    assert(whole[j] == cur@[j]);
                }
                assert(whole[cur@.len() as int] == '\n');
                lemma_find_char_at(whole, '\n', cur@.len() as int);
                assert(whole.subrange(0, cur@.len() as int) == cur@);
                assert(whole.subrange(cur@.len() + 1int, whole.len() as int) == s@.subrange(
                    i + 1,
                    s@.len() as int,
                ));
                assert(seq![]+ s@.subrange(i + 1, s@.len() as int) == s@.subrange(
                    i + 1,
                    s@.len() as int,
                ));
            }
            let line = if cur.len() > 0 && cur[cur.len() - 1] == '\r' {
                copy_range(&cur, 0, cur.len() - 1)
            } else {
                cur.clone()
            };
            proof {
                if cur@.len() > 0 && cur@.last() == '\r' {
                    assert(cur@.drop_last() == cur@.subrange(0, cur@.len() - 1));
                }
                assert(line@ == strip_cr(cur@));
            }
            let ghost prev_out = views(out@);
            out.push(line);
            proof {
                assert(views(out@) =~= prev_out.push(strip_cr(cur@)));
                assert(lines(whole) == seq![strip_cr(cur@)] + lines(s@.subrange(i + 1, s@.len() as int)));
                assert(prev_out.push(strip_cr(cur@)) + lines(s@.subrange(i + 1, s@.len() as int))
                    == prev_out + (seq![strip_cr(cur@)] + lines(s@.subrange(i + 1, s@.len() as int))));
            }
            cur = Vec::new();
        } else {
            cur.push(c);
            proof {
                assert(whole == cur@ + s@.subrange(i + 1, s@.len() as int));
            }
        }
        i += 1;
    }
    proof {
        assert(cur@ + s@.subrange(i as int, s@.len() as int) == cur@);
        if cur@.len() > 0 {
            lemma_find_char_none(cur@, '\n');
        }
    }
    let ghost prev_out = views(out@);
    if cur.len() > 0 {
        out.push(cur);
        assert(views(out@) =~= prev_out + seq![cur@]);
    } else {
        assert(views(out@) == prev_out + lines(cur@));
    }
    out
}

/// The pieces of `ls` joined with `'\n'` between them.
pub fn join_with_newlines(ls: &Vec<Vec<char>>) -> (r: Vec<char>)
    ensures
        r@ == join_lines(views(ls@)),
{
    let mut out: Vec<char> = Vec::new();
    let mut i: usize = 0;
    while i < ls.len()
        invariant
            i <= ls@.len(),
            out@ == join_lines(views(ls@).take(i as int)),
        decreases ls.len() - i,
    {
        let ghost prev = views(ls@).take(i as int);
        if i > 0 {
            out.push('\n');
        }
        extend_chars(&mut out, &ls[i]);
        proof {
            let next = views(ls@).take(i + 1);
            assert(next.drop_last() == prev);
            assert(next.last() == ls@[i as int]@);
            if i == 0 {
                assert(out@ == seq![] + ls@[i as int]@);
            }
        }
        i += 1;
    }
    assert(views(ls@).take(ls.len() as int) == views(ls@));
    out
}

/// The first `n` characters of `s` (all of them when there are fewer).
pub fn take_chars_exec(s: &[char], n: usize) -> (r: Vec<char>)
    ensures
        r@ == take_chars(s@, n as nat),
{
    if s.len() <= n {
        copy_range(s, 0, s.len())
    } else {
        copy_range(s, 0, n)
    }
}

/// `s` in reverse order.
pub fn reverse_chars(s: &[char]) -> (r: Vec<char>)
    ensures
        r@ == reversed(s@),
{
    let mut r: Vec<char> = Vec::new();
    let mut i: usize = s.len();
    while i > 0
        invariant
            i <= s@.len(),
            r@.len() == s@.len() - i,
            forall|k: int| 0 <= k < r@.len() ==> r@[k] == s@[s@.len() - 1 - k],
        decreases i,
    {
        i -= 1;
        r.push(s[i]);
    }
    assert(r@ == reversed(s@));
    r
}

} // verus!
