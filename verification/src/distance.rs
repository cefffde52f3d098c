//! The distance between two texts: a word diff, replayed through the lexer
//! on each side under every hypothesis, and the best-ranked pair of
//! hypotheses.
use vstd::prelude::*;
use vstd::arithmetic::div_mod::lemma_fundamental_div_mod_converse;
use vstd::set_lib::{lemma_int_range, lemma_len_subset, lemma_map_size_bound, set_int_range};
use crate::counters::{
    counter_add, evaluate, sum_with_prefix, CounterEntries, Counters,
};
use crate::lexer::{
    lemma_finish_empties_buffer, lemma_token_records, lex_finish, lex_first, lex_part, lex_reset,
    extend_weights, lex_token, recs, records, ChangeSet, LexState, RunView, WeightClass,
};
use crate::text::{
    chars_of, lemma_trim_end_is_prefix, lemma_trim_start_is_suffix, reversed, trim, trim_end,
    trim_start,
};

verus! {

// ---------------------------------------------------------------------------
// The word diff (prettydiff)
// ---------------------------------------------------------------------------

#[verifier::external_type_specification]
#[verifier::external_body]
pub struct ExInlineChangeset<'a>(prettydiff::text::InlineChangeset<'a>);

/// One operation of a word diff; each word is held as a `String`.
pub enum WordOp {
    Insert(Vec<String>),
    Replace(Vec<String>, Vec<String>),
    Remove(Vec<String>),
    Equal(Vec<String>),
}

/// The view of a word-diff operation.
pub enum WordOpView {
    Insert(Seq<Seq<char>>),
    Replace(Seq<Seq<char>>, Seq<Seq<char>>),
    Remove(Seq<Seq<char>>),
    Equal(Seq<Seq<char>>),
}

/// The texts of a vector of strings.
pub open spec fn string_views(v: Seq<String>) -> Seq<Seq<char>> {
    v.map_values(|s: String| s@)
}

impl View for WordOp {
    type V = WordOpView;

    open spec fn view(&self) -> WordOpView {
        match self {
            WordOp::Insert(a) => WordOpView::Insert(string_views(a@)),
            WordOp::Replace(a, b) => WordOpView::Replace(string_views(a@), string_views(b@)),
            WordOp::Remove(a) => WordOpView::Remove(string_views(a@)),
            WordOp::Equal(a) => WordOpView::Equal(string_views(a@)),
        }
    }
}

/// The operations of the word diff from `old` to `new` that
/// `InlineChangeset::diff` lists for `prettydiff::diff_words(old, new)`.
pub uninterp spec fn word_diff_ops(old: Seq<char>, new: Seq<char>) -> Seq<WordOpView>;

/// The display text that `InlineChangeset::format` gives for
/// `prettydiff::diff_words(old, new)`.
pub uninterp spec fn word_diff_text(old: Seq<char>, new: Seq<char>) -> Seq<char>;

/// `prettydiff::diff_words`: the word diff of two texts. Nothing is promised
/// of it here; what is read from it is specified by the functions below.
#[verifier::external_body]
fn diff_words_changeset<'a>(old: &'a str, new: &'a str) -> prettydiff::text::InlineChangeset<'a> {
    prettydiff::diff_words(old, new)
}

/// A word diff together with the two texts it was made from.
pub struct WordDiff<'a> {
    changeset: prettydiff::text::InlineChangeset<'a>,
    old: Ghost<Seq<char>>,
    new: Ghost<Seq<char>>,
}

impl<'a> WordDiff<'a> {
    /// The word diff from `old` to `new`.
    pub fn new(old: &'a str, new: &'a str) -> (r: WordDiff<'a>)
        ensures
            r.old_text() == old@,
            r.new_text() == new@,
    {
        WordDiff { changeset: diff_words_changeset(old, new), old: Ghost(old@), new: Ghost(new@) }
    }

    /// The text the diff starts from.
    pub closed spec fn old_text(&self) -> Seq<char> {
        self.old@
    }

    /// The text the diff leads to.
    pub closed spec fn new_text(&self) -> Seq<char> {
        self.new@
    }
}

/// `InlineChangeset::diff`: the operations of the word diff, each word
/// converted to a `String`. The contract names the result by the two texts
/// the changeset was made from (`WordDiff::new` is its only constructor).
#[verifier::external_body]
fn changeset_ops(d: &WordDiff) -> (r: Vec<WordOp>)
    ensures
        r@.map_values(|o: WordOp| o@) == word_diff_ops(d.old_text(), d.new_text()),
{
    let words = |a: &[&str]| a.iter().map(|s| s.to_string()).collect::<Vec<String>>();
    d.changeset.diff().into_iter().map(|op| match op {
        prettydiff::basic::DiffOp::Insert(a) => WordOp::Insert(words(a)),
        prettydiff::basic::DiffOp::Replace(a, b) => WordOp::Replace(words(a), words(b)),
        prettydiff::basic::DiffOp::Remove(a) => WordOp::Remove(words(a)),
        prettydiff::basic::DiffOp::Equal(a) => WordOp::Equal(words(a)),
    }).collect()
}

/// `InlineChangeset::format`: the display text of the word diff (removed
/// and inserted words styled with terminal colours). The contract names the
/// result by the two texts the changeset was made from.
#[verifier::external_body]
fn changeset_text(d: &WordDiff) -> (r: String)
    ensures
        r@ == word_diff_text(d.old_text(), d.new_text()),
{
    d.changeset.format()
}

/// The display text of the word diff from `old` to `new`.
pub fn word_diff_display(d: &WordDiff) -> (r: String)
    ensures
        r@ == word_diff_text(d.old_text(), d.new_text()),
{
    changeset_text(d)
}

// ---------------------------------------------------------------------------
// The word streams of the two sides
// ---------------------------------------------------------------------------

/// The side of a diff: the removed side (old text) or the inserted side
/// (new text).
#[derive(Clone, Copy, PartialEq, Eq, Structural, Debug)]
pub enum Side {
    Old,
    New,
}

/// The words of `ws`, each marked as counted (`true`) or not.
pub open spec fn marked(ws: Seq<Seq<char>>, counted: bool) -> Seq<(Seq<char>, bool)> {
    ws.map_values(|w: Seq<char>| (w, counted))
}

/// The words one operation contributes to a side: its own words, counted,
/// and the shared words, not counted.
pub open spec fn side_words(op: WordOpView, side: Side) -> Seq<(Seq<char>, bool)> {
    match op {
        WordOpView::Insert(a) => if side == Side::New {
            marked(a, true)
        } else {
            seq![]
        },
        WordOpView::Replace(a, b) => if side == Side::Old {
            marked(a, true)
        } else {
            marked(b, true)
        },
        WordOpView::Remove(a) => if side == Side::Old {
            marked(a, true)
        } else {
            seq![]
        },
        WordOpView::Equal(a) => marked(a, false),
    }
}

/// The words of a side, in order.
pub open spec fn side_stream(ops: Seq<WordOpView>, side: Side) -> Seq<(Seq<char>, bool)>
    decreases ops.len(),
{
    if ops.len() == 0 {
        seq![]
    } else {
        side_stream(ops.drop_last(), side) + side_words(ops.last(), side)
    }
}

/// The text of a stream of words.
pub open spec fn stream_text(st: Seq<(Seq<char>, bool)>) -> Seq<char>
    decreases st.len(),
{
    if st.len() == 0 {
        seq![]
    } else {
        stream_text(st.drop_last()) + st.last().0
    }
}

/// The views of an executable stream.
pub open spec fn stream_view(st: Seq<(Vec<char>, bool)>) -> Seq<(Seq<char>, bool)> {
    st.map_values(|e: (Vec<char>, bool)| (e.0@, e.1))
}

fn push_words(out: &mut Vec<(Vec<char>, bool)>, ws: &Vec<String>, counted: bool)
    ensures
        stream_view(final(out)@) == stream_view(old(out)@) + marked(string_views(ws@), counted),
{
    let mut i: usize = 0;
    while i < ws.len()
        invariant
            i <= ws@.len(),
            stream_view(out@) == stream_view(old(out)@) + marked(string_views(ws@).take(i as int), counted),
        decreases ws.len() - i,
    {
        let ghost before = out@;
        out.push((chars_of(ws[i].as_str()), counted));
        i += 1;
        assert(stream_view(out@) =~= stream_view(before).push((ws@[i - 1]@, counted)));
        assert(marked(string_views(ws@).take(i as int), counted) =~= marked(
            string_views(ws@).take(i - 1),
            counted,
        ).push((ws@[i - 1]@, counted)));
    }
    assert(string_views(ws@).take(ws@.len() as int) =~= string_views(ws@));
}

/// The word stream of one side of the operations.
fn build_stream(ops: &Vec<WordOp>, side: Side) -> (r: Vec<(Vec<char>, bool)>)
    ensures
        stream_view(r@) == side_stream(ops@.map_values(|o: WordOp| o@), side),
{
    let ghost v = ops@.map_values(|o: WordOp| o@);
    let mut out: Vec<(Vec<char>, bool)> = Vec::new();
    let mut i: usize = 0;
    assert(stream_view(out@) =~= side_stream(v.take(0), side));
    while i < ops.len()
        invariant
            i <= ops@.len(),
            v == ops@.map_values(|o: WordOp| o@),
            stream_view(out@) == side_stream(v.take(i as int), side),
        decreases ops.len() - i,
    {
        let ghost before = out@;
        match &ops[i] {
            WordOp::Insert(a) => {
                if side == Side::New {
                    push_words(&mut out, a, true);
                }
            },
            WordOp::Replace(a, b) => {
                if side == Side::Old {
                    push_words(&mut out, a, true);
                } else {
                    push_words(&mut out, b, true);
                }
            },
            WordOp::Remove(a) => {
                if side == Side::Old {
                    push_words(&mut out, a, true);
                }
            },
            WordOp::Equal(a) => {
                push_words(&mut out, a, false);
            },
        }
        proof {
            assert(v.take(i + 1).drop_last() == v.take(i as int));
            assert(v.take(i + 1).last() == ops@[i as int]@);
            assert(stream_view(out@) =~= stream_view(before) + side_words(ops@[i as int]@, side));
        }
        i += 1;
    }
    assert(v.take(ops@.len() as int) == v);
    out
}

// ---------------------------------------------------------------------------
// Replaying the hypotheses
// ---------------------------------------------------------------------------

/// The lexer after the words of `st`, with the weights of the counted ones.
pub open spec fn replay(s: LexState, st: Seq<(Seq<char>, bool)>) -> (LexState, Seq<WeightClass>)
    decreases st.len(),
{
    if st.len() == 0 {
        (s, seq![])
    } else {
        let (s1, w1) = replay(s, st.drop_last());
        let (s2, w2) = lex_part(s1, st.last().0);
        (
            s2,
            w1 + if st.last().1 {
                w2
            } else {
                seq![]
            },
        )
    }
}

/// One pass: hypothesis `i` replayed over the side, then finished.
pub open spec fn run_pass(s: LexState, i: int, st: Seq<(Seq<char>, bool)>) -> (
    LexState,
    Seq<WeightClass>,
) {
    let (s1, w1) = replay(lex_reset(s, i), st);
    let (s2, w2) = lex_finish(s1);
    (s2, w1 + w2)
}

/// The outcome of one hypothesis on one side.
pub struct HypothesisView {
    pub weights: Seq<WeightClass>,
    pub counters: CounterEntries,
    pub closed_cleanly: bool,
}

/// The outcomes of hypotheses `i`, `i + 1`, ... in turn, each pass starting
/// from the state the previous one left (so hypotheses found on the way are
/// replayed too); `fuel` bounds the number of passes.
pub open spec fn run_all(s: LexState, i: nat, st: Seq<(Seq<char>, bool)>, fuel: nat) -> Seq<
    HypothesisView,
>
    decreases fuel,
{
    if fuel == 0 || i >= s.runs.len() {
        seq![]
    } else {
        let (s2, w) = run_pass(s, i as int, st);
        seq![
            HypothesisView {
                weights: w,
                counters: s2.runs[i as int].counters,
                closed_cleanly: s2.section.len() == 0,
            },
        ] + run_all(s2, i + 1, st, (fuel - 1) as nat)
    }
}

/// The number of passes that always suffices for a side whose text is `t`:
/// one per hypothesis, and each hypothesis starts in the reverse of a piece
/// of `t`.
pub open spec fn pass_bound(t: Seq<char>) -> nat {
    ((t.len() + 1) * (t.len() + 1)) as nat
}

/// The outcomes of all hypotheses on a side, starting from a fresh lexer.
pub open spec fn side_outcomes(st: Seq<(Seq<char>, bool)>) -> Seq<HypothesisView> {
    run_all(fresh_lexer(), 0, st, pass_bound(stream_text(st)))
}

/// A fresh lexer.
pub open spec fn fresh_lexer() -> LexState {
    LexState {
        factor: WeightClass::Code,
        buffer: seq![],
        section: seq![],
        runs: seq![RunView { counters: seq![], record: seq![] }],
        index: 0,
    }
}

/// `r` is the reverse of a contiguous piece of `t`.
pub open spec fn is_reversed_piece(r: Seq<char>, t: Seq<char>) -> bool {
    exists|a: int, b: int| 0 <= a <= b <= t.len() && r == reversed(#[trigger] t.subrange(a, b))
}

/// `x` is a contiguous piece of `t`.
pub open spec fn is_piece(x: Seq<char>, t: Seq<char>) -> bool {
    exists|a: int, b: int| 0 <= a <= b <= t.len() && x == #[trigger] t.subrange(a, b)
}

/// The invariant of a pass over a side whose text is `t`: the hypotheses are
/// distinct and start in reverses of pieces of `t`.
pub open spec fn hypotheses_within(s: LexState, t: Seq<char>) -> bool {
    &&& 0 <= s.index < s.runs.len()
    &&& recs(s).no_duplicates()
    &&& forall|k: int| 0 <= k < recs(s).len() ==> is_reversed_piece(#[trigger] recs(s)[k], t)
}

/// Trimming a piece of `t` gives a piece of `t`.
proof fn lemma_trim_piece(x: Seq<char>, t: Seq<char>)
    requires
        is_piece(x, t),
    ensures
        is_piece(trim(x), t),
{
    let (a, b) = choose|a: int, b: int| 0 <= a <= b <= t.len() && x == t.subrange(a, b);
    lemma_trim_start_is_suffix(x);
    let y = trim_start(x);
    lemma_trim_end_is_prefix(y);
    let k = x.len() - y.len();
    let m = trim_end(y).len();
    assert(trim(x) == t.subrange(a + k, a + k + m));
}

/// A token that is a piece of `t` keeps the invariant.
proof fn lemma_token_within(s: LexState, part: Seq<char>, t: Seq<char>)
    requires
        hypotheses_within(s, t),
        is_piece(part, t),
    ensures
        hypotheses_within(lex_token(s, part).0, t),
        lex_token(s, part).0.buffer == s.buffer,
        lex_token(s, part).0.index == s.index,
        lex_token(s, part).0.runs.len() >= s.runs.len(),
{
    lemma_token_records(s, part);
    let n = lex_token(s, part).0;
    if recs(n) != recs(s) {
        lemma_trim_piece(part, t);
        let x = trim(part);
        let (a, b) = choose|a: int, b: int| 0 <= a <= b <= t.len() && x == t.subrange(a, b);
        assert(is_reversed_piece(reversed(x), t));
        assert forall|k: int| 0 <= k < recs(n).len() implies is_reversed_piece(
            #[trigger] recs(n)[k],
            t,
        ) by {
            if k < recs(s).len() {
                assert(recs(n)[k] == recs(s)[k]);
            }
        }
        assert(recs(n).no_duplicates()) by {
            assert forall|i: int, j: int| 0 <= i < j < recs(n).len() implies recs(n)[i]
                != recs(n)[j] by {
                if j == recs(s).len() {
                    assert(recs(n)[j] == reversed(x));
                    assert(recs(s)[i] == recs(n)[i]);
                }
            }
        }
    }
}

/// `stream_text` of a prefix is a prefix of `stream_text`.
proof fn lemma_stream_text_prefix(st: Seq<(Seq<char>, bool)>, k: int)
    requires
        0 <= k <= st.len(),
    ensures
        stream_text(st.take(k)).len() <= stream_text(st).len(),
        stream_text(st).take(stream_text(st.take(k)).len() as int) == stream_text(st.take(k)),
    decreases st.len() - k,
{
    if k < st.len() {
        lemma_stream_text_prefix(st, k + 1);
        assert(st.take(k + 1).drop_last() == st.take(k));
        let a = stream_text(st.take(k));
        let b = stream_text(st.take(k + 1));
        assert(b == a + st[k].0);
        assert(stream_text(st).take(a.len() as int) == b.take(a.len() as int));
        assert(b.take(a.len() as int) == a);
    } else {
        assert(st.take(k) == st);
    }
}

/// One word keeps the invariant when the buffer holds the end of the text
/// read so far and that text followed by the word is a prefix of `t`.
proof fn lemma_part_within(s1: LexState, part: Seq<char>, x0: Seq<char>, t: Seq<char>)
    requires
        hypotheses_within(s1, t),
        s1.buffer.len() <= x0.len(),
        s1.buffer == x0.subrange(x0.len() - s1.buffer.len(), x0.len() as int),
        x0.len() + part.len() <= t.len(),
        t.take((x0.len() + part.len()) as int) == x0 + part,
    ensures
        hypotheses_within(lex_part(s1, part).0, t),
        lex_part(s1, part).0.index == s1.index,
        lex_part(s1, part).0.runs.len() >= s1.runs.len(),
        ({
            let b = lex_part(s1, part).0.buffer;
            let x = x0 + part;
            b.len() <= x.len() && b == x.subrange(x.len() - b.len(), x.len() as int)
        }),
{
    let x = x0 + part;
    let b = s1.buffer;
    assert(part == t.subrange(x0.len() as int, x.len() as int)) by {
        assert(t.subrange(x0.len() as int, x.len() as int) == x.subrange(
            x0.len() as int,
            x.len() as int,
        ));
    }
    assert(is_piece(part, t));
    assert(b + part == t.subrange(x0.len() - b.len(), x.len() as int)) by {
        assert(t.subrange(x0.len() - b.len(), x.len() as int) == x.subrange(
            x0.len() - b.len(),
            x.len() as int,
        ));
        assert(x.subrange(x0.len() - b.len(), x.len() as int) =~= b + part);
    }
    assert(is_piece(b + part, t));
    assert(b == t.subrange(x0.len() - b.len(), x0.len() as int)) by {
        assert(t.subrange(x0.len() - b.len(), x0.len() as int) == x.subrange(
            x0.len() - b.len(),
            x0.len() as int,
        ));
    }
    assert(is_piece(b, t));
    assert(part == x.subrange(x.len() - part.len(), x.len() as int));
    assert(b + part == x.subrange(x.len() - (b + part).len(), x.len() as int));
    let emptied = LexState { buffer: seq![], ..s1 };
    assert(recs(emptied) == recs(s1));
    lemma_token_records(s1, part);
    lemma_token_within(s1, part, t);
    lemma_token_records(emptied, b + part);
    lemma_token_within(emptied, b + part, t);
    lemma_token_records(emptied, b);
    lemma_token_within(emptied, b, t);
    let s2 = lex_token(emptied, b).0;
    lemma_token_records(s2, part);
    lemma_token_within(s2, part, t);
}

/// A replay over words whose text is a prefix of `t` keeps the invariant,
/// and leaves in the buffer a suffix of the words' text.
proof fn lemma_replay_within(s: LexState, st: Seq<(Seq<char>, bool)>, t: Seq<char>)
    requires
        hypotheses_within(s, t),
        s.buffer.len() == 0,
        stream_text(st).len() <= t.len(),
        t.take(stream_text(st).len() as int) == stream_text(st),
    ensures
        hypotheses_within(replay(s, st).0, t),
        replay(s, st).0.index == s.index,
        replay(s, st).0.runs.len() >= s.runs.len(),
        ({
            let b = replay(s, st).0.buffer;
            let x = stream_text(st);
            b.len() <= x.len() && b == x.subrange(x.len() - b.len(), x.len() as int)
        }),
    decreases st.len(),
{
    if st.len() > 0 {
        let prev = st.drop_last();
        let x0 = stream_text(prev);
        let part = st.last().0;
        let x = stream_text(st);
        assert(x == x0 + part);
        assert(t.take(x0.len() as int) == x.take(x0.len() as int));
        assert(x.take(x0.len() as int) == x0);
        lemma_replay_within(s, prev, t);
        lemma_part_within(replay(s, prev).0, part, x0, t);
    } else {
        assert(stream_text(st) =~= Seq::<char>::empty());
    }
}

/// The invariant holds of a fresh lexer.
proof fn lemma_fresh_within(t: Seq<char>)
    ensures
        hypotheses_within(fresh_lexer(), t),
{
    let s = fresh_lexer();
    assert(recs(s) =~= seq![Seq::<char>::empty()]);
    assert(recs(s)[0] == reversed(t.subrange(0, 0)));
    assert(is_reversed_piece(recs(s)[0], t));
}

/// Distinct reverses of pieces of `t` are at most `pass_bound(t)` many.
proof fn lemma_hypotheses_bound(rs: Seq<Seq<char>>, t: Seq<char>)
    requires
        rs.no_duplicates(),
        forall|k: int| 0 <= k < rs.len() ==> is_reversed_piece(#[trigger] rs[k], t),
    ensures
        rs.len() <= pass_bound(t),
{
    let n: int = t.len() as int + 1;
    let hi: int = n * n;
    assert(hi >= 0) by (nonlinear_arith)
        requires
            n >= 1,
            hi == n * n,
    ;
    let all = set_int_range(0, hi);
    let f = |k: int| reversed(t.subrange(k / n, k % n));
    lemma_int_range(0, hi);
    lemma_map_size_bound(all, all.map(f), f);
    assert forall|r: Seq<char>| rs.to_set().contains(r) implies all.map(f).contains(r) by {
        let k = choose|k: int| 0 <= k < rs.len() && rs[k] == r;
        assert(is_reversed_piece(rs[k], t));
        let (a, b) = choose|a: int, b: int|
            0 <= a <= b <= t.len() && rs[k] == reversed(t.subrange(a, b));
        let code = a * n + b;
        assert(0 <= code < hi) by (nonlinear_arith)
            requires
                0 <= a <= b < n,
                code == a * n + b,
                hi == n * n,
        ;
        lemma_fundamental_div_mod_converse(code, n, a, b);
        assert(all.contains(code));
        assert(f(code) == r);
    }
    lemma_len_subset(rs.to_set(), all.map(f));
    rs.unique_seq_to_set();
}

/// One hypothesis's outcome on one side.
pub struct HypothesisResult {
    weights: Vec<WeightClass>,
    counters: Counters,
    closed_cleanly: bool,
}

impl HypothesisResult {
    /// The view of the outcome.
    pub closed spec fn view_result(&self) -> HypothesisView {
        HypothesisView {
            weights: self.weights@,
            counters: self.counters@,
            closed_cleanly: self.closed_cleanly,
        }
    }

    /// The counters are well formed.
    pub closed spec fn wf(&self) -> bool {
        self.counters.wf()
    }
}

/// The views of a vector of outcomes.
pub open spec fn result_views(v: Seq<HypothesisResult>) -> Seq<HypothesisView> {
    v.map_values(|r: HypothesisResult| r.view_result())
}

/// One pass: hypothesis `i` replayed over the words of the side and
/// finished; returns the weights of the counted words.
fn replay_pass(cs: &mut ChangeSet, i: usize, stream: &Vec<(Vec<char>, bool)>) -> (w: Vec<WeightClass>)
    requires
        old(cs).wf(),
        i < old(cs)@.runs.len(),
    ensures
        final(cs).wf(),
        (final(cs)@, w@) == run_pass(old(cs)@, i as int, stream_view(stream@)),
{
    let ghost st = stream_view(stream@);
    cs.reset(i);
    let ghost start = cs@;
    let mut weights: Vec<WeightClass> = Vec::new();
    let mut k: usize = 0;
    while k < stream.len()
        invariant
            st == stream_view(stream@),
            k <= stream@.len(),
            cs.wf(),
            (cs@, weights@) == replay(start, st.take(k as int)),
        decreases stream.len() - k,
    {
        let w = cs.handle_part_chars(&stream[k].0);
        proof {
            assert(st.take(k + 1).drop_last() == st.take(k as int));
            assert(st.take(k + 1).last() == (stream@[k as int].0@, stream@[k as int].1));
        }
        if stream[k].1 {
            extend_weights(&mut weights, &w);
        } else {
            assert(weights@ + Seq::<WeightClass>::empty() == weights@);
        }
        k += 1;
    }
    assert(st.take(stream@.len() as int) == st);
    let w = cs.finalize();
    extend_weights(&mut weights, &w);
    weights
}

/// A pass keeps the invariant of a side whose text is `t`, and leaves the
/// buffer empty.
proof fn lemma_pass_within(s: LexState, i: int, st: Seq<(Seq<char>, bool)>)
    requires
        hypotheses_within(s, stream_text(st)),
        s.buffer.len() == 0,
        0 <= i < s.runs.len(),
    ensures
        hypotheses_within(run_pass(s, i, st).0, stream_text(st)),
        run_pass(s, i, st).0.buffer.len() == 0,
        run_pass(s, i, st).0.runs.len() <= pass_bound(stream_text(st)),
        run_pass(s, i, st).0.runs.len() >= s.runs.len(),
{
    let t = stream_text(st);
    let start = lex_reset(s, i);
    assert(recs(start) =~= recs(s));
    assert(t.take(t.len() as int) == t);
    lemma_replay_within(start, st, t);
    let mid = replay(start, st).0;
    lemma_finish_empties_buffer(mid);
    let b = mid.buffer;
    if b.len() > 0 {
        assert(is_piece(b, t)) by {
            assert(b == t.subrange(t.len() - b.len(), t.len() as int));
        }
        lemma_token_within(LexState { buffer: seq![], ..mid }, b, t);
    }
    let fin = run_pass(s, i, st).0;
    lemma_hypotheses_bound(recs(fin), t);
}

/// Replays every hypothesis over the words of a side, including the
/// hypotheses found while replaying, and returns their outcomes in order.
fn run_side(stream: &Vec<(Vec<char>, bool)>) -> (r: Vec<HypothesisResult>)
    ensures
        result_views(r@) == side_outcomes(stream_view(stream@)),
        forall|k: int| 0 <= k < r@.len() ==> (#[trigger] r@[k]).wf(),
        r@.len() >= 1,
{
    let ghost st = stream_view(stream@);
    let ghost t = stream_text(st);
    let ghost bound = pass_bound(t);
    let mut cs = ChangeSet::new();
    proof {
        lemma_fresh_within(t);
        assert(bound >= 1) by (nonlinear_arith)
            requires
                bound == (t.len() + 1) * (t.len() + 1),
        ;
    }
    let mut results: Vec<HypothesisResult> = Vec::new();
    let mut i: usize = 0;
    while i < cs.run_len()
        invariant
            st == stream_view(stream@),
            t == stream_text(st),
            bound == pass_bound(t),
            cs.wf(),
            cs@.buffer.len() == 0,
            hypotheses_within(cs@, t),
            i <= cs@.runs.len() <= bound,
            results@.len() == i,
            result_views(results@) + run_all(cs@, i as nat, st, (bound - i) as nat) == run_all(
                fresh_lexer(),
                0,
                st,
                bound,
            ),
            forall|k: int| 0 <= k < results@.len() ==> (#[trigger] results@[k]).wf(),
        decreases bound - i,
    {
        let ghost before = cs@;
        proof {
            lemma_pass_within(before, i as int, st);
        }
        let weights = replay_pass(&mut cs, i, stream);
        let counters = cs.run(i).counters().copy();
        let closed_cleanly = cs.in_code();
        let ghost prev = results@;
        results.push(HypothesisResult { weights, counters, closed_cleanly });
        proof {
            assert(result_views(results@) =~= result_views(prev).push(results@[i as int].view_result()));
        }
        i += 1;
    }
    proof {
        assert(result_views(results@) + Seq::<HypothesisView>::empty() == result_views(results@));
    }
    results
}


// ---------------------------------------------------------------------------
// Ranking pairs of hypotheses
// ---------------------------------------------------------------------------

/// The rank of a pair of hypotheses: whether both ended in code, and the
/// ratio `expected / (unexpected + 1)` of their events.
#[derive(Clone, Copy, Debug)]
pub struct Score {
    pub closed: bool,
    pub expected: usize,
    pub unexpected: usize,
}

/// `a` ranks above `b`: a pair that ended in code ranks above one that did
/// not; otherwise the higher ratio `expected / (unexpected + 1)` ranks
/// higher.
pub open spec fn ranks_above(a: Score, b: Score) -> bool {
    ||| (a.closed && !b.closed)
    ||| (a.closed == b.closed && a.expected * (b.unexpected + 1) > b.expected * (a.unexpected
        + 1))
}

/// The rank of a pair of hypotheses with the given closing and counts.
pub fn hypothesis_score(closed_cleanly: bool, expected: usize, unexpected: usize) -> (r: Score)
    ensures
        r == (Score { closed: closed_cleanly, expected, unexpected }),
{
    Score { closed: closed_cleanly, expected, unexpected }
}

impl Score {
    /// Whether `self` ranks above `other`.
    pub fn outranks(&self, other: &Score) -> (r: bool)
        ensures
            r == ranks_above(*self, *other),
    {
        if self.closed != other.closed {
            return self.closed;
        }
        let a: u128 = self.expected as u128;
        let b: u128 = other.unexpected as u128 + 1;
        let c: u128 = other.expected as u128;
        let d: u128 = self.unexpected as u128 + 1;
        assert(a * b <= 0xffff_ffff_ffff_ffff * 0x1_0000_0000_0000_0000) by (nonlinear_arith)
            requires
                a <= 0xffff_ffff_ffff_ffff,
                b <= 0x1_0000_0000_0000_0000,
        ;
        assert(c * d <= 0xffff_ffff_ffff_ffff * 0x1_0000_0000_0000_0000) by (nonlinear_arith)
            requires
                c <= 0xffff_ffff_ffff_ffff,
                d <= 0x1_0000_0000_0000_0000,
        ;
        let lhs: u128 = a * b;
        let rhs: u128 = c * d;
        lhs > rhs
    }
}

/// Ranking is transitive.
pub proof fn lemma_ranks_above_transitive(a: Score, b: Score, c: Score)
    requires
        ranks_above(a, b),
        ranks_above(b, c),
    ensures
        ranks_above(a, c),
{
    if a.closed == b.closed && b.closed == c.closed {
        lemma_ratio_transitive(
            a.expected as int,
            a.unexpected + 1,
            b.expected as int,
            b.unexpected + 1,
            c.expected as int,
            c.unexpected + 1,
        );
    }
}

/// A pair above one that is not below a third is above the third.
pub proof fn lemma_ranks_above_not_below(a: Score, b: Score, c: Score)
    requires
        ranks_above(a, b),
        !ranks_above(c, b),
    ensures
        ranks_above(a, c),
{
    if a.closed == b.closed && b.closed == c.closed {
        lemma_ratio_not_below(
            a.expected as int,
            a.unexpected + 1,
            b.expected as int,
            b.unexpected + 1,
            c.expected as int,
            c.unexpected + 1,
        );
    }
}

proof fn lemma_ratio_transitive(p: int, pd: int, q: int, qd: int, r: int, rd: int)
    requires
        pd > 0,
        qd > 0,
        rd > 0,
        p * qd > q * pd,
        q * rd > r * qd,
    ensures
        p * rd > r * pd,
{
    assert(p * qd * rd > q * pd * rd) by (nonlinear_arith)
        requires
            p * qd > q * pd,
            rd > 0,
    ;
    assert(q * rd * pd > r * qd * pd) by (nonlinear_arith)
        requires
            q * rd > r * qd,
            pd > 0,
    ;
    assert(p * rd * qd > r * pd * qd) by (nonlinear_arith)
        requires
            p * qd * rd > q * pd * rd,
            q * rd * pd > r * qd * pd,
    ;
    assert(p * rd > r * pd) by (nonlinear_arith)
        requires
            p * rd * qd > r * pd * qd,
            qd > 0,
    ;
}

proof fn lemma_ratio_not_below(p: int, pd: int, q: int, qd: int, r: int, rd: int)
    requires
        pd > 0,
        qd > 0,
        rd > 0,
        p * qd > q * pd,
        r * qd <= q * rd,
    ensures
        p * rd > r * pd,
{
    assert(p * qd * rd > q * pd * rd) by (nonlinear_arith)
        requires
            p * qd > q * pd,
            rd > 0,
    ;
    assert(r * qd * pd <= q * rd * pd) by (nonlinear_arith)
        requires
            r * qd <= q * rd,
            pd > 0,
    ;
    assert(p * rd * qd > r * pd * qd) by (nonlinear_arith)
        requires
            p * qd * rd > q * pd * rd,
            r * qd * pd <= q * rd * pd,
    ;
    assert(p * rd > r * pd) by (nonlinear_arith)
        requires
            p * rd * qd > r * pd * qd,
            qd > 0,
    ;
}

/// A hypothesis pair that ended in code ranks above any pair that did not,
/// whatever their counts.
pub proof fn lemma_clean_close_ranks_above(a: Score, b: Score)
    requires
        a.closed,
        !b.closed,
    ensures
        ranks_above(a, b),
{
}

/// The counters of `c0` with those of `c1` added, entry by entry.
pub open spec fn merge_counters(c0: CounterEntries, c1: CounterEntries) -> CounterEntries
    decreases c1.len(),
{
    if c1.len() == 0 {
        c0
    } else {
        counter_add(merge_counters(c0, c1.drop_last()), c1.last().0, c1.last().1)
    }
}

/// The rank of the pair of outcomes `h0` (old side) and `h1` (new side):
/// their counters merged, and both required to end in code.
pub open spec fn pair_score(h0: HypothesisView, h1: HypothesisView) -> Score {
    let m = merge_counters(h0.counters, h1.counters);
    Score {
        closed: h0.closed_cleanly && h1.closed_cleanly,
        expected: sum_with_prefix(m, "expected:"@) as usize,
        unexpected: sum_with_prefix(m, "unexpected:"@) as usize,
    }
}

/// `(i, j)` comes before `(k, l)` in row order.
pub open spec fn pair_before(i: int, j: int, k: int, l: int) -> bool {
    i < k || (i == k && j < l)
}

/// `(i, j)` is the first best-ranked pair of outcomes: no pair ranks above
/// it, and it ranks above every pair before it.
pub open spec fn is_best_pair(h0: Seq<HypothesisView>, h1: Seq<HypothesisView>, i: int, j: int) -> bool {
    &&& 0 <= i < h0.len()
    &&& 0 <= j < h1.len()
    &&& forall|k: int, l: int|
        0 <= k < h0.len() && 0 <= l < h1.len() ==> !ranks_above(
            #[trigger] pair_score(h0[k], h1[l]),
            pair_score(h0[i], h1[j]),
        )
    &&& forall|k: int, l: int|
        0 <= k < h0.len() && 0 <= l < h1.len() && pair_before(k, l, i, j) ==> ranks_above(
            pair_score(h0[i], h1[j]),
            #[trigger] pair_score(h0[k], h1[l]),
        )
}

/// The hypotheses of both sides of a word diff.
pub open spec fn diff_outcomes(old: Seq<char>, new: Seq<char>, side: Side) -> Seq<HypothesisView> {
    side_outcomes(side_stream(word_diff_ops(old, new), side))
}

/// The distance between the two sides of a word diff: the weight classes
/// of the changed text on each side, read under the best-ranked pair of
/// hypotheses.
pub struct Distance {
    pub removed: Vec<WeightClass>,
    pub inserted: Vec<WeightClass>,
    pub old_hypothesis: usize,
    pub new_hypothesis: usize,
}

fn merged_counters(a: &Counters, b: &Counters) -> (r: Counters)
    requires
        a.wf(),
    ensures
        r@ == merge_counters(a@, b@),
        r.wf(),
{
    let mut m = a.copy();
    let mut k: usize = 0;
    assert(b@.take(0) =~= Seq::<(Seq<char>, nat)>::empty());
    while k < b.len()
        invariant
            k <= b@.len(),
            m.wf(),
            m@ == merge_counters(a@, b@.take(k as int)),
        decreases b@.len() - k,
    {
        let (key, n) = b.entry(k);
        proof {
            assert(b@.take(k + 1).drop_last() == b@.take(k as int));
            assert(b@.take(k + 1).last() == b@[k as int]);
        }
        m.add(key, n);
        k += 1;
    }
    assert(b@.take(b@.len() as int) == b@);
    m
}

fn score_of(h0: &HypothesisResult, h1: &HypothesisResult) -> (r: Score)
    requires
        h0.wf(),
    ensures
        r == pair_score(h0.view_result(), h1.view_result()),
{
    let m = merged_counters(&h0.counters, &h1.counters);
    let (e, u) = evaluate(&m);
    hypothesis_score(h0.closed_cleanly && h1.closed_cleanly, e, u)
}

/// The distance between the two texts of a word diff: each side is lexed
/// under every hypothesis, and the first best-ranked pair of hypotheses
/// gives the weight classes of the changed text on each side.
pub fn compute_distance(diff: &WordDiff) -> (d: Distance)
    ensures
        ({
            let h0 = diff_outcomes(diff.old_text(), diff.new_text(), Side::Old);
            let h1 = diff_outcomes(diff.old_text(), diff.new_text(), Side::New);
            &&& is_best_pair(h0, h1, d.old_hypothesis as int, d.new_hypothesis as int)
            &&& d.removed@ == h0[d.old_hypothesis as int].weights
            &&& d.inserted@ == h1[d.new_hypothesis as int].weights
        }),
{
    let ops = changeset_ops(diff);
    let s0 = build_stream(&ops, Side::Old);
    let s1 = build_stream(&ops, Side::New);
    let results0 = run_side(&s0);
    let results1 = run_side(&s1);
    let ghost h0 = result_views(results0@);
    let ghost h1 = result_views(results1@);
    let mut best_i: usize = 0;
    let mut best_j: usize = 0;
    let mut best = score_of(&results0[0], &results1[0]);
    let mut i: usize = 0;
    while i < results0.len()
        invariant
            h0 == result_views(results0@),
            h1 == result_views(results1@),
            results0@.len() >= 1,
            results1@.len() >= 1,
            forall|k: int| 0 <= k < results0@.len() ==> (#[trigger] results0@[k]).wf(),
            i <= results0@.len(),
            best_i < results0@.len(),
            best_j < results1@.len(),
            best == pair_score(h0[best_i as int], h1[best_j as int]),
            forall|k: int, l: int|
                0 <= k < i && 0 <= l < h1.len() ==> !ranks_above(
                    #[trigger] pair_score(h0[k], h1[l]),
                    best,
                ),
            forall|k: int, l: int|
                0 <= k < h0.len() && 0 <= l < h1.len() && pair_before(k, l, best_i as int, best_j as int)
                    ==> ranks_above(best, #[trigger] pair_score(h0[k], h1[l])),
        decreases results0.len() - i,
    {
        let mut j: usize = 0;
        while j < results1.len()
            invariant
                h0 == result_views(results0@),
                h1 == result_views(results1@),
                forall|k: int| 0 <= k < results0@.len() ==> (#[trigger] results0@[k]).wf(),
                i < results0@.len(),
                j <= results1@.len(),
                best_i < results0@.len(),
                best_j < results1@.len(),
                best == pair_score(h0[best_i as int], h1[best_j as int]),
                forall|k: int, l: int|
                    0 <= k < h0.len() && 0 <= l < h1.len() && pair_before(k, l, i as int, j as int)
                        ==> !ranks_above(#[trigger] pair_score(h0[k], h1[l]), best),
                forall|k: int, l: int|
                    0 <= k < h0.len() && 0 <= l < h1.len() && pair_before(k, l, best_i as int, best_j as int)
                        ==> ranks_above(best, #[trigger] pair_score(h0[k], h1[l])),
            decreases results1.len() - j,
        {
            let score = score_of(&results0[i], &results1[j]);
            if score.outranks(&best) {
                proof {
                    assert forall|k: int, l: int|
                        0 <= k < h0.len() && 0 <= l < h1.len() && pair_before(k, l, i as int, j as int)
                            implies ranks_above(score, #[trigger] pair_score(h0[k], h1[l])) by {
                        lemma_ranks_above_not_below(score, best, pair_score(h0[k], h1[l]));
                    }
                    assert forall|k: int, l: int|
                        0 <= k < h0.len() && 0 <= l < h1.len() && pair_before(k, l, i as int, j + 1)
                            implies !ranks_above(#[trigger] pair_score(h0[k], h1[l]), score) by {
                        if pair_before(k, l, i as int, j as int) {
                            if ranks_above(pair_score(h0[k], h1[l]), score) {
                                lemma_ranks_above_transitive(pair_score(h0[k], h1[l]), score, best);
                            }
                        }
                    }
                }
                best = score;
                best_i = i;
                best_j = j;
            }
            j += 1;
        }
        i += 1;
    }
    Distance {
        removed: copy_weights(&results0[best_i].weights),
        inserted: copy_weights(&results1[best_j].weights),
        old_hypothesis: best_i,
        new_hypothesis: best_j,
    }
}

fn copy_weights(w: &Vec<WeightClass>) -> (r: Vec<WeightClass>)
    ensures
        r@ == w@,
{
    let mut r: Vec<WeightClass> = Vec::new();
    extend_weights(&mut r, w);
    assert(r@ =~= w@);
    r
}

} // verus!
