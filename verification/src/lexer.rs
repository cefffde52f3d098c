//! A comment- and string-aware lexer over the words of a word diff.
//!
//! The lexer follows the words of one side of a diff and classifies each as
//! code, string content or comment content, so that a distance can weigh
//! each class differently. When a closing marker shows up without its
//! opening marker (a `*/` or `"#` in code), the text may have started inside
//! a comment or raw string: the lexer records a *hypothesis* (a run that
//! starts in that section) to be replayed later. Each run counts expected
//! and unexpected events, which rank the hypotheses against each other.
use vstd::prelude::*;
use crate::counters::{counter_add, counter_get, Counters, CounterEntries};
use crate::text::{
    chars_eq, chars_of, contains, contains_chars, extend_chars, reverse_chars, reversed,
    starts_with, starts_with_chars, string_from, trim, trim_chars, trim_start, is_whitespace,
};

verus! {

// ---------------------------------------------------------------------------
// Outside behaviour
// ---------------------------------------------------------------------------

/// Whether `c` has the Unicode `Alphabetic` property (`char::is_alphabetic`).
pub uninterp spec fn char_is_alphabetic(c: char) -> bool;

/// `char::is_alphabetic`: whether `c` has the Unicode `Alphabetic`
/// property. The property table is not restated here; the contract only
/// ties the result to the character.
#[verifier::external_body]
fn is_alphabetic_char(c: char) -> (r: bool)
    ensures
        r == char_is_alphabetic(c),
{
    c.is_alphabetic()
}

// ---------------------------------------------------------------------------
// Specifications
// ---------------------------------------------------------------------------

/// The weight class of a piece of text: which language weight applies.
#[derive(Clone, Copy, PartialEq, Eq, Structural, Debug)]
pub enum WeightClass {
    Code,
    StringLiteral,
    Comment,
}

/// The view of one hypothesis: its counters and the section it starts in.
pub struct RunView {
    pub counters: CounterEntries,
    pub record: Seq<char>,
}

/// The view of the lexer state.
pub struct LexState {
    pub factor: WeightClass,
    pub buffer: Seq<char>,
    pub section: Seq<char>,
    pub runs: Seq<RunView>,
    pub index: int,
}

/// All characters of `s` are alphabetic (`true` for the empty string).
pub open spec fn all_alphabetic(s: Seq<char>) -> bool {
    forall|i: int| 0 <= i < s.len() ==> char_is_alphabetic(#[trigger] s[i])
}

/// All characters of `s` are `'#'`.
pub open spec fn is_hash_run(s: Seq<char>) -> bool {
    forall|i: int| 0 <= i < s.len() ==> #[trigger] s[i] == '#'
}

/// `"###` (a raw-string opening shape): the number of `'#'`.
pub open spec fn open_quote_hashes(s: Seq<char>) -> Option<nat> {
    if s.len() > 0 && s[0] == '"' && is_hash_run(s.drop_first()) {
        Some((s.len() - 1) as nat)
    } else {
        None
    }
}

/// `###"` (a raw-string closing shape): the number of `'#'`.
pub open spec fn close_quote_hashes(s: Seq<char>) -> Option<nat> {
    if s.len() > 0 && s.last() == '"' && is_hash_run(s.drop_last()) {
        Some((s.len() - 1) as nat)
    } else {
        None
    }
}

/// The marker that a buffered `p` may grow into: `/*` for `*`, `//` for
/// `/`, `"#` for `#`; for anything else a text no buffer starts with.
pub open spec fn extendable(p: Seq<char>) -> Seq<char> {
    if p == seq!['*'] {
        seq!['/', '*']
    } else if p == seq!['/'] {
        seq!['/', '/']
    } else if p == seq!['#'] {
        seq!['"', '#']
    } else {
        seq!['X']
    }
}

/// The weight class of a section: code outside any section, comment in a
/// comment section, string content otherwise.
pub open spec fn section_class(s: Seq<char>) -> WeightClass {
    if s.len() == 0 {
        WeightClass::Code
    } else if s == seq!['*', '/'] || s == seq!['/', '*'] || s == seq!['/', '/'] {
        WeightClass::Comment
    } else {
        WeightClass::StringLiteral
    }
}

/// Whether `part` is held back in the buffer, as the possible start of a
/// longer marker, when it arrives with an empty buffer in `section`.
pub open spec fn holds_back(section: Seq<char>, part: Seq<char>) -> bool {
    if section.len() == 0 {
        ||| starts_with(seq!['/', '/'], part)
        ||| starts_with(seq!['/', '*'], part)
        ||| starts_with(seq!['#', '"'], part)
        ||| starts_with(seq!['\n'], part)
        ||| starts_with(seq!['*', '/'], part)
    } else {
        section != seq!['"'] && contains(seq!['"', '*', '#', '/'], part)
    }
}

/// The state with the count of `key` of the current run raised by one.
pub open spec fn count(s: LexState, key: Seq<char>) -> LexState {
    LexState {
        runs: s.runs.update(
            s.index,
            RunView { counters: counter_add(s.runs[s.index].counters, key, 1), ..s.runs[s.index] },
        ),
        ..s
    }
}

/// Some run starts in section `rec`.
pub open spec fn has_record(runs: Seq<RunView>, rec: Seq<char>) -> bool {
    exists|i: int| 0 <= i < runs.len() && runs[i].record == rec
}

/// The state with a new hypothesis starting in `rec`, unless one exists.
pub open spec fn add_hypothesis(s: LexState, rec: Seq<char>) -> LexState {
    if has_record(s.runs, rec) {
        s
    } else {
        LexState { runs: s.runs.push(RunView { counters: seq![], record: rec }), ..s }
    }
}

/// The state in `section`, with the weight class of `class`.
pub open spec fn enter(s: LexState, section: Seq<char>, class: WeightClass) -> LexState {
    LexState { section, factor: class, ..s }
}

/// The weights of one handled token: none, or the current weight class.
pub open spec fn weight_of(s: LexState) -> Seq<WeightClass> {
    seq![s.factor]
}

/// One complete token: the new state and the weights it contributes.
pub open spec fn lex_token(s: LexState, part: Seq<char>) -> (LexState, Seq<WeightClass>) {
    let t = trim(part);
    let sec = s.section;
    if t.len() == 0 {
        if part == seq!['\n'] && sec == seq!['/', '/'] {
            (enter(s, seq![], WeightClass::Code), seq![])
        } else {
            (s, seq![])
        }
    } else {
        let n = if sec.len() == 0 {
            if t == seq!['/', '/'] || t == seq!['/', '*'] {
                enter(s, part, WeightClass::Comment)
            } else if t == seq!['"'] || contains(t, seq!['#', '"']) {
                enter(s, t, WeightClass::StringLiteral)
            } else if t == seq!['*', '/'] {
                count(add_hypothesis(s, reversed(t)), "unexpected:code_comment_end_marker"@)
            } else if starts_with(t, seq!['"', '#']) {
                count(add_hypothesis(s, reversed(t)), "unexpected:code_rawstring_end_marker"@)
            } else if all_alphabetic(t) {
                count(s, "unexpected:code_word"@)
            } else {
                count(s, "expected:code_punct"@)
            }
        } else if (sec == seq!['/', '*'] && t == seq!['*', '/']) || (sec == seq!['"'] && t
            == seq!['"']) {
            enter(s, seq![], WeightClass::Code)
        } else if sec == seq!['"'] {
            if all_alphabetic(t) {
                count(s, "expected:string_word"@)
            } else {
                count(s, "unexpected:string_punct"@)
            }
        } else if sec == seq!['/', '/'] || sec == seq!['/', '*'] {
            count(s, "expected:comment_content"@)
        } else {
            match close_quote_hashes(t) {
                Some(q2) => match open_quote_hashes(sec) {
                    Some(q1) => if q1 == q2 {
                        enter(s, seq![], WeightClass::Code)
                    } else if q1 > q2 {
                        s
                    } else {
                        add_hypothesis(s, reversed(t))
                    },
                    None => add_hypothesis(s, reversed(t)),
                },
                None => if open_quote_hashes(t) is Some {
                    enter(s, part, WeightClass::StringLiteral)
                } else {
                    count(s, "expected:rawstring_content"@)
                },
            }
        };
        (n, weight_of(n))
    }
}

/// A token arriving with an empty buffer: held back, or lexed.
pub open spec fn lex_first(s: LexState, part: Seq<char>) -> (LexState, Seq<WeightClass>) {
    if part != seq!['\n'] && holds_back(s.section, part) {
        (LexState { buffer: s.buffer + part, ..s }, seq![])
    } else {
        lex_token(s, part)
    }
}

/// One word of the diff: the new state and the weights it contributes.
pub open spec fn lex_part(s: LexState, part: Seq<char>) -> (LexState, Seq<WeightClass>) {
    let b = s.buffer;
    let emptied = LexState { buffer: seq![], ..s };
    if b.len() == 0 {
        lex_first(s, part)
    } else if (b == seq!['#'] && part == seq!['"']) || (b == seq!['*'] && part == seq!['/']) {
        lex_token(emptied, b + part)
    } else if ((b == seq!['"'] || b == seq!['#']) && part == seq!['#']) || (b == seq!['/'] && (
    part == seq!['/'] || part == seq!['*'])) || starts_with(b, extendable(part)) {
        (LexState { buffer: b + part, ..s }, seq![])
    } else {
        let (s1, w1) = lex_token(emptied, b);
        let (s2, w2) = lex_first(s1, part);
        (s2, w1 + w2)
    }
}

/// The end of the input: whatever is still buffered is lexed as a token.
pub open spec fn lex_finish(s: LexState) -> (LexState, Seq<WeightClass>) {
    if s.buffer.len() == 0 {
        (s, seq![])
    } else {
        lex_token(LexState { buffer: seq![], ..s }, s.buffer)
    }
}

/// The state prepared to replay hypothesis `i` from its starting section.
pub open spec fn lex_reset(s: LexState, i: int) -> LexState {
    LexState {
        index: i,
        section: s.runs[i].record,
        factor: section_class(s.runs[i].record),
        runs: s.runs.update(i, RunView { counters: seq![], ..s.runs[i] }),
        ..s
    }
}

/// The records of the runs, in order.
pub open spec fn records(runs: Seq<RunView>) -> Seq<Seq<char>> {
    runs.map_values(|r: RunView| r.record)
}

/// The records of the runs of a state.
pub open spec fn recs(s: LexState) -> Seq<Seq<char>> {
    records(s.runs)
}

/// Counting keeps the hypotheses.
pub proof fn lemma_count_records(s: LexState, key: Seq<char>)
    requires
        0 <= s.index < s.runs.len(),
    ensures
        recs(count(s, key)) == recs(s),
        count(s, key).runs.len() == s.runs.len(),
{
    assert(recs(count(s, key)) =~= recs(s));
}

/// Adding a hypothesis appends its record exactly when it is new.
pub proof fn lemma_add_hypothesis_records(s: LexState, rec: Seq<char>)
    ensures
        recs(s).contains(rec) ==> recs(add_hypothesis(s, rec)) == recs(s),
        !recs(s).contains(rec) ==> recs(add_hypothesis(s, rec)) == recs(s).push(rec),
        add_hypothesis(s, rec).buffer == s.buffer,
        add_hypothesis(s, rec).index == s.index,
        add_hypothesis(s, rec).runs.len() >= s.runs.len(),
{
    if has_record(s.runs, rec) {
        let i = choose|i: int| 0 <= i < s.runs.len() && s.runs[i].record == rec;
        assert(recs(s)[i] == rec);
    } else {
        assert forall|i: int| 0 <= i < recs(s).len() implies recs(s)[i] != rec by {
            assert(s.runs[i].record != rec);
        }
        assert(recs(add_hypothesis(s, rec)) =~= recs(s).push(rec));
    }
}

/// The effect of a token on the hypotheses: none, or one new hypothesis
/// that starts in the reverse of the trimmed token.
pub proof fn lemma_token_records(s: LexState, part: Seq<char>)
    requires
        0 <= s.index < s.runs.len(),
    ensures
        ({
            let n = lex_token(s, part).0;
            &&& n.buffer == s.buffer
            &&& n.index == s.index
            &&& n.runs.len() >= s.runs.len()
            &&& (recs(n) == recs(s) || (recs(n) == recs(s).push(reversed(trim(part)))
                && !recs(s).contains(reversed(trim(part)))))
        }),
{
    let t = trim(part);
    let r = reversed(t);
    lemma_add_hypothesis_records(s, r);
    let a = add_hypothesis(s, r);
    lemma_count_records(a, "unexpected:code_comment_end_marker"@);
    lemma_count_records(a, "unexpected:code_rawstring_end_marker"@);
    lemma_count_records(s, "unexpected:code_word"@);
    lemma_count_records(s, "expected:code_punct"@);
    lemma_count_records(s, "expected:string_word"@);
    lemma_count_records(s, "unexpected:string_punct"@);
    lemma_count_records(s, "expected:comment_content"@);
    lemma_count_records(s, "expected:rawstring_content"@);
}

/// The runs of a state as the lexer keeps them: the run that starts in
/// code comes first, no two runs start in the same section, and the
/// current run exists.
pub open spec fn runs_ok(s: LexState) -> bool {
    &&& s.runs.len() > 0
    &&& s.runs[0].record == Seq::<char>::empty()
    &&& recs(s).no_duplicates()
    &&& 0 <= s.index < s.runs.len()
}

/// `n` keeps the runs of `s`: the same current run, the old runs with their
/// sections, the other runs' counters untouched, and at most `extra` new
/// runs, each with empty counters.
pub open spec fn runs_kept(s: LexState, n: LexState, extra: nat) -> bool {
    &&& n.index == s.index
    &&& s.runs.len() <= n.runs.len() <= s.runs.len() + extra
    &&& forall|j: int| 0 <= j < s.runs.len() ==> #[trigger] n.runs[j].record == s.runs[j].record
    &&& forall|j: int|
        0 <= j < s.runs.len() && j != s.index ==> #[trigger] n.runs[j].counters == s.runs[j].counters
    &&& forall|j: int| s.runs.len() <= j < n.runs.len() ==> #[trigger] n.runs[j].counters == Seq::<(Seq<char>, nat)>::empty()
}

proof fn lemma_runs_kept_trans(a: LexState, b: LexState, c: LexState, x: nat, y: nat)
    requires
        0 <= a.index < a.runs.len(),
        runs_kept(a, b, x),
        runs_kept(b, c, y),
    ensures
        runs_kept(a, c, x + y),
{
    assert forall|j: int| 0 <= j < a.runs.len() implies #[trigger] c.runs[j].record == a.runs[j].record by {
        assert(c.runs[j].record == b.runs[j].record);
    }
    assert forall|j: int| 0 <= j < a.runs.len() && j != a.index implies #[trigger] c.runs[j].counters
        == a.runs[j].counters by {
        assert(c.runs[j].counters == b.runs[j].counters);
    }
    assert forall|j: int| a.runs.len() <= j < c.runs.len() implies #[trigger] c.runs[j].counters
        == Seq::<(Seq<char>, nat)>::empty() by {
        if j < b.runs.len() {
            assert(c.runs[j].counters == b.runs[j].counters);
        }
    }
}

proof fn lemma_count_keeps_runs(s: LexState, key: Seq<char>)
    requires
        runs_ok(s),
    ensures
        runs_ok(count(s, key)),
        runs_kept(s, count(s, key), 0),
{
    lemma_count_records(s, key);
}

proof fn lemma_add_hypothesis_keeps_runs(s: LexState, rec: Seq<char>)
    requires
        runs_ok(s),
    ensures
        runs_ok(add_hypothesis(s, rec)),
        runs_kept(s, add_hypothesis(s, rec), 1),
{
    lemma_add_hypothesis_records(s, rec);
    let n = add_hypothesis(s, rec);
    if !recs(s).contains(rec) {
        let r = recs(s);
        assert forall|i: int, j: int| 0 <= i < recs(n).len() && 0 <= j < recs(n).len() && i != j
            implies recs(n)[i] != recs(n)[j] by {
            if i < r.len() && j < r.len() {
                assert(recs(n)[i] == r[i] && recs(n)[j] == r[j]);
            } else if i < r.len() {
                assert(recs(n)[i] == r[i]);
            } else {
                assert(recs(n)[j] == r[j]);
            }
        }
        assert(recs(n)[0] == r[0]);
    }
}

/// A complete token keeps the runs as the lexer keeps them: the current run
/// and every run's section stay, no other run's counters change, and at
/// most one run is added, with empty counters.
pub proof fn lemma_token_keeps_runs(s: LexState, part: Seq<char>)
    requires
        runs_ok(s),
    ensures
        runs_ok(lex_token(s, part).0),
        runs_kept(s, lex_token(s, part).0, 1),
{
    let t = trim(part);
    let r = reversed(t);
    lemma_add_hypothesis_keeps_runs(s, r);
    let a = add_hypothesis(s, r);
    lemma_count_keeps_runs(a, "unexpected:code_comment_end_marker"@);
    lemma_count_keeps_runs(a, "unexpected:code_rawstring_end_marker"@);
    lemma_runs_kept_trans(s, a, count(a, "unexpected:code_comment_end_marker"@), 1, 0);
    lemma_runs_kept_trans(s, a, count(a, "unexpected:code_rawstring_end_marker"@), 1, 0);
    lemma_count_keeps_runs(s, "unexpected:code_word"@);
    lemma_count_keeps_runs(s, "expected:code_punct"@);
    lemma_count_keeps_runs(s, "expected:string_word"@);
    lemma_count_keeps_runs(s, "unexpected:string_punct"@);
    lemma_count_keeps_runs(s, "expected:comment_content"@);
    lemma_count_keeps_runs(s, "expected:rawstring_content"@);
}

/// A word of the diff keeps the runs as the lexer keeps them, adding at
/// most two runs (the buffered word and the word itself may each add one).
pub proof fn lemma_part_keeps_runs(s: LexState, part: Seq<char>)
    requires
        runs_ok(s),
    ensures
        runs_ok(lex_part(s, part).0),
        runs_kept(s, lex_part(s, part).0, 2),
{
    let b = s.buffer;
    let emptied = LexState { buffer: seq![], ..s };
    assert(recs(emptied) == recs(s));
    lemma_token_keeps_runs(emptied, b + part);
    lemma_token_keeps_runs(emptied, b);
    lemma_token_keeps_runs(s, part);
    let s1 = lex_token(emptied, b).0;
    lemma_token_keeps_runs(s1, part);
    lemma_runs_kept_trans(s, s1, lex_token(s1, part).0, 1, 1);
    let s1b = LexState { buffer: s1.buffer + part, ..s1 };
    assert(recs(s1b) == recs(s1));
    lemma_runs_kept_trans(s, s1, s1b, 1, 0);
}

/// Finishing a pass keeps the runs as the lexer keeps them.
pub proof fn lemma_finish_keeps_runs(s: LexState)
    requires
        runs_ok(s),
    ensures
        runs_ok(lex_finish(s).0),
        runs_kept(s, lex_finish(s).0, 1),
{
    let emptied = LexState { buffer: seq![], ..s };
    assert(recs(emptied) == recs(s));
    lemma_token_keeps_runs(emptied, s.buffer);
}

/// Preparing to replay run `i` keeps every run's section and the other
/// runs' counters, and makes `i` the current run, with empty counters.
pub proof fn lemma_reset_keeps_runs(s: LexState, i: int)
    requires
        runs_ok(s),
        0 <= i < s.runs.len(),
    ensures
        runs_ok(lex_reset(s, i)),
        lex_reset(s, i).index == i,
        recs(lex_reset(s, i)) == recs(s),
        lex_reset(s, i).runs[i].counters == Seq::<(Seq<char>, nat)>::empty(),
        forall|j: int| 0 <= j < s.runs.len() && j != i ==> #[trigger] lex_reset(s, i).runs[j] == s.runs[j],
{
    assert(recs(lex_reset(s, i)) =~= recs(s));
}

/// A line break ends a line comment: after it the lexer is back in code,
/// with the code weight, and the break itself weighs nothing.
pub proof fn lemma_newline_closes_line_comment(s: LexState)
    requires
        s.section == seq!['/', '/'],
    ensures
        lex_token(s, seq!['\n']).0.section.len() == 0,
        lex_token(s, seq!['\n']).0.factor == WeightClass::Code,
        lex_token(s, seq!['\n']).1.len() == 0,
        lex_token(s, seq!['\n']).0.runs == s.runs,
        s.buffer.len() == 0 ==> lex_part(s, seq!['\n']) == lex_token(s, seq!['\n']),
{
    assert(trim(seq!['\n']).len() == 0) by {
        reveal_with_fuel(trim_start, 2);
        assert(is_whitespace('\n'));
        assert(seq!['\n'].drop_first() =~= Seq::<char>::empty());
    }
}

/// In code, a word is weighed as code: after a line comment's line break,
/// the words of the next line that hold no comment or string marker
/// character (`/`, `*`, `"`, `#`) count with the code weight.
pub proof fn lemma_code_word_weighs_code(s: LexState, part: Seq<char>)
    requires
        s.section.len() == 0,
        s.factor == WeightClass::Code,
        trim(part).len() > 0,
        forall|i: int|
            0 <= i < trim(part).len() ==> #[trigger] trim(part)[i] != '/' && trim(part)[i] != '*'
                && trim(part)[i] != '"' && trim(part)[i] != '#',
    ensures
        lex_token(s, part).1 == seq![WeightClass::Code],
        lex_token(s, part).0.section.len() == 0,
{
    let t = trim(part);
    assert(t[0] != '/' && t[0] != '*' && t[0] != '"');
    if contains(t, seq!['#', '"']) {
        let i = choose|i: int| crate::text::occurs_at(t, seq!['#', '"'], i);
        assert(t.subrange(i, i + 2)[0] == t[i]);
    }
    assert(t != seq!['/', '/'] && t != seq!['/', '*'] && t != seq!['"'] && t != seq!['*', '/']);
    assert(!starts_with(t, seq!['"', '#'])) by {
        if starts_with(t, seq!['"', '#']) {
            assert(t.subrange(0, 2)[0] == t[0]);
        }
    }
}

/// A word on the line after a line comment is weighed as code.
pub proof fn lemma_word_after_line_comment(s: LexState, part: Seq<char>)
    requires
        s.section == seq!['/', '/'],
        trim(part).len() > 0,
        forall|i: int|
            0 <= i < trim(part).len() ==> #[trigger] trim(part)[i] != '/' && trim(part)[i] != '*'
                && trim(part)[i] != '"' && trim(part)[i] != '#',
    ensures
        lex_token(lex_token(s, seq!['\n']).0, part).1 == seq![WeightClass::Code],
{
    lemma_newline_closes_line_comment(s);
    lemma_code_word_weighs_code(lex_token(s, seq!['\n']).0, part);
}

/// Outside a line comment, a line break leaves the lexer as it is and
/// weighs nothing.
pub proof fn lemma_newline_elsewhere_changes_nothing(s: LexState)
    requires
        s.section != seq!['/', '/'],
    ensures
        lex_token(s, seq!['\n']) == (s, Seq::<WeightClass>::empty()),
{
    assert(trim(seq!['\n']).len() == 0) by {
        reveal_with_fuel(trim_start, 2);
        assert(is_whitespace('\n'));
        assert(seq!['\n'].drop_first() =~= Seq::<char>::empty());
    }
}

/// Finishing a pass empties the buffer.
pub proof fn lemma_finish_empties_buffer(s: LexState)
    requires
        0 <= s.index < s.runs.len(),
    ensures
        lex_finish(s).0.buffer.len() == 0,
{
    if s.buffer.len() > 0 {
        lemma_token_records(LexState { buffer: seq![], ..s }, s.buffer);
    }
}

// ---------------------------------------------------------------------------
// Executable state
// ---------------------------------------------------------------------------

/// One hypothesis: the section it starts in and its counters.
pub struct Run {
    counters: Counters,
    record: Vec<char>,
}

impl Run {
    /// A fresh hypothesis starting in `record`.
    pub fn new(record: Vec<char>) -> (r: Run)
        ensures
            r.view_run() == (RunView { counters: seq![], record: record@ }),
            r.wf(),
    {
        Run { counters: Counters::new(), record }
    }

    /// The view of the run.
    pub closed spec fn view_run(&self) -> RunView {
        RunView { counters: self.counters@, record: self.record@ }
    }

    /// The counters are well formed.
    pub closed spec fn wf(&self) -> bool {
        self.counters.wf()
    }

    /// The section this hypothesis starts in.
    pub fn record(&self) -> (r: String)
        ensures
            r@ == self.view_run().record,
    {
        string_from(&self.record)
    }

    /// The counters of this hypothesis.
    pub fn counters(&self) -> (r: &Counters)
        ensures
            r@ == self.view_run().counters,
            r.wf() == self.wf(),
    {
        &self.counters
    }
}

/// The lexer state: the current section, a buffer of words that may still
/// grow into a marker, and the hypotheses with the one being replayed.
pub struct ChangeSet {
    factor: WeightClass,
    buffer: Vec<char>,
    section: Vec<char>,
    run: Vec<Run>,
    index: usize,
}

impl View for ChangeSet {
    type V = LexState;

    closed spec fn view(&self) -> LexState {
        LexState {
            factor: self.factor,
            buffer: self.buffer@,
            section: self.section@,
            runs: self.run@.map_values(|r: Run| r.view_run()),
            index: self.index as int,
        }
    }
}

impl ChangeSet {
    /// The state is well formed: the current run exists and every run's
    /// counters are well formed.
    pub closed spec fn wf(&self) -> bool {
        &&& self.index < self.run@.len()
        &&& forall|i: int| 0 <= i < self.run@.len() ==> (#[trigger] self.run@[i]).wf()
    }

    /// A lexer in code, with the single hypothesis that starts in code.
    pub fn new() -> (r: ChangeSet)
        ensures
            r.wf(),
            runs_ok(r@),
            r@ == (LexState {
                factor: WeightClass::Code,
                buffer: seq![],
                section: seq![],
                runs: seq![RunView { counters: seq![], record: seq![] }],
                index: 0,
            }),
    {
        let mut run: Vec<Run> = Vec::new();
        run.push(Run::new(Vec::new()));
        let r = ChangeSet {
            factor: WeightClass::Code,
            buffer: Vec::new(),
            section: Vec::new(),
            run,
            index: 0,
        };
        assert(r@.runs =~= seq![RunView { counters: seq![], record: seq![] }]);
        r
    }

    /// The well-formedness of the state is what `wf` says of its view.
    pub proof fn lemma_view_wf(&self)
        requires
            self.wf(),
        ensures
            0 <= self@.index < self@.runs.len(),
    {
    }

    /// The number of hypotheses.
    pub fn run_len(&self) -> (r: usize)
        ensures
            r == self@.runs.len(),
    {
        self.run.len()
    }

    /// Hypothesis `i`.
    pub fn run(&self, i: usize) -> (r: &Run)
        requires
            i < self@.runs.len(),
            self.wf(),
        ensures
            r.view_run() == self@.runs[i as int],
            r.wf(),
    {
        &self.run[i]
    }

    /// The section the lexer is in.
    pub fn section(&self) -> (r: String)
        ensures
            r@ == self@.section,
    {
        string_from(&self.section)
    }

    /// The words held back in the buffer.
    pub fn buffer(&self) -> (r: String)
        ensures
            r@ == self@.buffer,
    {
        string_from(&self.buffer)
    }

    /// Whether the lexer is in code (every section it entered was closed).
    pub fn in_code(&self) -> (r: bool)
        ensures
            r == (self@.section.len() == 0),
    {
        self.section.len() == 0
    }

    /// The count of `key` in the current hypothesis.
    pub fn get_counter(&self, key: &str) -> (r: usize)
        requires
            self.wf(),
        ensures
            r == counter_get(self@.runs[self@.index].counters, key@),
    {
        self.run[self.index].counters.get(key)
    }

    /// Raises the count of `key` in the current hypothesis by one.
    fn count(&mut self, key: &str)
        requires
            old(self).wf(),
        ensures
            final(self).wf(),
            final(self)@ == count(old(self)@, key@),
    {
        let k = chars_of(key);
        let ghost before = self@;
        let i = self.index;
        let mut r = self.run.remove(i);
        r.counters.add(&k, 1);
        self.run.insert(i, r);
        assert(self@.runs =~= count(before, key@).runs);
    }

    /// Adds a hypothesis starting in `rec`, unless one exists.
    fn add_hypothesis(&mut self, rec: Vec<char>)
        requires
            old(self).wf(),
        ensures
            final(self).wf(),
            final(self)@ == add_hypothesis(old(self)@, rec@),
    {
        let ghost before = self@;
        let mut i: usize = 0;
        while i < self.run.len()
            invariant
                i <= self.run@.len(),
                self@ == before,
                self.wf(),
                forall|j: int| 0 <= j < i ==> before.runs[j].record != rec@,
            decreases self.run.len() - i,
        {
            if chars_eq(&self.run[i].record, &rec) {
                assert(before.runs[i as int].record == rec@);
                return ;
            }
            i += 1;
        }
        self.run.push(Run::new(rec));
        assert(self@.runs =~= before.runs.push(RunView { counters: seq![], record: rec@ }));
    }

    /// Empties the buffer, returning what it held.
    fn take_buffer(&mut self) -> (b: Vec<char>)
        requires
            old(self).wf(),
        ensures
            final(self).wf(),
            b@ == old(self)@.buffer,
            final(self)@ == (LexState { buffer: seq![], ..old(self)@ }),
    {
        let mut b: Vec<char> = Vec::new();
        std::mem::swap(&mut b, &mut self.buffer);
        b
    }

    /// Enters `section` with weight class `class`.
    fn enter(&mut self, section: Vec<char>, class: WeightClass)
        requires
            old(self).wf(),
        ensures
            final(self).wf(),
            final(self)@ == enter(old(self)@, section@, class),
    {
        self.section = section;
        self.factor = class;
    }

    /// Lexes one complete token.
    fn handle_part_inner(&mut self, part: &[char]) -> (w: Vec<WeightClass>)
        requires
            old(self).wf(),
        ensures
            final(self).wf(),
            (final(self)@, w@) == lex_token(old(self)@, part@),
    {
        let t = trim_chars(part);
        let ghost s = self@;
        let nl = tok1('\n');
        let sl2 = tok2('/', '/');
        let slst = tok2('/', '*');
        let stsl = tok2('*', '/');
        let q = tok1('"');
        let hq = tok2('#', '"');
        let qh = tok2('"', '#');
        if t.len() == 0 {
            if chars_eq(part, &nl) && chars_eq(&self.section, &sl2) {
                self.enter(Vec::new(), WeightClass::Code);
            }
            return Vec::new();
        }
        if self.section.len() == 0 {
            if chars_eq(&t, &sl2) || chars_eq(&t, &slst) {
                self.enter(chars_of_slice(part), WeightClass::Comment);
            } else if chars_eq(&t, &q) || contains_chars(&t, &hq) {
                self.enter(t, WeightClass::StringLiteral);
            } else if chars_eq(&t, &stsl) {
                let rec = reverse_chars(&t);
                self.add_hypothesis(rec);
                self.count("unexpected:code_comment_end_marker");
            } else if starts_with_chars(&t, &qh) {
                let rec = reverse_chars(&t);
                self.add_hypothesis(rec);
                self.count("unexpected:code_rawstring_end_marker");
            } else if all_alphabetic_exec(&t) {
                self.count("unexpected:code_word");
            } else {
                self.count("expected:code_punct");
            }
        } else if (chars_eq(&self.section, &slst) && chars_eq(&t, &stsl)) || (chars_eq(
            &self.section,
            &q,
        ) && chars_eq(&t, &q)) {
            self.enter(Vec::new(), WeightClass::Code);
        } else if chars_eq(&self.section, &q) {
            if all_alphabetic_exec(&t) {
                self.count("expected:string_word");
            } else {
                self.count("unexpected:string_punct");
            }
        } else if chars_eq(&self.section, &sl2) || chars_eq(&self.section, &slst) {
            self.count("expected:comment_content");
        } else {
            match close_quote_hashes_exec(&t) {
                Some(q2) => match open_quote_hashes_exec(&self.section) {
                    Some(q1) => {
                        if q1 == q2 {
                            self.enter(Vec::new(), WeightClass::Code);
                        } else if q1 > q2 {
                        } else {
                            let rec = reverse_chars(&t);
                            self.add_hypothesis(rec);
                        }
                    },
                    None => {
                        let rec = reverse_chars(&t);
                        self.add_hypothesis(rec);
                    },
                },
                None => {
                    if open_quote_hashes_exec(&t).is_some() {
                        self.enter(chars_of_slice(part), WeightClass::StringLiteral);
                    } else {
                        self.count("expected:rawstring_content");
                    }
                },
            }
        }
        let mut w: Vec<WeightClass> = Vec::new();
        w.push(self.factor);
        assert(w@ == weight_of(self@));
        w
    }

    /// A word arriving with an empty buffer: held back or lexed.
    fn handle_first_part(&mut self, part: &[char]) -> (w: Vec<WeightClass>)
        requires
            old(self).wf(),
        ensures
            final(self).wf(),
            (final(self)@, w@) == lex_first(old(self)@, part@),
    {
        let nl = tok1('\n');
        if chars_eq(part, &nl) {
            return self.handle_part_inner(part);
        }
        if holds_back_exec(&self.section, part) {
            extend_chars(&mut self.buffer, part);
            return Vec::new();
        }
        self.handle_part_inner(part)
    }

    /// Feeds one word of the diff to the lexer; returns the weight classes
    /// of the text it completed.
    pub fn handle_part(&mut self, part: &str) -> (w: Vec<WeightClass>)
        requires
            old(self).wf(),
        ensures
            final(self).wf(),
            (final(self)@, w@) == lex_part(old(self)@, part@),
    {
        let part = chars_of(part);
        self.handle_part_chars(&part)
    }

    /// `handle_part` on a character slice.
    pub fn handle_part_chars(&mut self, part: &[char]) -> (w: Vec<WeightClass>)
        requires
            old(self).wf(),
        ensures
            final(self).wf(),
            (final(self)@, w@) == lex_part(old(self)@, part@),
    {
        let ghost s = self@;
        if self.buffer.len() == 0 {
            return self.handle_first_part(part);
        }
        let hash = tok1('#');
        let star = tok1('*');
        let slash = tok1('/');
        let q = tok1('"');
        if (chars_eq(&self.buffer, &hash) && chars_eq(part, &q)) || (chars_eq(&self.buffer, &star)
            && chars_eq(part, &slash)) {
            let mut op = self.take_buffer();
            extend_chars(&mut op, part);
            return self.handle_part_inner(&op);
        }
        if ((chars_eq(&self.buffer, &q) || chars_eq(&self.buffer, &hash)) && chars_eq(part, &hash))
            || (chars_eq(&self.buffer, &slash) && (chars_eq(part, &slash) || chars_eq(
            part,
            &star,
        ))) || starts_with_chars(&self.buffer, &extendable_exec(part)) {
            extend_chars(&mut self.buffer, part);
            return Vec::new();
        }
        let op = self.take_buffer();
        let mut w1 = self.handle_part_inner(&op);
        let w2 = self.handle_first_part(part);
        extend_weights(&mut w1, &w2);
        w1
    }

    /// Lexes whatever is still buffered; returns the weight classes of the
    /// text it completed.
    pub fn finalize(&mut self) -> (w: Vec<WeightClass>)
        requires
            old(self).wf(),
        ensures
            final(self).wf(),
            (final(self)@, w@) == lex_finish(old(self)@),
    {
        if self.buffer.len() == 0 {
            return Vec::new();
        }
        let leftover = self.take_buffer();
        self.handle_part_inner(&leftover)
    }

    /// Prepares to replay hypothesis `i` from its starting section, with
    /// its counters cleared.
    pub fn reset(&mut self, i: usize)
        requires
            old(self).wf(),
            i < old(self)@.runs.len(),
        ensures
            final(self).wf(),
            final(self)@ == lex_reset(old(self)@, i as int),
    {
        let ghost before = self@;
        self.index = i;
        let mut r = self.run.remove(i);
        let sec = chars_to_owned(&r.record);
        r.counters.clear();
        self.run.insert(i, r);
        self.factor = section_class_exec(&sec);
        self.section = sec;
        assert(self@.runs =~= lex_reset(before, i as int).runs);
    }
}

/// The one-character text `a`.
fn tok1(a: char) -> (r: Vec<char>)
    ensures
        r@ == seq![a],
{
    let mut r: Vec<char> = Vec::new();
    r.push(a);
    assert(r@ =~= seq![a]);
    r
}

/// The two-character text `ab`.
fn tok2(a: char, b: char) -> (r: Vec<char>)
    ensures
        r@ == seq![a, b],
{
    let mut r: Vec<char> = Vec::new();
    r.push(a);
    r.push(b);
    assert(r@ =~= seq![a, b]);
    r
}

/// A vector holding the characters of `s`.
fn chars_of_slice(s: &[char]) -> (r: Vec<char>)
    ensures
        r@ == s@,
{
    let mut r: Vec<char> = Vec::new();
    extend_chars(&mut r, s);
    assert(r@ =~= s@);
    r
}

/// A copy of a character vector.
fn chars_to_owned(s: &Vec<char>) -> (r: Vec<char>)
    ensures
        r@ == s@,
{
    chars_of_slice(s)
}

/// Appends the weights of `b` to `a`.
pub(crate) fn extend_weights(a: &mut Vec<WeightClass>, b: &Vec<WeightClass>)
    ensures
        final(a)@ == old(a)@ + b@,
{
    let mut i: usize = 0;
    while i < b.len()
        invariant
            i <= b@.len(),
            a@ == old(a)@ + b@.take(i as int),
        decreases b.len() - i,
    {
        a.push(b[i]);
        i += 1;
        assert(b@.take(i as int) == b@.take(i - 1).push(b@[i - 1]));
    }
    assert(b@.take(b@.len() as int) == b@);
}

fn all_alphabetic_exec(s: &[char]) -> (r: bool)
    ensures
        r == all_alphabetic(s@),
{
    let mut i: usize = 0;
    while i < s.len()
        invariant
            i <= s@.len(),
            forall|j: int| 0 <= j < i ==> char_is_alphabetic(s@[j]),
        decreases s.len() - i,
    {
        if !is_alphabetic_char(s[i]) {
            return false;
        }
        i += 1;
    }
    true
}

fn is_hash_run_exec(s: &[char], from: usize, to: usize) -> (r: bool)
    requires
        from <= to <= s@.len(),
    ensures
        r == is_hash_run(s@.subrange(from as int, to as int)),
{
    let mut i: usize = from;
    while i < to
        invariant
            from <= i <= to <= s@.len(),
            forall|j: int| from <= j < i ==> s@[j] == '#',
        decreases to - i,
    {
        if s[i] != '#' {
            assert(s@.subrange(from as int, to as int)[i - from] != '#');
            return false;
        }
        i += 1;
    }
    assert forall|j: int| 0 <= j < to - from implies #[trigger] s@.subrange(
        from as int,
        to as int,
    )[j] == '#' by {
        assert(s@.subrange(from as int, to as int)[j] == s@[from + j]);
    }
    true
}

fn open_quote_hashes_exec(s: &[char]) -> (r: Option<usize>)
    ensures
        match r {
            Some(n) => open_quote_hashes(s@) == Some(n as nat),
            None => open_quote_hashes(s@) is None,
        },
{
    if s.len() > 0 && s[0] == '"' {
        assert(s@.drop_first() == s@.subrange(1, s@.len() as int));
        if is_hash_run_exec(s, 1, s.len()) {
            return Some(s.len() - 1);
        }
    }
    None
}

fn close_quote_hashes_exec(s: &[char]) -> (r: Option<usize>)
    ensures
        match r {
            Some(n) => close_quote_hashes(s@) == Some(n as nat),
            None => close_quote_hashes(s@) is None,
        },
{
    if s.len() > 0 && s[s.len() - 1] == '"' {
        assert(s@.drop_last() == s@.subrange(0, s@.len() - 1));
        if is_hash_run_exec(s, 0, s.len() - 1) {
            return Some(s.len() - 1);
        }
    }
    None
}

fn extendable_exec(p: &[char]) -> (r: Vec<char>)
    ensures
        r@ == extendable(p@),
{
    let star = tok1('*');
    let slash = tok1('/');
    let hash = tok1('#');
    let mut r: Vec<char> = Vec::new();
    if chars_eq(p, &star) {
        r.push('/');
        r.push('*');
    } else if chars_eq(p, &slash) {
        r.push('/');
        r.push('/');
    } else if chars_eq(p, &hash) {
        r.push('"');
        r.push('#');
    } else {
        r.push('X');
    }
    assert(r@ =~= extendable(p@));
    r
}

fn section_class_exec(s: &[char]) -> (r: WeightClass)
    ensures
        r == section_class(s@),
{
    let a = tok2('*', '/');
    let b = tok2('/', '*');
    let c = tok2('/', '/');
    if s.len() == 0 {
        WeightClass::Code
    } else if chars_eq(s, &a) || chars_eq(s, &b) || chars_eq(s, &c) {
        WeightClass::Comment
    } else {
        WeightClass::StringLiteral
    }
}

fn holds_back_exec(section: &[char], part: &[char]) -> (r: bool)
    ensures
        r == holds_back(section@, part@),
{
    if section.len() == 0 {
        let a = tok2('/', '/');
        let b = tok2('/', '*');
        let c = tok2('#', '"');
        let d = tok1('\n');
        let e = tok2('*', '/');
        starts_with_chars(&a, part) || starts_with_chars(&b, part) || starts_with_chars(&c, part)
            || starts_with_chars(&d, part) || starts_with_chars(&e, part)
    } else {
        let q = tok1('"');
        let mut m = tok2('"', '*');
        m.push('#');
        m.push('/');
        assert(m@ =~= seq!['"', '*', '#', '/']);
        !chars_eq(section, &q) && contains_chars(&m, part)
    }
}

} // verus!
