//! Pre-parse repair of unified diffs.
//!
//! Two malformations are repaired before a diff is parsed:
//! 1. a context line inside a hunk that lacks its leading space (it starts
//!    with none of `'+'`, `'-'`, `' '`, `'\\'`) gets one;
//! 2. a hunk header `@@ -start,count +start,count @@` whose counts do not
//!    match the hunk body is rewritten with the counts of the body. The
//!    `start` values, the trailing section text and headers whose counts
//!    already match are kept as they are.
//!
//! Only lines between a hunk header and the next file or hunk header are
//! touched, and every line keeps the line ending it came with, so lines that
//! are already correct come back byte for byte.
use vstd::prelude::*;
use crate::numbers::{decimal, decimal_exec, parse_u64, parse_u64_exec};
use crate::text::{
    chars_eq, chars_of, copy_range, extend_chars, find, find_char, find_chars, join_lines,
    endings, endings_of, join_ended, join_ended_exec, lemma_find_char, lemma_find_char_at,
    lemma_find_char_none, lemma_split_well_ended, lines, lines_of, occurs_at, starts_with,
    starts_with_chars, string_from, views,
};

verus! {

// ---------------------------------------------------------------------------
// Specifications
// ---------------------------------------------------------------------------

/// A line that opens a hunk.
pub open spec fn is_hunk_header(l: Seq<char>) -> bool {
    starts_with(l, seq!['@', '@', ' ']) || l == seq!['@', '@']
}

/// A line that belongs to the file headers of a diff.
pub open spec fn is_file_header(l: Seq<char>) -> bool {
    ||| starts_with(l, seq!['-', '-', '-', ' '])
    ||| starts_with(l, seq!['+', '+', '+', ' '])
    ||| starts_with(l, seq!['d', 'i', 'f', 'f', ' ', '-', '-', 'g', 'i', 't', ' '])
    ||| starts_with(l, seq!['i', 'n', 'd', 'e', 'x', ' '])
}

/// A hunk body line that carries its marker.
pub open spec fn has_line_marker(l: Seq<char>) -> bool {
    l.len() > 0 && (l[0] == '+' || l[0] == '-' || l[0] == ' ' || l[0] == '\\')
}

/// `"@@ -1,3 +1,3 @@ section"` split into the ranges (`"-1,3 +1,3"`) and
/// the trailing text (`" section"`).
pub open spec fn split_hunk_header(l: Seq<char>) -> Option<(Seq<char>, Seq<char>)> {
    if starts_with(l, seq!['@', '@', ' ']) {
        let rest = l.skip(3);
        match find(rest, seq![' ', '@', '@']) {
            Some(i) => Some((rest.take(i), rest.skip(i + 3))),
            None => None,
        }
    } else {
        None
    }
}

/// A range such as `"-1,3"` or `"+1"` read as its start text and its count;
/// a missing count is 1.
pub open spec fn parse_hunk_range(part: Seq<char>) -> Option<(Seq<char>, u64)> {
    if part.len() > 0 && (part[0] == '-' || part[0] == '+') {
        let body = part.drop_first();
        match find_char(body, ',') {
            Some(i) => match parse_u64(body.skip(i + 1)) {
                Some(count) => Some((body.take(i), count)),
                None => None,
            },
            None => Some((body, 1)),
        }
    } else {
        None
    }
}

/// The hunk header `h` with counts that match a body of `ctx` context,
/// `rem` removed and `add` added lines; `h` itself when its counts already
/// match or when it cannot be read.
pub open spec fn finalized_header(h: Seq<char>, ctx: nat, rem: nat, add: nat) -> Seq<char> {
    match split_hunk_header(h) {
        None => h,
        Some((ranges, trailing)) => match find_char(ranges, ' ') {
            None => h,
            Some(sp) => {
                let left = ranges.take(sp);
                let right = ranges.skip(sp + 1);
                match (parse_hunk_range(left), parse_hunk_range(right)) {
                    (Some((start1, count1)), Some((start2, count2))) => {
                        if count1 == ctx + rem && count2 == ctx + add {
                            h
                        } else {
                            seq!['@', '@', ' ', '-'] + start1 + seq![','] + decimal(ctx + rem) + seq![
                                ' ',
                                '+',
                            ] + start2 + seq![','] + decimal(ctx + add) + seq![' ', '@', '@']
                                + trailing
                        }
                    },
                    _ => h,
                }
            },
        },
    }
}

/// The state of the repair after a number of lines.
pub struct RepairState {
    pub in_hunk: bool,
    /// The index in `out` of the header of the hunk being read.
    pub pending: Option<int>,
    pub ctx: nat,
    pub add: nat,
    pub rem: nat,
    pub out: Seq<Seq<char>>,
}

/// `out` with the pending hunk header, if any, brought up to date.
pub open spec fn close_hunk(st: RepairState) -> Seq<Seq<char>> {
    match st.pending {
        Some(idx) => st.out.update(idx, finalized_header(st.out[idx], st.ctx, st.rem, st.add)),
        None => st.out,
    }
}

/// The repair state after one more line.
pub open spec fn repair_step(st: RepairState, line: Seq<char>) -> RepairState {
    if is_hunk_header(line) {
        let out = close_hunk(st);
        RepairState {
            in_hunk: true,
            pending: Some(out.len() as int),
            ctx: 0,
            add: 0,
            rem: 0,
            out: out.push(line),
        }
    } else if is_file_header(line) {
        RepairState { in_hunk: false, pending: None, out: close_hunk(st).push(line), ..st }
    } else if st.in_hunk && !has_line_marker(line) {
        RepairState { ctx: st.ctx + 1, out: st.out.push(seq![' '] + line), ..st }
    } else if st.in_hunk && line.len() > 0 && line[0] == '+' {
        RepairState { add: st.add + 1, out: st.out.push(line), ..st }
    } else if st.in_hunk && line.len() > 0 && line[0] == '-' {
        RepairState { rem: st.rem + 1, out: st.out.push(line), ..st }
    } else if st.in_hunk && line.len() > 0 && line[0] == ' ' {
        RepairState { ctx: st.ctx + 1, out: st.out.push(line), ..st }
    } else {
        RepairState { out: st.out.push(line), ..st }
    }
}

/// The state before any line.
pub open spec fn repair_start() -> RepairState {
    RepairState { in_hunk: false, pending: None, ctx: 0, add: 0, rem: 0, out: seq![] }
}

/// The repair state after the lines `ls`.
pub open spec fn repair_lines(ls: Seq<Seq<char>>) -> RepairState
    decreases ls.len(),
{
    if ls.len() == 0 {
        repair_start()
    } else {
        repair_step(repair_lines(ls.drop_last()), ls.last())
    }
}

/// The repaired diff: its lines repaired, each followed by the line ending
/// it came with (`"\n"`, `"\r\n"`, or none for an unterminated last line).
pub open spec fn repaired(diff: Seq<char>) -> Seq<char> {
    join_ended(close_hunk(repair_lines(lines(diff))), endings(diff))
}

// ---------------------------------------------------------------------------
// Executable functions
// ---------------------------------------------------------------------------

/// The view of an executable repair state.
pub open spec fn state_of(
    in_hunk: bool,
    pending: Option<usize>,
    ctx: u64,
    add: u64,
    rem: u64,
    out: Seq<Vec<char>>,
) -> RepairState {
    RepairState {
        in_hunk,
        pending: match pending {
            Some(i) => Some(i as int),
            None => None,
        },
        ctx: ctx as nat,
        add: add as nat,
        rem: rem as nat,
        out: views(out),
    }
}

fn is_hunk_header_exec(l: &[char]) -> (r: bool)
    ensures
        r == is_hunk_header(l@),
{
    let p: [char; 3] = ['@', '@', ' '];
    let q: [char; 2] = ['@', '@'];
    starts_with_chars(l, &p) || chars_eq(l, &q)
}

fn is_file_header_exec(l: &[char]) -> (r: bool)
    ensures
        r == is_file_header(l@),
{
    let a: [char; 4] = ['-', '-', '-', ' '];
    let b: [char; 4] = ['+', '+', '+', ' '];
    let c: [char; 11] = ['d', 'i', 'f', 'f', ' ', '-', '-', 'g', 'i', 't', ' '];
    let d: [char; 6] = ['i', 'n', 'd', 'e', 'x', ' '];
    starts_with_chars(l, &a) || starts_with_chars(l, &b) || starts_with_chars(l, &c)
        || starts_with_chars(l, &d)
}

/// Splits a hunk header into its ranges and its trailing text.
pub fn split_hunk_header_exec(line: &[char]) -> (r: Option<(Vec<char>, Vec<char>)>)
    ensures
        match r {
            Some((a, b)) => split_hunk_header(line@) == Some((a@, b@)),
            None => split_hunk_header(line@) is None,
        },
{
    let p: [char; 3] = ['@', '@', ' '];
    if !starts_with_chars(line, &p) {
        return None;
    }
    let rest = copy_range(line, 3, line.len());
    assert(rest@ == line@.skip(3));
    let sep: [char; 3] = [' ', '@', '@'];
    match find_chars(&rest, &sep) {
        Some(idx) => {
            proof {
                let k = idx as int;
                assert(occurs_at(rest@, sep@, k));
            }
            let a = copy_range(&rest, 0, idx);
            let b = copy_range(&rest, idx + 3, rest.len());
            assert(a@ == rest@.take(idx as int));
            assert(b@ == rest@.skip(idx + 3));
            Some((a, b))
        },
        None => None,
    }
}

/// The index of the first `c` in `s`.
pub fn find_char_exec(s: &[char], c: char) -> (r: Option<usize>)
    ensures
        match r {
            Some(i) => find_char(s@, c) == Some(i as int),
            None => find_char(s@, c) is None,
        },
{
    let mut i: usize = 0;
    while i < s.len()
        invariant
            i <= s@.len(),
            forall|j: int| 0 <= j < i ==> s@[j] != c,
        decreases s.len() - i,
    {
        if s[i] == c {
            proof {
                lemma_find_char_at(s@, c, i as int);
            }
            return Some(i);
        }
        i += 1;
    }
    proof {
        lemma_find_char_none(s@, c);
    }
    None
}

/// Reads a range such as `"-1,3"` or `"+1"` as its start text and count.
pub fn parse_hunk_range_exec(part: &[char]) -> (r: Option<(Vec<char>, u64)>)
    ensures
        match r {
            Some((start, count)) => parse_hunk_range(part@) == Some((start@, count)),
            None => parse_hunk_range(part@) is None,
        },
{
    if part.len() == 0 || !(part[0] == '-' || part[0] == '+') {
        return None;
    }
    let body = copy_range(part, 1, part.len());
    assert(body@ == part@.drop_first());
    match find_char_exec(&body, ',') {
        Some(i) => {
            proof {
                lemma_find_char(body@, ',');
            }
            let count_text = copy_range(&body, i + 1, body.len());
            assert(count_text@ == body@.skip(i + 1));
            match parse_u64_exec(&count_text) {
                Some(count) => {
                    let start = copy_range(&body, 0, i);
                    assert(start@ == body@.take(i as int));
                    Some((start, count))
                },
                None => None,
            }
        },
        None => Some((body, 1)),
    }
}

/// Rewrites `out_lines[idx]`, a hunk header, so that its counts match a
/// body of `ctx` context, `rem` removed and `add` added lines. The start
/// values and the trailing text are kept; a header whose counts already
/// match is left as it is.
pub fn finalize_hunk_header(out_lines: &mut Vec<Vec<char>>, idx: usize, ctx: u64, rem: u64, add: u64)
    requires
        idx < old(out_lines)@.len(),
        ctx + rem <= u64::MAX,
        ctx + add <= u64::MAX,
    ensures
        views(final(out_lines)@) == views(old(out_lines)@).update(
            idx as int,
            finalized_header(old(out_lines)@[idx as int]@, ctx as nat, rem as nat, add as nat),
        ),
{
    let ghost h = out_lines@[idx as int]@;
    assert(views(out_lines@).update(idx as int, h) =~= views(out_lines@));
    let (ranges, trailing) = match split_hunk_header_exec(&out_lines[idx]) {
        Some(p) => p,
        None => return ,
    };
    let sp = match find_char_exec(&ranges, ' ') {
        Some(i) => i,
        None => return ,
    };
    proof {
        lemma_find_char(ranges@, ' ');
    }
    let left = copy_range(&ranges, 0, sp);
    let right = copy_range(&ranges, sp + 1, ranges.len());
    assert(left@ == ranges@.take(sp as int));
    assert(right@ == ranges@.skip(sp + 1));
    let (start1, count1) = match parse_hunk_range_exec(&left) {
        Some(p) => p,
        None => return ,
    };
    let (start2, count2) = match parse_hunk_range_exec(&right) {
        Some(p) => p,
        None => return ,
    };
    let want1 = ctx + rem;
    let want2 = ctx + add;
    if count1 == want1 && count2 == want2 {
        return ;
    }
    let mut header: Vec<char> = Vec::new();
    header.push('@');
    header.push('@');
    header.push(' ');
    header.push('-');
    extend_chars(&mut header, &start1);
    header.push(',');
    extend_chars(&mut header, &decimal_exec(want1));
    header.push(' ');
    header.push('+');
    extend_chars(&mut header, &start2);
    header.push(',');
    extend_chars(&mut header, &decimal_exec(want2));
    header.push(' ');
    header.push('@');
    header.push('@');
    extend_chars(&mut header, &trailing);
    assert(header@ =~= finalized_header(h, ctx as nat, rem as nat, add as nat));
    let ghost before = out_lines@;
    out_lines.set(idx, header);
    assert(views(out_lines@) =~= views(before).update(idx as int, header@));
}

/// Repairs the two common malformations of AI-written diffs described in
/// the module documentation: a context line missing its leading space, and
/// hunk header counts that do not match the hunk body.
pub fn repair_context_lines(diff: &str) -> (r: String)
    ensures
        r@ == repaired(diff@),
{
    let text = chars_of(diff);
    let diff_lines = lines_of(&text);
    let diff_endings = endings_of(&text);
    proof {
        lemma_split_well_ended(text@);
    }
    let mut out_lines: Vec<Vec<char>> = Vec::new();
    let mut in_hunk = false;
    let mut pending: Option<usize> = None;
    let mut ctx: u64 = 0;
    let mut add: u64 = 0;
    let mut rem: u64 = 0;
    let mut i: usize = 0;
    assert(views(diff_lines@).take(0) =~= Seq::<Seq<char>>::empty());
    assert(views(out_lines@) =~= Seq::<Seq<char>>::empty());
    while i < diff_lines.len()
        invariant
            i <= diff_lines@.len(),
            views(diff_lines@) == lines(text@),
            state_of(in_hunk, pending, ctx, add, rem, out_lines@) == repair_lines(
                views(diff_lines@).take(i as int),
            ),
            ctx + add + rem <= i,
            out_lines@.len() == i,
            pending matches Some(p) ==> p < out_lines@.len(),
        decreases diff_lines.len() - i,
    {
        let line = &diff_lines[i];
        let ghost st = state_of(in_hunk, pending, ctx, add, rem, out_lines@);
        proof {
            let ls = views(diff_lines@).take(i + 1);
            assert(ls.drop_last() == views(diff_lines@).take(i as int));
            assert(ls.last() == line@);
        }
        if is_hunk_header_exec(line) {
            if let Some(idx) = pending {
                finalize_hunk_header(&mut out_lines, idx, ctx, rem, add);
            }
            assert(views(out_lines@) == close_hunk(st));
            in_hunk = true;
            pending = Some(out_lines.len());
            ctx = 0;
            add = 0;
            rem = 0;
            let ghost before = out_lines@;
            out_lines.push(line.clone());
            assert(views(out_lines@) =~= views(before).push(line@));
        } else if is_file_header_exec(line) {
            if let Some(idx) = pending {
                finalize_hunk_header(&mut out_lines, idx, ctx, rem, add);
            }
            assert(views(out_lines@) == close_hunk(st));
            pending = None;
            in_hunk = false;
            let ghost before = out_lines@;
            out_lines.push(line.clone());
            assert(views(out_lines@) =~= views(before).push(line@));
        } else if in_hunk && !(line.len() > 0 && (line[0] == '+' || line[0] == '-' || line[0] == ' '
            || line[0] == '\\')) {
            ctx = ctx + 1;
            let mut fixed: Vec<char> = Vec::new();
            fixed.push(' ');
            extend_chars(&mut fixed, line);
            let ghost before = out_lines@;
            out_lines.push(fixed);
            assert(views(out_lines@) =~= views(before).push(seq![' '] + line@));
        } else {
            if in_hunk && line.len() > 0 {
                if line[0] == '+' {
                    add = add + 1;
                } else if line[0] == '-' {
                    rem = rem + 1;
                } else if line[0] == ' ' {
                    ctx = ctx + 1;
                }
            }
            let ghost before = out_lines@;
            out_lines.push(line.clone());
            assert(views(out_lines@) =~= views(before).push(line@));
        }
        i += 1;
    }
    assert(views(diff_lines@).take(diff_lines@.len() as int) == views(diff_lines@));
    let ghost st = state_of(in_hunk, pending, ctx, add, rem, out_lines@);
    if let Some(idx) = pending {
        finalize_hunk_header(&mut out_lines, idx, ctx, rem, add);
    }
    assert(views(out_lines@) == close_hunk(st));
    let out = join_ended_exec(&out_lines, &diff_endings);
    string_from(&out)
}

} // verus!
