//! Repairing a diff twice gives what repairing it once gives: the output
//! of the repair is a diff the repair leaves unchanged.
use vstd::prelude::*;
use crate::numbers::{all_digits, decimal, is_digit, lemma_decimal_roundtrip, parse_u64};
use crate::repair::{
    close_hunk, finalized_header, has_line_marker, is_file_header, is_hunk_header, parse_hunk_range,
    repair_lines, repair_start, repair_step, repaired, split_hunk_header, RepairState,
};
use crate::text::{
    contains, ending_fits, ends_cr, endings, find, find_char, join_ended, lemma_find_char,
    lemma_find_char_at, lemma_find_first, lemma_join_ended_split, lemma_split_front,
    lemma_split_well_ended, lines, no_newline, occurs_at, starts_with, well_ended,
};

verus! {

/// An occurrence of `p` at `k` has a first occurrence at or before it.
proof fn lemma_first_occurrence(s: Seq<char>, p: Seq<char>, k: int)
    requires
        occurs_at(s, p, k),
    ensures
        exists|i: int| occurs_at(s, p, i) && forall|j: int| 0 <= j < i ==> !occurs_at(s, p, j),
    decreases k,
{
    if exists|j: int| 0 <= j < k && occurs_at(s, p, j) {
        let j = choose|j: int| 0 <= j < k && occurs_at(s, p, j);
        lemma_first_occurrence(s, p, j);
    } else {
        assert(occurs_at(s, p, k) && forall|j: int| 0 <= j < k ==> !occurs_at(s, p, j));
    }
}

/// `find` reports an occurrence, and no earlier one.
proof fn lemma_find_some(s: Seq<char>, p: Seq<char>)
    requires
        find(s, p) is Some,
    ensures
        occurs_at(s, p, find(s, p).unwrap()),
        forall|j: int| 0 <= j < find(s, p).unwrap() ==> !occurs_at(s, p, j),
{
    reveal(find);
    assert(contains(s, p));
    let k = choose|k: int| occurs_at(s, p, k);
    lemma_first_occurrence(s, p, k);
}

/// The range text `"-1,3"` or `"+1"` read back: the start text holds no
/// `','`.
proof fn lemma_range_start(part: Seq<char>)
    requires
        parse_hunk_range(part) is Some,
    ensures
        ({
            let (start, count) = parse_hunk_range(part).unwrap();
            &&& part.len() > 0
            &&& forall|t: int| 0 <= t < start.len() ==> start[t] != ',' && #[trigger] start[t] == part[t + 1]
            &&& start.len() + 1 <= part.len()
        }),
{
    let body = part.drop_first();
    lemma_find_char(body, ',');
}

/// A hunk header rewritten with start texts `start1`, `start2`, count
/// texts `d1`, `d2` and the trailing text `trailing`.
spec fn rewritten(start1: Seq<char>, d1: Seq<char>, start2: Seq<char>, d2: Seq<char>, trailing: Seq<char>) -> Seq<char> {
    seq!['@', '@', ' ', '-'] + start1 + seq![','] + d1 + seq![' ', '+'] + start2 + seq![','] + d2 + seq![' ', '@', '@']
        + trailing
}

/// The ranges part of a rewritten header.
spec fn rewritten_ranges(start1: Seq<char>, d1: Seq<char>, start2: Seq<char>, d2: Seq<char>) -> Seq<char> {
    seq!['-'] + start1 + seq![','] + d1 + seq![' ', '+'] + start2 + seq![','] + d2
}

/// A first start text: no space and no comma.
spec fn first_start_ok(start1: Seq<char>) -> bool {
    forall|t: int| 0 <= t < start1.len() ==> #[trigger] start1[t] != ' ' && start1[t] != ','
}

/// A second start text: no comma and no `" @@"`.
spec fn second_start_ok(start2: Seq<char>) -> bool {
    &&& forall|t: int| 0 <= t < start2.len() ==> #[trigger] start2[t] != ','
    &&& forall|t: int|
        0 <= t && t + 2 < start2.len() ==> !(#[trigger] start2[t] == ' ' && start2[t + 1] == '@' && start2[t
            + 2] == '@')
}

proof fn lemma_split_rewritten(start1: Seq<char>, d1: Seq<char>, start2: Seq<char>, d2: Seq<char>, trailing: Seq<char>)
    requires
        first_start_ok(start1),
        second_start_ok(start2),
        all_digits(d1),
        all_digits(d2),
    ensures
        split_hunk_header(rewritten(start1, d1, start2, d2, trailing)) == Some(
            (rewritten_ranges(start1, d1, start2, d2), trailing),
        ),
{
    let pat = seq![' ', '@', '@'];
    let f = rewritten(start1, d1, start2, d2, trailing);
    let r2 = rewritten_ranges(start1, d1, start2, d2);
    let l1 = start1.len() as int;
    let n1 = d1.len() as int;
    let l2 = start2.len() as int;
    let m = r2.len() as int;
    assert(f =~= seq!['@', '@', ' '] + r2 + pat + trailing);
    let rest2 = f.skip(3);
    assert(rest2 =~= r2 + pat + trailing);
    assert(f.subrange(0, 3) =~= seq!['@', '@', ' ']);
    assert(starts_with(f, seq!['@', '@', ' ']));
    assert(rest2.subrange(m, m + 3) =~= pat);
    assert forall|j: int| 0 <= j < m implies !occurs_at(rest2, pat, j) by {
        if occurs_at(rest2, pat, j) {
            assert(rest2[j] == rest2.subrange(j, j + 3)[0]);
            assert(rest2[j + 1] == rest2.subrange(j, j + 3)[1]);
            assert(rest2[j + 2] == rest2.subrange(j, j + 3)[2]);
            if j == 0 {
            } else if j < 1 + l1 {
                assert(rest2[j] == start1[j - 1]);
            } else if j == 1 + l1 {
            } else if j < 2 + l1 + n1 {
                assert(rest2[j] == d1[j - 2 - l1]);
                assert(is_digit(d1[j - 2 - l1]));
            } else if j == 2 + l1 + n1 {
                assert(rest2[j + 1] == '+');
            } else if j == 3 + l1 + n1 {
            } else if j < 4 + l1 + n1 + l2 {
                let t = j - 4 - l1 - n1;
                assert(rest2[j] == start2[t]);
                if t + 2 < l2 {
                    assert(rest2[j + 1] == start2[t + 1]);
                    assert(rest2[j + 2] == start2[t + 2]);
                } else if t + 1 < l2 {
                    assert(rest2[j + 2] == ',');
                } else {
                    assert(rest2[j + 1] == ',');
                }
            } else if j == 4 + l1 + n1 + l2 {
            } else {
                assert(rest2[j] == d2[j - 5 - l1 - n1 - l2]);
                assert(is_digit(d2[j - 5 - l1 - n1 - l2]));
            }
        }
    }
    lemma_find_first(rest2, pat, m);
    assert(rest2.take(m) =~= r2);
    assert(rest2.skip(m + 3) =~= trailing);
}

proof fn lemma_rewritten_fixed(start1: Seq<char>, start2: Seq<char>, trailing: Seq<char>, ctx: nat, rem: nat, add: nat)
    requires
        first_start_ok(start1),
        second_start_ok(start2),
    ensures
        ({
            let f = rewritten(start1, decimal(ctx + rem), start2, decimal(ctx + add), trailing);
            finalized_header(f, ctx, rem, add) == f
        }),
{
    let d1 = decimal(ctx + rem);
    let d2 = decimal(ctx + add);
    lemma_decimal_roundtrip(ctx + rem);
    lemma_decimal_roundtrip(ctx + add);
    lemma_split_rewritten(start1, d1, start2, d2, trailing);
    let r2 = rewritten_ranges(start1, d1, start2, d2);
    let l1 = start1.len() as int;
    let n1 = d1.len() as int;
    let l2 = start2.len() as int;
    let q = 2 + l1 + n1;
    assert forall|j: int| 0 <= j < q implies r2[j] != ' ' by {
        if 0 < j < 1 + l1 {
            assert(r2[j] == start1[j - 1]);
        } else if 1 + l1 < j {
            assert(r2[j] == d1[j - 2 - l1]);
            assert(is_digit(d1[j - 2 - l1]));
        }
    }
    assert(r2[q] == ' ');
    lemma_find_char_at(r2, ' ', q);
    let body1 = start1 + seq![','] + d1;
    let body2 = start2 + seq![','] + d2;
    assert(r2.take(q) =~= seq!['-'] + body1);
    assert(r2.skip(q + 1) =~= seq!['+'] + body2);
    assert((seq!['-'] + body1).drop_first() =~= body1);
    assert((seq!['+'] + body2).drop_first() =~= body2);
    assert forall|j: int| 0 <= j < l1 implies body1[j] != ',' by {
        assert(body1[j] == start1[j]);
    }
    assert forall|j: int| 0 <= j < l2 implies body2[j] != ',' by {
        assert(body2[j] == start2[j]);
    }
    lemma_find_char_at(body1, ',', l1);
    lemma_find_char_at(body2, ',', l2);
    assert(body1.skip(l1 + 1) =~= d1);
    assert(body2.skip(l2 + 1) =~= d2);
}

proof fn lemma_rewritten_chars(start1: Seq<char>, d1: Seq<char>, start2: Seq<char>, d2: Seq<char>, trailing: Seq<char>)
    requires
        no_newline(start1),
        no_newline(start2),
        no_newline(trailing),
        all_digits(d1),
        all_digits(d2),
    ensures
        no_newline(rewritten(start1, d1, start2, d2, trailing)),
{
    let f = rewritten(start1, d1, start2, d2, trailing);
    let l1 = start1.len() as int;
    let n1 = d1.len() as int;
    let l2 = start2.len() as int;
    let n2 = d2.len() as int;
    assert forall|j: int| 0 <= j < f.len() implies #[trigger] f[j] != '\n' by {
        if 4 <= j < 4 + l1 {
            assert(f[j] == start1[j - 4]);
        } else if 5 + l1 <= j < 5 + l1 + n1 {
            assert(f[j] == d1[j - 5 - l1]);
            assert(is_digit(d1[j - 5 - l1]));
        } else if 7 + l1 + n1 <= j < 7 + l1 + n1 + l2 {
            assert(f[j] == start2[j - 7 - l1 - n1]);
        } else if 8 + l1 + n1 + l2 <= j < 8 + l1 + n1 + l2 + n2 {
            assert(f[j] == d2[j - 8 - l1 - n1 - l2]);
            assert(is_digit(d2[j - 8 - l1 - n1 - l2]));
        } else if 11 + l1 + n1 + l2 + n2 <= j {
            assert(f[j] == trailing[j - 11 - l1 - n1 - l2 - n2]);
        }
    }
}

proof fn lemma_rewritten_last(start1: Seq<char>, d1: Seq<char>, start2: Seq<char>, d2: Seq<char>, trailing: Seq<char>)
    ensures
        rewritten(start1, d1, start2, d2, trailing).len() > 0,
        rewritten(start1, d1, start2, d2, trailing).last() == if trailing.len() > 0 {
            trailing.last()
        } else {
            '@'
        },
{
}

/// A rewritten hunk header is left as it is by a second rewrite with the
/// same counts; it is still a hunk header, holds no line break when the
/// header held none, and ends as the header ended.
#[verifier::rlimit(40)]
proof fn lemma_finalized_header_fixed(h: Seq<char>, ctx: nat, rem: nat, add: nat)
    ensures
        finalized_header(finalized_header(h, ctx, rem, add), ctx, rem, add) == finalized_header(h, ctx, rem, add),
        is_hunk_header(h) ==> is_hunk_header(finalized_header(h, ctx, rem, add)),
        no_newline(h) ==> no_newline(finalized_header(h, ctx, rem, add)),
        ends_cr(finalized_header(h, ctx, rem, add)) == ends_cr(h),
        h.len() > 0 ==> finalized_header(h, ctx, rem, add).len() > 0,
{
    let f = finalized_header(h, ctx, rem, add);
    if f != h {
        let pat = seq![' ', '@', '@'];
        let (ranges, trailing) = split_hunk_header(h).unwrap();
        let rest = h.skip(3);
        let i = find(rest, pat).unwrap();
        lemma_find_some(rest, pat);
        lemma_find_char(ranges, ' ');
        let sp = find_char(ranges, ' ').unwrap();
        let left = ranges.take(sp);
        let right = ranges.skip(sp + 1);
        let (start1, count1) = parse_hunk_range(left).unwrap();
        let (start2, count2) = parse_hunk_range(right).unwrap();
        lemma_range_start(left);
        lemma_range_start(right);
        assert(ranges == rest.take(i));
        assert forall|t: int| 0 <= t < start1.len() implies #[trigger] start1[t] != ' ' && start1[t] != ',' by {
            assert(start1[t] == left[t + 1]);
            assert(left[t + 1] == ranges[t + 1]);
        }
        assert forall|t: int| 0 <= t < start2.len() implies #[trigger] start2[t] == rest[sp + 2 + t] by {
            assert(start2[t] == right[t + 1]);
            assert(right[t + 1] == ranges[sp + 2 + t]);
        }
        assert forall|t: int|
            0 <= t && t + 2 < start2.len() implies !(#[trigger] start2[t] == ' ' && start2[t + 1] == '@' && start2[t + 2] == '@') by {
            if start2[t] == ' ' && start2[t + 1] == '@' && start2[t + 2] == '@' {
                assert(rest.subrange(sp + 2 + t, sp + 2 + t + 3) =~= pat);
                assert(occurs_at(rest, pat, sp + 2 + t));
            }
        }
        let d1 = decimal(ctx + rem);
        let d2 = decimal(ctx + add);
        assert(f == rewritten(start1, d1, start2, d2, trailing));
        lemma_rewritten_fixed(start1, start2, trailing, ctx, rem, add);
        lemma_decimal_roundtrip(ctx + rem);
        lemma_decimal_roundtrip(ctx + add);
        assert(f.subrange(0, 3) =~= seq!['@', '@', ' ']);
        assert(trailing == rest.skip(i + 3));
        assert(h =~= h.take(3) + rest);
        let l1 = start1.len() as int;
        let n1 = d1.len() as int;
        let l2 = start2.len() as int;
        let n2 = d2.len() as int;
        if no_newline(h) {
            assert forall|t: int| 0 <= t < l1 implies #[trigger] start1[t] != '\n' by {
                assert(start1[t] == left[t + 1]);
                assert(left[t + 1] == ranges[t + 1]);
                assert(rest[t + 1] == h[t + 4]);
            }
            assert forall|t: int| 0 <= t < l2 implies #[trigger] start2[t] != '\n' by {
                assert(rest[sp + 2 + t] == h[sp + 5 + t]);
            }
            assert forall|t: int| 0 <= t < trailing.len() implies #[trigger] trailing[t] != '\n' by {
                assert(trailing[t] == rest[i + 3 + t]);
                assert(rest[i + 3 + t] == h[i + 6 + t]);
            }
            lemma_rewritten_chars(start1, d1, start2, d2, trailing);
        }
        lemma_rewritten_last(start1, d1, start2, d2, trailing);
        if trailing.len() > 0 {
            assert(f.last() == trailing.last());
            assert(trailing.last() == h.last());
        } else {
            assert(f.last() == '@');
            assert(rest.subrange(i, i + 3) == pat);
            assert(rest.len() == i + 3);
            assert(h.last() == rest[i + 2]);
        }
    }
}

/// A repaired line keeps what the lines of the text depend on: no line
/// break, the final carriage return, being non-empty, being a hunk header.
spec fn line_like(x: Seq<char>, y: Seq<char>) -> bool {
    &&& no_newline(x) ==> no_newline(y)
    &&& ends_cr(y) == ends_cr(x)
    &&& x.len() > 0 ==> y.len() > 0
    &&& is_hunk_header(x) ==> is_hunk_header(y)
}

/// The shape of the repair state after the lines `ls`: one output line per
/// input line, each like its input line; the pending header is a hunk
/// header not yet rewritten.
proof fn lemma_repair_shape(ls: Seq<Seq<char>>)
    ensures
        ({
            let st = repair_lines(ls);
            &&& st.out.len() == ls.len()
            &&& st.in_hunk <==> st.pending is Some
            &&& st.pending matches Some(idx) ==> 0 <= idx < ls.len() && st.out[idx] == ls[idx]
                && is_hunk_header(ls[idx])
            &&& forall|j: int| 0 <= j < ls.len() ==> line_like(ls[j], #[trigger] st.out[j])
            &&& forall|j: int| 0 <= j < ls.len() ==> line_like(ls[j], #[trigger] close_hunk(st)[j])
        }),
    decreases ls.len(),
{
    let st = repair_lines(ls);
    if ls.len() > 0 {
        let prev = ls.drop_last();
        let x = ls.last();
        lemma_repair_shape(prev);
        let s0 = repair_lines(prev);
        assert(st == repair_step(s0, x));
        let c0 = close_hunk(s0);
        if let Some(idx) = s0.pending {
            lemma_finalized_header_fixed(s0.out[idx], s0.ctx, s0.rem, s0.add);
        }
        assert forall|j: int| 0 <= j < prev.len() implies line_like(ls[j], #[trigger] c0[j]) by {
            assert(ls[j] == prev[j]);
        }
        assert forall|j: int| 0 <= j < prev.len() implies line_like(ls[j], #[trigger] s0.out[j]) by {
            assert(ls[j] == prev[j]);
        }
        if let Some(idx) = st.pending {
            lemma_finalized_header_fixed(st.out[idx], st.ctx, st.rem, st.add);
            if idx < prev.len() {
                assert(ls[idx] == prev[idx]);
            }
        }
        assert(line_like(x, st.out[prev.len() as int]));
        assert forall|j: int| 0 <= j < ls.len() implies line_like(ls[j], #[trigger] st.out[j]) by {
            if j < prev.len() {
                assert(ls[j] == prev[j]);
            }
        }
    }
}

/// The repair state after the first `k` lines.
spec fn state_at(ls: Seq<Seq<char>>, k: int) -> RepairState {
    repair_lines(ls.take(k))
}

proof fn lemma_state_next(ls: Seq<Seq<char>>, k: int)
    requires
        0 <= k < ls.len(),
    ensures
        state_at(ls, k + 1) == repair_step(state_at(ls, k), ls[k]),
{
    assert(ls.take(k + 1).drop_last() =~= ls.take(k));
    assert(ls.take(k + 1).last() == ls[k]);
}

/// Output lines before `k` that are not pending after `k` lines stay as
/// they are to the end.
proof fn lemma_repair_stable(ls: Seq<Seq<char>>, k: int, j: int)
    requires
        0 <= j < k <= ls.len(),
        state_at(ls, k).pending != Some(j),
    ensures
        repair_lines(ls).pending != Some(j),
        repair_lines(ls).out[j] == state_at(ls, k).out[j],
        close_hunk(repair_lines(ls))[j] == state_at(ls, k).out[j],
    decreases ls.len() - k,
{
    lemma_repair_shape(ls.take(k));
    if k == ls.len() {
        assert(ls.take(k) =~= ls);
    } else {
        lemma_state_next(ls, k);
        lemma_repair_shape(ls.take(k + 1));
        lemma_repair_stable(ls, k + 1, j);
    }
}

/// Repairing the output of the repair walks through the same states, the
/// output lines being kept as they are.
proof fn lemma_second_pass(ls: Seq<Seq<char>>, k: int)
    requires
        0 <= k <= ls.len(),
    ensures
        ({
            let o = close_hunk(repair_lines(ls));
            let a = state_at(ls, k);
            let b = state_at(o, k);
            &&& b.in_hunk == a.in_hunk
            &&& b.pending == a.pending
            &&& b.ctx == a.ctx
            &&& b.add == a.add
            &&& b.rem == a.rem
            &&& b.out == o.take(k)
        }),
    decreases k,
{
    let o = close_hunk(repair_lines(ls));
    lemma_repair_shape(ls);
    if k == 0 {
        assert(ls.take(0) =~= Seq::<Seq<char>>::empty());
        assert(o.take(0) =~= Seq::<Seq<char>>::empty());
    } else {
        let i = k - 1;
        lemma_second_pass(ls, i);
        lemma_state_next(ls, i);
        lemma_state_next(o, i);
        lemma_repair_shape(ls.take(i));
        let a0 = state_at(ls, i);
        let b0 = state_at(o, i);
        let a1 = state_at(ls, k);
        let b1 = state_at(o, k);
        let x = ls[i];
        let y = o[i];
        assert(o.take(i).push(y) =~= o.take(k));
        if let Some(idx) = a0.pending {
            assert(ls.take(i)[idx] == ls[idx]);
        }
        if is_hunk_header(x) || is_file_header(x) {
            if let Some(idx) = a0.pending {
                lemma_repair_stable(ls, k, idx);
                lemma_finalized_header_fixed(ls[idx], a0.ctx, a0.rem, a0.add);
                assert(close_hunk(b0) =~= o.take(i));
            } else {
                assert(close_hunk(b0) == o.take(i));
            }
        }
        if is_hunk_header(x) {
            assert(line_like(ls[i], o[i]));
            assert(is_hunk_header(y));
        } else {
            lemma_repair_shape(ls.take(k));
            lemma_repair_stable(ls, k, i);
            if !is_file_header(x) && a0.in_hunk && !has_line_marker(x) {
                assert(y == seq![' '] + x);
                assert(y[0] == ' ');
                assert(!is_hunk_header(y));
                assert(!is_file_header(y));
            } else {
                assert(y == x);
            }
        }
    }
}

/// Repairing the output lines of the repair changes nothing.
proof fn lemma_repair_lines_fixed(ls: Seq<Seq<char>>)
    ensures
        close_hunk(repair_lines(close_hunk(repair_lines(ls)))) == close_hunk(repair_lines(ls)),
{
    let o = close_hunk(repair_lines(ls));
    let n = ls.len() as int;
    lemma_repair_shape(ls);
    lemma_second_pass(ls, n);
    assert(ls.take(n) =~= ls);
    assert(o.take(n) =~= o);
    let a = repair_lines(ls);
    if let Some(idx) = a.pending {
        lemma_finalized_header_fixed(ls[idx], a.ctx, a.rem, a.add);
        assert(close_hunk(repair_lines(o)) =~= o);
    }
}

/// Repairing a repaired diff changes nothing, for every diff: the output
/// of the repair is a diff whose context lines all carry their marker and
/// whose hunk headers all count their bodies, and every line keeps the
/// line ending it came with.
pub proof fn lemma_repair_idempotent(diff: Seq<char>)
    ensures
        repaired(repaired(diff)) == repaired(diff),
{
    let ls = lines(diff);
    let es = endings(diff);
    let o = close_hunk(repair_lines(ls));
    lemma_repair_shape(ls);
    lemma_split_well_ended(diff);
    lemma_repair_lines_fixed(ls);
    assert forall|k: int| 0 <= k < o.len() implies no_newline(#[trigger] o[k]) && ending_fits(
        o[k],
        es[k],
        k == o.len() - 1,
    ) by {
        assert(line_like(ls[k], o[k]));
        assert(no_newline(ls[k]) && ending_fits(ls[k], es[k], k == ls.len() - 1));
    }
    assert(well_ended(o, es));
    lemma_join_ended_split(o, es);
}

/// The repair state after the lines `ls`, starting from `st`.
spec fn repair_from(st: RepairState, ls: Seq<Seq<char>>) -> RepairState
    decreases ls.len(),
{
    if ls.len() == 0 {
        st
    } else {
        repair_step(repair_from(st, ls.drop_last()), ls.last())
    }
}

proof fn lemma_repair_from_start(ls: Seq<Seq<char>>)
    ensures
        repair_lines(ls) == repair_from(repair_start(), ls),
    decreases ls.len(),
{
    if ls.len() > 0 {
        lemma_repair_from_start(ls.drop_last());
    }
}

proof fn lemma_repair_from_concat(st: RepairState, la: Seq<Seq<char>>, lb: Seq<Seq<char>>)
    ensures
        repair_from(st, la + lb) == repair_from(repair_from(st, la), lb),
    decreases lb.len(),
{
    if lb.len() == 0 {
        assert(la + lb =~= la);
    } else {
        lemma_repair_from_concat(st, la, lb.drop_last());
        assert((la + lb).drop_last() =~= la + lb.drop_last());
        assert((la + lb).last() == lb.last());
    }
}

/// The state `s` with the output lines `p` put before its own.
spec fn shifted(s: RepairState, p: Seq<Seq<char>>) -> RepairState {
    RepairState {
        out: p + s.out,
        pending: match s.pending {
            Some(i) => Some(i + p.len()),
            None => None,
        },
        ..s
    }
}

proof fn lemma_close_shifted(s: RepairState, p: Seq<Seq<char>>)
    requires
        s.pending matches Some(i) ==> 0 <= i < s.out.len(),
    ensures
        close_hunk(shifted(s, p)) == p + close_hunk(s),
{
    if let Some(i) = s.pending {
        assert((p + s.out)[i + p.len()] == s.out[i]);
        assert((p + s.out).update(i + p.len(), finalized_header(s.out[i], s.ctx, s.rem, s.add)) =~= p
            + s.out.update(i, finalized_header(s.out[i], s.ctx, s.rem, s.add)));
    }
}

proof fn lemma_step_shifted(s: RepairState, p: Seq<Seq<char>>, line: Seq<char>)
    requires
        s.pending matches Some(i) ==> 0 <= i < s.out.len(),
    ensures
        repair_step(shifted(s, p), line) == shifted(repair_step(s, line), p),
{
    lemma_close_shifted(s, p);
    let r = repair_step(s, line);
    let l = repair_step(shifted(s, p), line);
    if is_hunk_header(line) || is_file_header(line) {
        assert(l.out =~= shifted(r, p).out);
    } else {
        assert((p + s.out).push(
            if s.in_hunk && !has_line_marker(line) {
                seq![' '] + line
            } else {
                line
            },
        ) =~= p + s.out.push(
            if s.in_hunk && !has_line_marker(line) {
                seq![' '] + line
            } else {
                line
            },
        ));
    }
}

/// Lines that start with a hunk header are repaired the same after any
/// state: what came before is closed and kept in front.
proof fn lemma_from_hunk(st: RepairState, lb: Seq<Seq<char>>)
    requires
        lb.len() > 0,
        is_hunk_header(lb[0]),
    ensures
        repair_from(st, lb) == shifted(repair_lines(lb), close_hunk(st)),
    decreases lb.len(),
{
    let p = close_hunk(st);
    if lb.len() == 1 {
        assert(lb.drop_last() =~= Seq::<Seq<char>>::empty());
        assert(lb.last() == lb[0]);
        assert(repair_lines(lb.drop_last()) == repair_start());
        assert(close_hunk(repair_start()) == Seq::<Seq<char>>::empty());
        assert(p.push(lb[0]) =~= p + seq![lb[0]]);
        assert(Seq::<Seq<char>>::empty().push(lb[0]) =~= seq![lb[0]]);
    } else {
        let d = lb.drop_last();
        assert(d[0] == lb[0]);
        lemma_from_hunk(st, d);
        lemma_repair_shape(d);
        lemma_step_shifted(repair_lines(d), p, lb.last());
    }
}

/// The lines and endings of two texts put together, the first ending with
/// a line break, are those of the first followed by those of the second.
proof fn lemma_split_concat(a: Seq<char>, b: Seq<char>)
    requires
        a.len() == 0 || a.last() == '\n',
    ensures
        lines(a + b) == lines(a) + lines(b),
        endings(a + b) == endings(a) + endings(b),
    decreases a.len(),
{
    if a.len() == 0 {
        assert(a + b =~= b);
        assert(lines(a) == Seq::<Seq<char>>::empty());
        assert(endings(a) == Seq::<Seq<char>>::empty());
        assert(lines(a) + lines(b) =~= lines(b));
        assert(endings(a) + endings(b) =~= endings(b));
    } else {
        lemma_find_char(a, '\n');
        let i = find_char(a, '\n').unwrap();
        let raw = a.subrange(0, i);
        let rest = a.subrange(i + 1, a.len() as int);
        assert forall|t: int| 0 <= t < raw.len() implies #[trigger] raw[t] != '\n' by {}
        assert(a =~= raw + seq!['\n'] + rest);
        assert(a + b =~= raw + seq!['\n'] + (rest + b));
        lemma_split_front(raw, rest);
        lemma_split_front(raw, rest + b);
        if rest.len() > 0 {
            assert(rest.last() == a.last());
        }
        lemma_split_concat(rest, b);
        assert(seq![crate::text::strip_cr(raw)] + (lines(rest) + lines(b)) =~= (seq![crate::text::strip_cr(
            raw,
        )] + lines(rest)) + lines(b));
        assert(seq![crate::text::ending_of(raw)] + (endings(rest) + endings(b)) =~= (seq![
            crate::text::ending_of(raw),
        ] + endings(rest)) + endings(b));
    }
}

proof fn lemma_join_ended_concat(l1: Seq<Seq<char>>, e1: Seq<Seq<char>>, l2: Seq<Seq<char>>, e2: Seq<Seq<char>>)
    requires
        l1.len() == e1.len(),
        l2.len() == e2.len(),
    ensures
        join_ended(l1 + l2, e1 + e2) == join_ended(l1, e1) + join_ended(l2, e2),
    decreases l1.len(),
{
    if l1.len() == 0 {
        assert(l1 + l2 =~= l2);
        assert(e1 + e2 =~= e2);
        assert(join_ended(l1, e1) == Seq::<char>::empty());
        assert(Seq::<char>::empty() + join_ended(l2, e2) =~= join_ended(l2, e2));
    } else {
        lemma_join_ended_concat(l1.drop_first(), e1.drop_first(), l2, e2);
        assert((l1 + l2).drop_first() =~= l1.drop_first() + l2);
        assert((e1 + e2).drop_first() =~= e1.drop_first() + e2);
        assert((l1 + l2)[0] == l1[0]);
        assert((e1 + e2)[0] == e1[0]);
        assert(l1[0] + e1[0] + (join_ended(l1.drop_first(), e1.drop_first()) + join_ended(l2, e2)) =~= (l1[0]
            + e1[0] + join_ended(l1.drop_first(), e1.drop_first())) + join_ended(l2, e2));
    }
}

/// Each hunk is repaired on its own: repairing a diff made of a first part
/// (ending with a line break) and a second part that starts with a hunk
/// header gives the repair of the first part followed by the repair of the
/// second. So a hunk header is counted from its own body only, however
/// many hunks come before it.
pub proof fn lemma_repair_concat(a: Seq<char>, b: Seq<char>)
    requires
        a.len() == 0 || a.last() == '\n',
        lines(b).len() > 0,
        is_hunk_header(lines(b)[0]),
    ensures
        repaired(a + b) == repaired(a) + repaired(b),
{
    let la = lines(a);
    let lb = lines(b);
    lemma_split_concat(a, b);
    lemma_repair_from_start(la + lb);
    lemma_repair_from_concat(repair_start(), la, lb);
    lemma_repair_from_start(la);
    lemma_from_hunk(repair_lines(la), lb);
    lemma_repair_shape(lb);
    lemma_repair_shape(la);
    lemma_close_shifted(repair_lines(lb), close_hunk(repair_lines(la)));
    lemma_split_well_ended(a);
    lemma_split_well_ended(b);
    lemma_join_ended_concat(close_hunk(repair_lines(la)), endings(a), close_hunk(repair_lines(lb)), endings(b));
}

/// A diff without hunk headers is left as it is, byte for byte.
pub proof fn lemma_repair_without_hunks(d: Seq<char>)
    requires
        forall|k: int| 0 <= k < lines(d).len() ==> !is_hunk_header(#[trigger] lines(d)[k]),
    ensures
        repaired(d) == d,
{
    let ls = lines(d);
    lemma_no_hunk_states(ls, ls.len() as int);
    assert(ls.take(ls.len() as int) =~= ls);
    lemma_split_well_ended(d);
}

proof fn lemma_no_hunk_states(ls: Seq<Seq<char>>, k: int)
    requires
        0 <= k <= ls.len(),
        forall|j: int| 0 <= j < ls.len() ==> !is_hunk_header(#[trigger] ls[j]),
    ensures
        state_at(ls, k) == (RepairState { in_hunk: false, pending: None, ctx: 0, add: 0, rem: 0, out: ls.take(k) }),
    decreases k,
{
    if k == 0 {
        assert(ls.take(0) =~= Seq::<Seq<char>>::empty());
    } else {
        lemma_no_hunk_states(ls, k - 1);
        lemma_state_next(ls, k - 1);
        assert(ls.take(k - 1).push(ls[k - 1]) =~= ls.take(k));
    }
}

/// The number of lines of `ls` that start with `c`.
pub open spec fn marked_lines(ls: Seq<Seq<char>>, c: char) -> nat
    decreases ls.len(),
{
    if ls.len() == 0 {
        0
    } else {
        marked_lines(ls.drop_last(), c) + if ls.last().len() > 0 && ls.last()[0] == c {
            1nat
        } else {
            0nat
        }
    }
}

/// The old and new line counts that a hunk header `@@ -a,b +c,d @@` gives
/// (`b` and `d`, 1 where a count is left out).
pub open spec fn header_counts(h: Seq<char>) -> Option<(nat, nat)> {
    match split_hunk_header(h) {
        Some((ranges, _)) => match find_char(ranges, ' ') {
            Some(sp) => match (parse_hunk_range(ranges.take(sp)), parse_hunk_range(ranges.skip(sp + 1))) {
                (Some((_, c1)), Some((_, c2))) => Some((c1 as nat, c2 as nat)),
                _ => None,
            },
            None => None,
        },
        None => None,
    }
}

/// A diff that is one correct hunk is left as it is, byte for byte: a
/// hunk header whose counts are those of its body (context and removed
/// lines for the old side, context and added lines for the new side),
/// followed by body lines that all carry their marker.
pub proof fn lemma_repair_keeps_correct_hunk(d: Seq<char>)
    requires
        lines(d).len() > 0,
        is_hunk_header(lines(d)[0]),
        forall|k: int|
            1 <= k < lines(d).len() ==> has_line_marker(#[trigger] lines(d)[k]) && !is_hunk_header(lines(d)[k])
                && !is_file_header(lines(d)[k]),
        header_counts(lines(d)[0]) == Some(
            (
                marked_lines(lines(d).drop_first(), ' ') + marked_lines(lines(d).drop_first(), '-'),
                marked_lines(lines(d).drop_first(), ' ') + marked_lines(lines(d).drop_first(), '+'),
            ),
        ),
    ensures
        repaired(d) == d,
{
    let ls = lines(d);
    let n = ls.len() as int;
    lemma_hunk_states(ls, n);
    assert(ls.take(n) =~= ls);
    assert(ls.take(n).drop_first() =~= ls.drop_first());
    assert(close_hunk(repair_lines(ls)) =~= ls);
    lemma_split_well_ended(d);
}

proof fn lemma_hunk_states(ls: Seq<Seq<char>>, k: int)
    requires
        1 <= k <= ls.len(),
        is_hunk_header(ls[0]),
        forall|j: int| 1 <= j < ls.len() ==> has_line_marker(#[trigger] ls[j]) && !is_hunk_header(ls[j])
            && !is_file_header(ls[j]),
    ensures
        state_at(ls, k) == (RepairState {
            in_hunk: true,
            pending: Some(0),
            ctx: marked_lines(ls.take(k).drop_first(), ' '),
            add: marked_lines(ls.take(k).drop_first(), '+'),
            rem: marked_lines(ls.take(k).drop_first(), '-'),
            out: ls.take(k),
        }),
    decreases k,
{
    if k == 1 {
        lemma_state_next(ls, 0);
        assert(ls.take(0) =~= Seq::<Seq<char>>::empty());
        assert(ls.take(1) =~= seq![ls[0]]);
        assert(ls.take(1).drop_first() =~= Seq::<Seq<char>>::empty());
        assert(close_hunk(repair_start()) == Seq::<Seq<char>>::empty());
        assert(Seq::<Seq<char>>::empty().push(ls[0]) =~= seq![ls[0]]);
    } else {
        lemma_hunk_states(ls, k - 1);
        lemma_state_next(ls, k - 1);
        let x = ls[k - 1];
        assert(ls.take(k - 1).push(x) =~= ls.take(k));
        assert(ls.take(k).drop_first().drop_last() =~= ls.take(k - 1).drop_first());
        assert(ls.take(k).drop_first().last() == x);
    }
}

} // verus!
