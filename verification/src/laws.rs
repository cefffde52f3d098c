//! What holds of every evaluation: an approval rests on a real match, a
//! candidate is only compared with references of its own target, a
//! rejection means no candidate matched, and a failure explains every
//! candidate; and what holds of the normalization that texts are compared
//! under.
use vstd::prelude::*;
use crate::models::{
    reason_view, ApplicationMode, PatchCandidate, PerfectPatch, Reason, RefinementRequest, SourceFile,
    WhitespaceConfig,
};
use crate::refiner::{
    candidate_outcome, candidate_step, cr_to_lf, crlf_to_lf, diffy_apply, diffy_parse_error,
    exemplar_scan, mode_of, normalized, perfect_step, perfects_fold, perfects_of, reason_for,
    reasons_of, syntactic_scan, syntactic_step, CandidateOutcome, Scan,
};
use crate::repair::repaired;
use crate::repair_laws::lemma_repair_idempotent;
use crate::text::{
    join_lines, lemma_find_char, lemma_lines_facts, lemma_lines_join_open, lemma_trim_end_is_prefix,
    lemma_trim_ends, lemma_trim_idempotent, lemma_trim_start_is_suffix, lines, no_newline, strip_cr,
    trim, trim_start,
};

verus! {

/// Reference `p` patches `original` into a text that normalizes to `ai`.
pub open spec fn reference_gives(p: PerfectPatch, original: Seq<char>, ai: Seq<char>, ws: WhitespaceConfig) -> bool {
    let d = repaired(p.diff_content@);
    &&& diffy_parse_error(d) is None
    &&& diffy_apply(original, d) matches Ok(t) && normalized(t, ws) == ai
}

/// Candidate `c` patches its target file into `t`, reference `p` targets
/// the same file, and both texts are equal after normalization.
pub open spec fn pair_matches(files: Seq<SourceFile>, c: PatchCandidate, p: PerfectPatch, ws: WhitespaceConfig) -> bool {
    &&& c.target_path@ == p.target_path@
    &&& candidate_outcome(files, c) matches CandidateOutcome::Patched(t, original)
        && reference_gives(p, original, normalized(t, ws), ws)
}

/// The comparisons of `r` are those of `sc` followed by comparisons of
/// candidate `ci` with references of `ps` of the same target.
pub open spec fn fold_comparisons_from(sc: Scan, r: Scan, ci: int, c: PatchCandidate, ps: Seq<PerfectPatch>) -> bool {
    &&& sc.comparisons.len() <= r.comparisons.len()
    &&& forall|k: int|
        0 <= k < r.comparisons.len() ==> {
            let cmp = #[trigger] r.comparisons[k];
            if k < sc.comparisons.len() {
                cmp == sc.comparisons[k]
            } else {
                &&& cmp.candidate_index == ci
                &&& cmp.candidate_id == c.id@
                &&& 0 <= cmp.perfect_index < ps.len()
                &&& cmp.perfect_id == ps[cmp.perfect_index].id@
                &&& ps[cmp.perfect_index].target_path@ == c.target_path@
            }
        }
}

proof fn lemma_fold_match(
    sc: Scan,
    ci: int,
    c: PatchCandidate,
    ai: Seq<char>,
    original: Seq<char>,
    ps: Seq<PerfectPatch>,
    ws: WhitespaceConfig,
)
    requires
        sc.matched is None,
    ensures
        perfects_fold(sc, ci, c, ai, original, ps, ws).matched matches Some((a, b)) ==> {
            &&& a == ci
            &&& 0 <= b < ps.len()
            &&& ps[b].target_path@ == c.target_path@
            &&& reference_gives(ps[b], original, ai, ws)
        },
        perfects_fold(sc, ci, c, ai, original, ps, ws).matched is None ==> forall|j: int|
            0 <= j < ps.len() && ps[j].target_path@ == c.target_path@ ==> !reference_gives(
                #[trigger] ps[j],
                original,
                ai,
                ws,
            ),
        fold_comparisons_from(sc, perfects_fold(sc, ci, c, ai, original, ps, ws), ci, c, ps),
    decreases ps.len(),
{
    if ps.len() > 0 {
        let prev = perfects_fold(sc, ci, c, ai, original, ps.drop_last(), ws);
        lemma_fold_match(sc, ci, c, ai, original, ps.drop_last(), ws);
        let r = perfects_fold(sc, ci, c, ai, original, ps, ws);
        assert(r == perfect_step(prev, ci, c, ai, original, ps.len() - 1, ps.last(), ws));
        assert forall|k: int| 0 <= k < prev.comparisons.len() implies
            (#[trigger] prev.comparisons[k]).perfect_index < ps.len() - 1 || k < sc.comparisons.len() by {}
        assert forall|j: int| 0 <= j < ps.len() - 1 implies #[trigger] ps.drop_last()[j] == ps[j] by {}
        if prev.matched is Some {
            let (a, b) = prev.matched.unwrap();
            assert(ps.drop_last()[b] == ps[b]);
        } else {
            assert forall|j: int|
                0 <= j < ps.len() && ps[j].target_path@ == c.target_path@ && r.matched is None
                implies !reference_gives(#[trigger] ps[j], original, ai, ws) by {
                if j < ps.len() - 1 {
                    assert(ps.drop_last()[j] == ps[j]);
                }
            }
        }
    }
}

proof fn lemma_exemplar_scan_facts(files: Seq<SourceFile>, cs: Seq<PatchCandidate>, ps: Seq<PerfectPatch>, ws: WhitespaceConfig)
    ensures
        exemplar_scan(files, cs, ps, ws).matched matches Some((ci, pi)) ==> {
            &&& 0 <= ci < cs.len()
            &&& 0 <= pi < ps.len()
            &&& pair_matches(files, cs[ci], ps[pi], ws)
            &&& forall|cj: int, pj: int|
                0 <= cj < ci && 0 <= pj < ps.len() ==> !pair_matches(files, #[trigger] cs[cj], #[trigger] ps[pj], ws)
        },
        exemplar_scan(files, cs, ps, ws).matched is None ==> forall|ci: int, pi: int|
            0 <= ci < cs.len() && 0 <= pi < ps.len() ==> !pair_matches(files, #[trigger] cs[ci], #[trigger] ps[pi], ws),
        !exemplar_scan(files, cs, ps, ws).patched ==> {
            let diags = exemplar_scan(files, cs, ps, ws).diags;
            &&& exemplar_scan(files, cs, ps, ws).matched is None
            &&& diags.len() == cs.len()
            &&& forall|j: int|
                0 <= j < cs.len() ==> candidate_outcome(files, #[trigger] cs[j]) == CandidateOutcome::Failed(diags[j])
        },
        forall|k: int|
            0 <= k < exemplar_scan(files, cs, ps, ws).comparisons.len() ==> {
                let cmp = #[trigger] exemplar_scan(files, cs, ps, ws).comparisons[k];
                &&& 0 <= cmp.candidate_index < cs.len()
                &&& 0 <= cmp.perfect_index < ps.len()
                &&& cmp.candidate_id == cs[cmp.candidate_index].id@
                &&& cmp.perfect_id == ps[cmp.perfect_index].id@
                &&& cs[cmp.candidate_index].target_path@ == ps[cmp.perfect_index].target_path@
            },
    decreases cs.len(),
{
    if cs.len() > 0 {
        let n = cs.len() - 1;
        let c = cs.last();
        let prev = exemplar_scan(files, cs.drop_last(), ps, ws);
        lemma_exemplar_scan_facts(files, cs.drop_last(), ps, ws);
        let r = exemplar_scan(files, cs, ps, ws);
        assert(r == candidate_step(prev, files, n, c, ps, ws));
        assert forall|i: int| 0 <= i < n implies cs.drop_last()[i] == cs[i] by {}
        assert(cs[n] == c);
        if prev.matched is Some {
            let (ci, pi) = prev.matched.unwrap();
            assert forall|cj: int, pj: int|
                0 <= cj < ci && 0 <= pj < ps.len() implies !pair_matches(files, #[trigger] cs[cj], #[trigger] ps[pj], ws) by {
                assert(cs.drop_last()[cj] == cs[cj]);
            }
        } else {
            assert forall|cj: int, pj: int|
                0 <= cj < n && 0 <= pj < ps.len() implies !pair_matches(files, #[trigger] cs[cj], #[trigger] ps[pj], ws) by {
                assert(cs.drop_last()[cj] == cs[cj]);
            }
            match candidate_outcome(files, c) {
                CandidateOutcome::Failed(d) => {
                    if !prev.patched {
                        assert(r.diags == prev.diags.push(d));
                        assert forall|j: int| 0 <= j < cs.len() implies candidate_outcome(files, #[trigger] cs[j])
                            == CandidateOutcome::Failed(r.diags[j]) by {
                            if j < n {
                                assert(cs.drop_last()[j] == cs[j]);
                            }
                        }
                    }
                },
                CandidateOutcome::Patched(t, original) => {
                    crate::refiner::lemma_perfects_fold_patched(Scan { patched: true, ..prev }, n, c, normalized(t, ws), original, ps, ws);
                    lemma_fold_match(Scan { patched: true, ..prev }, n, c, normalized(t, ws), original, ps, ws);
                    if r.matched is None {
                        assert forall|ci: int, pi: int|
                            0 <= ci < cs.len() && 0 <= pi < ps.len() implies !pair_matches(files, #[trigger] cs[ci], #[trigger] ps[pi], ws) by {
                            if ci == n {
                                if pair_matches(files, cs[ci], ps[pi], ws) {
                                    assert(ps[pi].target_path@ == c.target_path@);
                                }
                            } else {
                                assert(cs.drop_last()[ci] == cs[ci]);
                            }
                        }
                    }
                },
            }
        }
    }
}

/// In exemplar mode a candidate is approved only when its patched target
/// file equals, after normalization, the same file patched by a reference
/// patch of the same target; and it is the first candidate for which such
/// a reference exists.
pub proof fn lemma_exemplar_approval_is_a_match(
    files: Seq<SourceFile>,
    cs: Seq<PatchCandidate>,
    ps: Seq<PerfectPatch>,
    ws: WhitespaceConfig,
    ci: int,
    pi: int,
)
    requires
        exemplar_scan(files, cs, ps, ws).matched == Some((ci, pi)),
    ensures
        0 <= ci < cs.len(),
        0 <= pi < ps.len(),
        pair_matches(files, cs[ci], ps[pi], ws),
        forall|cj: int, pj: int|
            0 <= cj < ci && 0 <= pj < ps.len() ==> !pair_matches(files, #[trigger] cs[cj], #[trigger] ps[pj], ws),
{
    lemma_exemplar_scan_facts(files, cs, ps, ws);
}

/// In exemplar mode a rejection means that no candidate matches any
/// reference patch of its target.
pub proof fn lemma_exemplar_rejection_means_no_match(
    files: Seq<SourceFile>,
    cs: Seq<PatchCandidate>,
    ps: Seq<PerfectPatch>,
    ws: WhitespaceConfig,
    ci: int,
    pi: int,
)
    requires
        exemplar_scan(files, cs, ps, ws).matched is None,
        0 <= ci < cs.len(),
        0 <= pi < ps.len(),
    ensures
        !pair_matches(files, cs[ci], ps[pi], ws),
{
    lemma_exemplar_scan_facts(files, cs, ps, ws);
}

/// A candidate is only ever compared with reference patches of its own
/// target: each comparison names a candidate and a reference of the
/// request, by position and id, that share a target path.
pub proof fn lemma_comparisons_share_target(
    files: Seq<SourceFile>,
    cs: Seq<PatchCandidate>,
    ps: Seq<PerfectPatch>,
    ws: WhitespaceConfig,
    k: int,
)
    requires
        0 <= k < exemplar_scan(files, cs, ps, ws).comparisons.len(),
    ensures
        ({
            let cmp = exemplar_scan(files, cs, ps, ws).comparisons[k];
            &&& 0 <= cmp.candidate_index < cs.len()
            &&& 0 <= cmp.perfect_index < ps.len()
            &&& cmp.candidate_id == cs[cmp.candidate_index].id@
            &&& cmp.perfect_id == ps[cmp.perfect_index].id@
            &&& cs[cmp.candidate_index].target_path@ == ps[cmp.perfect_index].target_path@
        }),
{
    lemma_exemplar_scan_facts(files, cs, ps, ws);
}

/// In exemplar mode, when no candidate parses and applies, the request
/// fails (no match) and carries, for each candidate in order, the
/// diagnostic of why it did not parse or apply.
pub proof fn lemma_exemplar_failure_explains_each_candidate(
    files: Seq<SourceFile>,
    cs: Seq<PatchCandidate>,
    ps: Seq<PerfectPatch>,
    ws: WhitespaceConfig,
)
    requires
        forall|j: int| 0 <= j < cs.len() ==> candidate_outcome(files, #[trigger] cs[j]) is Failed,
    ensures
        !exemplar_scan(files, cs, ps, ws).patched,
        exemplar_scan(files, cs, ps, ws).matched is None,
        exemplar_scan(files, cs, ps, ws).diags.len() == cs.len(),
        forall|j: int|
            0 <= j < cs.len() ==> candidate_outcome(files, #[trigger] cs[j]) == CandidateOutcome::Failed(
                exemplar_scan(files, cs, ps, ws).diags[j],
            ),
    decreases cs.len(),
{
    if cs.len() > 0 {
        let n = cs.len() - 1;
        assert forall|j: int| 0 <= j < n implies candidate_outcome(files, #[trigger] cs.drop_last()[j]) is Failed by {
            assert(cs.drop_last()[j] == cs[j]);
        }
        lemma_exemplar_failure_explains_each_candidate(files, cs.drop_last(), ps, ws);
        assert(cs[n] == cs.last());
    }
    lemma_exemplar_scan_facts(files, cs, ps, ws);
}

/// In exemplar mode a request fails only when no candidate parses and
/// applies: otherwise it is approved or rejected.
pub proof fn lemma_exemplar_patched_unless_all_fail(
    files: Seq<SourceFile>,
    cs: Seq<PatchCandidate>,
    ps: Seq<PerfectPatch>,
    ws: WhitespaceConfig,
    k: int,
)
    requires
        0 <= k < cs.len(),
        candidate_outcome(files, cs[k]) is Patched,
    ensures
        exemplar_scan(files, cs, ps, ws).patched,
{
    lemma_exemplar_scan_facts(files, cs, ps, ws);
}

proof fn lemma_syntactic_scan_facts(start: Scan, files: Seq<SourceFile>, cs: Seq<PatchCandidate>)
    requires
        start.matched is None,
    ensures
        syntactic_scan(start, files, cs).matched matches Some((k, _)) ==> {
            &&& 0 <= k < cs.len()
            &&& candidate_outcome(files, cs[k]) is Patched
            &&& forall|j: int| 0 <= j < k ==> candidate_outcome(files, #[trigger] cs[j]) is Failed
        },
        syntactic_scan(start, files, cs).matched is None ==> {
            let diags = syntactic_scan(start, files, cs).diags;
            &&& diags.len() == start.diags.len() + cs.len()
            &&& diags.take(start.diags.len() as int) == start.diags
            &&& forall|j: int|
                0 <= j < cs.len() ==> candidate_outcome(files, #[trigger] cs[j]) == CandidateOutcome::Failed(
                    diags[start.diags.len() + j],
                )
        },
    decreases cs.len(),
{
    if cs.len() == 0 {
        assert(start.diags.take(start.diags.len() as int) =~= start.diags);
    } else {
        let n = cs.len() - 1;
        let prev = syntactic_scan(start, files, cs.drop_last());
        lemma_syntactic_scan_facts(start, files, cs.drop_last());
        let r = syntactic_scan(start, files, cs);
        assert(r == syntactic_step(prev, files, n, cs.last()));
        assert forall|i: int| 0 <= i < n implies #[trigger] cs.drop_last()[i] == cs[i] by {}
        assert(cs[n] == cs.last());
        if prev.matched is Some {
            let (k, z) = prev.matched.unwrap();
            assert(r == prev);
            assert forall|j: int| 0 <= j < k implies candidate_outcome(files, #[trigger] cs[j]) is Failed by {
                assert(cs.drop_last()[j] == cs[j]);
            }
        } else {
            match candidate_outcome(files, cs.last()) {
                CandidateOutcome::Failed(d) => {
                    assert(r.diags == prev.diags.push(d));
                    assert(r.diags.take(start.diags.len() as int) =~= prev.diags.take(start.diags.len() as int));
                    assert forall|j: int| 0 <= j < cs.len() implies candidate_outcome(files, #[trigger] cs[j])
                        == CandidateOutcome::Failed(r.diags[start.diags.len() + j]) by {
                        if j < n {
                            assert(cs.drop_last()[j] == cs[j]);
                        }
                    }
                },
                CandidateOutcome::Patched(_, _) => {
                    assert forall|j: int| 0 <= j < n implies candidate_outcome(files, #[trigger] cs[j]) is Failed by {
                        assert(cs.drop_last()[j] == cs[j]);
                    }
                },
            }
        }
    }
}

/// In syntactic mode the approved candidate parses and applies to its
/// target file, and every candidate before it does not.
pub proof fn lemma_syntactic_approval(start: Scan, files: Seq<SourceFile>, cs: Seq<PatchCandidate>, k: int, z: int)
    requires
        start.matched is None,
        syntactic_scan(start, files, cs).matched == Some((k, z)),
    ensures
        0 <= k < cs.len(),
        candidate_outcome(files, cs[k]) is Patched,
        forall|j: int| 0 <= j < k ==> candidate_outcome(files, #[trigger] cs[j]) is Failed,
{
    lemma_syntactic_scan_facts(start, files, cs);
}

/// In syntactic mode a failure explains every candidate: after the
/// diagnostics the scan started with comes, for each candidate in order,
/// the diagnostic of why it did not parse or apply.
pub proof fn lemma_syntactic_failure_explains_each_candidate(start: Scan, files: Seq<SourceFile>, cs: Seq<PatchCandidate>)
    requires
        start.matched is None,
        syntactic_scan(start, files, cs).matched is None,
    ensures
        syntactic_scan(start, files, cs).diags.len() == start.diags.len() + cs.len(),
        syntactic_scan(start, files, cs).diags.take(start.diags.len() as int) == start.diags,
        forall|j: int|
            0 <= j < cs.len() ==> candidate_outcome(files, #[trigger] cs[j]) == CandidateOutcome::Failed(
                syntactic_scan(start, files, cs).diags[start.diags.len() + j],
            ),
{
    lemma_syntactic_scan_facts(start, files, cs);
}

/// `s` holds no carriage return.
pub open spec fn no_cr(s: Seq<char>) -> bool {
    forall|i: int| 0 <= i < s.len() ==> #[trigger] s[i] != '\r'
}

proof fn lemma_crlf_to_lf_plain(s: Seq<char>)
    requires
        no_cr(s),
    ensures
        crlf_to_lf(s) == s,
    decreases s.len(),
{
    if s.len() > 0 {
        lemma_crlf_to_lf_plain(s.drop_first());
        assert(seq![s[0]] + s.drop_first() =~= s);
    }
}

proof fn lemma_lines_no_cr(s: Seq<char>)
    requires
        no_cr(s),
    ensures
        forall|j: int| 0 <= j < lines(s).len() ==> no_cr(#[trigger] lines(s)[j]),
    decreases s.len(),
{
    if s.len() > 0 {
        lemma_find_char(s, '\n');
        match crate::text::find_char(s, '\n') {
            Some(i) => {
                let tail = s.subrange(i + 1, s.len() as int);
                lemma_lines_no_cr(tail);
                let head = strip_cr(s.subrange(0, i));
                assert(lines(s) == seq![head] + lines(tail));
                assert forall|j: int| 0 <= j < lines(s).len() implies no_cr(#[trigger] lines(s)[j]) by {
                    if j > 0 {
                        assert(lines(s)[j] == lines(tail)[j - 1]);
                    } else {
                        assert forall|t: int| 0 <= t < head.len() implies #[trigger] head[t] != '\r' by {
                            assert(head[t] == s[t]);
                        }
                    }
                }
            },
            None => {
                assert(lines(s) == seq![s]);
            },
        }
    }
}

proof fn lemma_trim_no_cr(l: Seq<char>)
    requires
        no_cr(l),
    ensures
        no_cr(trim(l)),
{
    lemma_trim_start_is_suffix(l);
    let a = trim_start(l);
    lemma_trim_end_is_prefix(a);
    assert forall|t: int| 0 <= t < trim(l).len() implies #[trigger] trim(l)[t] != '\r' by {
        assert(trim(l)[t] == a[t]);
        assert(a[t] == l[l.len() - a.len() + t]);
    }
}

proof fn lemma_join_no_cr(ls: Seq<Seq<char>>)
    requires
        forall|j: int| 0 <= j < ls.len() ==> no_cr(#[trigger] ls[j]),
    ensures
        no_cr(join_lines(ls)),
    decreases ls.len(),
{
    if ls.len() == 1 {
        assert(no_cr(ls[0]));
    } else if ls.len() > 1 {
        lemma_join_no_cr(ls.drop_last());
        let a = join_lines(ls.drop_last());
        assert(no_cr(ls.last()));
        assert forall|t: int| 0 <= t < join_lines(ls).len() implies #[trigger] join_lines(ls)[t] != '\r' by {
            if t < a.len() {
                assert(join_lines(ls)[t] == a[t]);
            } else if t > a.len() {
                assert(join_lines(ls)[t] == ls.last()[t - a.len() - 1]);
            }
        }
    }
}

/// After line-ending normalization no carriage return is left.
pub proof fn lemma_normalized_has_no_cr(s: Seq<char>, cfg: WhitespaceConfig)
    requires
        cfg.normalize_line_endings,
    ensures
        no_cr(normalized(s, cfg)),
{
    let t = cr_to_lf(crlf_to_lf(s));
    assert(no_cr(t));
    if cfg.ignore_whitespace {
        lemma_lines_no_cr(t);
        let ls = lines(t).map_values(|l: Seq<char>| trim(l));
        assert forall|j: int| 0 <= j < ls.len() implies no_cr(#[trigger] ls[j]) by {
            lemma_trim_no_cr(lines(t)[j]);
        }
        lemma_join_no_cr(ls);
    }
}

/// Normalizing a normalized text changes nothing, unless lines are trimmed
/// and the text ends with a line break (the empty last line then goes
/// away: `"a\n\n"` normalizes to `"a\n"`, and that to `"a"`).
pub proof fn lemma_normalized_idempotent(s: Seq<char>, cfg: WhitespaceConfig)
    requires
        !cfg.ignore_whitespace || !(normalized(s, cfg).len() > 0 && normalized(s, cfg).last() == '\n'),
    ensures
        normalized(normalized(s, cfg), cfg) == normalized(s, cfg),
{
    let r = normalized(s, cfg);
    if cfg.normalize_line_endings {
        lemma_normalized_has_no_cr(s, cfg);
        lemma_crlf_to_lf_plain(r);
        assert(cr_to_lf(r) =~= r);
    }
    if cfg.ignore_whitespace {
        let t = if cfg.normalize_line_endings {
            cr_to_lf(crlf_to_lf(s))
        } else {
            s
        };
        let tl = lines(t).map_values(|l: Seq<char>| trim(l));
        assert(r == join_lines(tl));
        lemma_lines_facts(t);
        assert forall|j: int| 0 <= j < tl.len() implies no_newline(#[trigger] tl[j]) && !crate::text::ends_cr(tl[j])
            && trim(tl[j]) == tl[j] by {
            lemma_trim_idempotent(lines(t)[j]);
            lemma_trim_ends(lines(t)[j]);
        }
        if tl.len() == 0 || (tl.len() == 1 && tl[0].len() == 0) {
            assert(r.len() == 0);
            assert(lines(r) == Seq::<Seq<char>>::empty());
            assert(lines(r).map_values(|l: Seq<char>| trim(l)) =~= Seq::<Seq<char>>::empty());
        } else {
            if tl.last().len() == 0 {
                assert(r == join_lines(tl.drop_last()) + seq!['\n'] + tl.last());
                assert(r.last() == '\n');
            }
            lemma_lines_join_open(tl);
            assert(lines(r) == tl);
            assert(tl.map_values(|l: Seq<char>| trim(l)) =~= tl);
        }
    }
}

/// A candidate is judged on its repaired diff: giving it its repaired diff
/// in place of the one it came with changes nothing in how it is judged.
pub proof fn lemma_candidate_judged_on_repaired_diff(files: Seq<SourceFile>, c1: PatchCandidate, c2: PatchCandidate)
    requires
        c2.id@ == c1.id@,
        c2.target_path@ == c1.target_path@,
        c2.diff_content@ == repaired(c1.diff_content@),
    ensures
        candidate_outcome(files, c2) == candidate_outcome(files, c1),
{
    lemma_repair_idempotent(c1.diff_content@);
}

/// A reference patch is judged on its repaired diff: giving it its repaired
/// diff in place of the one it came with changes nothing in a comparison.
pub proof fn lemma_reference_judged_on_repaired_diff(
    sc: Scan,
    ci: int,
    c: PatchCandidate,
    ai: Seq<char>,
    original: Seq<char>,
    pi: int,
    p1: PerfectPatch,
    p2: PerfectPatch,
    ws: WhitespaceConfig,
)
    requires
        p2.id@ == p1.id@,
        p2.target_path@ == p1.target_path@,
        p2.diff_content@ == repaired(p1.diff_content@),
    ensures
        perfect_step(sc, ci, c, ai, original, pi, p2, ws) == perfect_step(sc, ci, c, ai, original, pi, p1, ws),
{
    lemma_repair_idempotent(p1.diff_content@);
}

/// Without an override, the mode follows the number of reference patches:
/// none gives syntactic only, one gives single exemplar, two or more give
/// multi exemplar; an override is taken as it is.
pub proof fn lemma_mode_by_reference_count(req: RefinementRequest)
    ensures
        req.config is Some && req.config.unwrap().mode_override is Some ==> mode_of(req)
            == req.config.unwrap().mode_override.unwrap(),
        !(req.config is Some && req.config.unwrap().mode_override is Some) ==> {
            &&& perfects_of(req).len() == 0 ==> mode_of(req) == ApplicationMode::SyntacticOnly
            &&& perfects_of(req).len() == 1 ==> mode_of(req) == ApplicationMode::SingleExemplar
            &&& perfects_of(req).len() >= 2 ==> mode_of(req) == ApplicationMode::MultiExemplar
        },
{
}

/// The reasoning looked up for an id is that of the first reference patch
/// with that id.
pub proof fn lemma_reason_of_first_with_id(
    reasons: Seq<(String, Option<Reason>)>,
    ps: Seq<PerfectPatch>,
    id: Seq<char>,
    k: int,
)
    requires
        reasons_of(reasons, ps),
        0 <= k < ps.len(),
        ps[k].id@ == id,
        forall|j: int| 0 <= j < k ==> (#[trigger] ps[j]).id@ != id,
    ensures
        reason_for(reasons, id) == reason_view(ps[k].reason),
    decreases k,
{
    assert(reasons[0].0@ == ps[0].id@);
    if k > 0 {
        let rs = reasons.drop_first();
        let qs = ps.drop_first();
        assert forall|j: int| 0 <= j < qs.len() implies (#[trigger] rs[j]).0@ == qs[j].id@ && reason_view(rs[j].1)
            == reason_view(qs[j].reason) by {
            assert(rs[j] == reasons[j + 1]);
            assert(qs[j] == ps[j + 1]);
        }
        assert forall|j: int| 0 <= j < k - 1 implies (#[trigger] qs[j]).id@ != id by {
            assert(qs[j] == ps[j + 1]);
        }
        lemma_reason_of_first_with_id(rs, qs, id, k - 1);
    } else {
        assert(reasons[0].0@ == id);
    }
}

/// When no reference patch has the id, no reasoning is found.
pub proof fn lemma_reason_none_without_id(reasons: Seq<(String, Option<Reason>)>, ps: Seq<PerfectPatch>, id: Seq<char>)
    requires
        reasons_of(reasons, ps),
        forall|j: int| 0 <= j < ps.len() ==> (#[trigger] ps[j]).id@ != id,
    ensures
        reason_for(reasons, id) is None,
    decreases ps.len(),
{
    if ps.len() > 0 {
        assert(reasons[0].0@ == ps[0].id@);
        let rs = reasons.drop_first();
        let qs = ps.drop_first();
        assert forall|j: int| 0 <= j < qs.len() implies (#[trigger] rs[j]).0@ == qs[j].id@ && reason_view(rs[j].1)
            == reason_view(qs[j].reason) by {
            assert(rs[j] == reasons[j + 1]);
            assert(qs[j] == ps[j + 1]);
        }
        assert forall|j: int| 0 <= j < qs.len() implies (#[trigger] qs[j]).id@ != id by {
            assert(qs[j] == ps[j + 1]);
        }
        lemma_reason_none_without_id(rs, qs, id);
    }
}

} // verus!
