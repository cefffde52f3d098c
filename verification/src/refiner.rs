//! The evaluation of patch candidates: syntactic validation (the repaired
//! diff parses and applies to its target file) and, when reference
//! ("perfect") patches are given, comparison of the patched texts.
use vstd::prelude::*;
use crate::distance::{compute_distance, diff_outcomes, is_best_pair, word_diff_display, word_diff_text, Side, WordDiff};
use crate::models::{
    copy_reason, diagnostic_is, opt_view, reason_view, ApplicationMode, Decision, Deviation, Diagnostic,
    DiagnosticCategory, DiagnosticLevel, PatchCandidate, PerfectPatch, Reason, ReasonView,
    RefineError, RefinementConfig, RefinementRequest, RefinementResponse, Result, SourceFile,
    WhitespaceConfig, SCHEMA_VERSION,
};
use crate::repair::{repair_context_lines as repair_diff, repaired};
use crate::text::{
    chars_of, join_lines, join_with_newlines, lines, lines_of, string_from, take_chars,
    take_chars_exec, trim, trim_chars, views,
};

verus! {

// ---------------------------------------------------------------------------
// The unified-diff engine (diffy)
// ---------------------------------------------------------------------------

#[verifier::external_type_specification]
#[verifier::external_body]
#[verifier::reject_recursive_types(T)]
pub struct ExPatch<'a, T: ToOwned + ?Sized>(diffy::Patch<'a, T>);

/// The error text (`Display`) of `diffy::Patch::from_str(diff)`, or `None`
/// when the diff parses.
pub uninterp spec fn diffy_parse_error(diff: Seq<char>) -> Option<Seq<char>>;

/// What `diffy::apply(base, &patch)` gives for the patch parsed from `diff`:
/// the patched text, or the error text (`Display`) of the failure.
pub uninterp spec fn diffy_apply(base: Seq<char>, diff: Seq<char>) -> std::result::Result<
    Seq<char>,
    Seq<char>,
>;

/// `diffy::Patch::from_str`: parses a unified diff; a failure is returned as
/// the error's display text. The contract names the outcome by the diff.
#[verifier::external_body]
fn patch_from_str<'a>(diff: &'a str) -> (r: std::result::Result<diffy::Patch<'a, str>, String>)
    ensures
        r is Ok <==> diffy_parse_error(diff@) is None,
        r matches Err(e) ==> diffy_parse_error(diff@) == Some(e@),
{
    diffy::Patch::from_str(diff).map_err(|e| e.to_string())
}

/// A parsed patch together with the diff text it was parsed from.
pub struct ParsedPatch<'a> {
    patch: diffy::Patch<'a, str>,
    text: Ghost<Seq<char>>,
}

impl<'a> ParsedPatch<'a> {
    /// The diff text the patch was parsed from.
    pub closed spec fn text(&self) -> Seq<char> {
        self.text@
    }
}

/// Parses a unified diff.
pub fn parse_unified_diff<'a>(diff: &'a str) -> (r: std::result::Result<ParsedPatch<'a>, String>)
    ensures
        r is Ok <==> diffy_parse_error(diff@) is None,
        r matches Ok(p) ==> p.text() == diff@,
        r matches Err(e) ==> diffy_parse_error(diff@) == Some(e@),
{
    match patch_from_str(diff) {
        Ok(patch) => Ok(ParsedPatch { patch, text: Ghost(diff@) }),
        Err(e) => Err(e),
    }
}

/// `diffy::apply`: applies a parsed patch to `base`; a failure is returned
/// as the error's display text. The contract names the outcome by the base
/// text and the diff text the patch was parsed from (`parse_unified_diff`
/// is the only way to make a `ParsedPatch`).
#[verifier::external_body]
fn apply_patch(base: &str, patch: &ParsedPatch) -> (r: std::result::Result<String, String>)
    ensures
        match r {
            Ok(s) => diffy_apply(base@, patch.text()) == Ok::<Seq<char>, Seq<char>>(s@),
            Err(e) => diffy_apply(base@, patch.text()) == Err::<Seq<char>, Seq<char>>(e@),
        },
{
    diffy::apply(base, &patch.patch).map_err(|e| e.to_string())
}

// ---------------------------------------------------------------------------
// Specifications
// ---------------------------------------------------------------------------

/// The number of characters of the original text that an apply-failure
/// diagnostic carries.
pub const MAX_ORIGINAL_CODE_SNIPPET_CHARS: usize = 4000;

/// A diagnostic as the contracts describe it.
pub struct DiagSpec {
    pub level: DiagnosticLevel,
    pub category: DiagnosticCategory,
    pub message: Seq<char>,
}

/// The diagnostics `ds` are those described by `spec`, in order.
pub open spec fn diagnostics_are(ds: Seq<Diagnostic>, spec: Seq<DiagSpec>) -> bool {
    &&& ds.len() == spec.len()
    &&& forall|k: int|
        0 <= k < ds.len() ==> diagnostic_is(
            #[trigger] ds[k],
            spec[k].level,
            spec[k].category,
            spec[k].message,
        )
}

/// The content of the file at `path` (the first entry with that path).
pub open spec fn file_content(files: Seq<SourceFile>, path: Seq<char>) -> Option<Seq<char>>
    decreases files.len(),
{
    if files.len() == 0 {
        None
    } else if files[0].path@ == path {
        Some(files[0].content@)
    } else {
        file_content(files.drop_first(), path)
    }
}

/// The message of a patch that does not parse.
pub open spec fn parse_failure_text(label: Seq<char>, id: Seq<char>, err: Seq<char>) -> Seq<
    char,
> {
    label + " "@ + id + " invalid: "@ + err
}

/// The message of a candidate that does not apply: the error and the start
/// of the current original text, so that a caller can see why a hunk did
/// not match.
pub open spec fn apply_failure_text(id: Seq<char>, err: Seq<char>, original: Seq<char>) -> Seq<
    char,
> {
    "Candidate "@ + id + " apply failed: "@ + err + "\n\nCurrent original_code:\n"@ + take_chars(
        original,
        MAX_ORIGINAL_CODE_SNIPPET_CHARS as nat,
    )
}

/// The message of a reference patch that does not apply.
pub open spec fn perfect_apply_failure_text(id: Seq<char>, err: Seq<char>) -> Seq<char> {
    "Perfect patch "@ + id + " apply failed: "@ + err
}

/// The message of a candidate whose target file is not in the request.
pub open spec fn missing_target_text(id: Seq<char>, path: Seq<char>) -> Seq<char> {
    "Candidate "@ + id + " apply failed: target_path "@ + path + " is not among the files"@
}

/// The warning that only syntactic checks are made.
pub open spec fn syntactic_only_text() -> Seq<char> {
    "No semantic checks enabled; approval is syntactic-only (parses + applies cleanly)."@
}

/// `s` with `"\r\n"` replaced by `"\n"` (left to right).
pub open spec fn crlf_to_lf(s: Seq<char>) -> Seq<char>
    decreases s.len(),
{
    if s.len() == 0 {
        s
    } else if s.len() >= 2 && s[0] == '\r' && s[1] == '\n' {
        seq!['\n'] + crlf_to_lf(s.skip(2))
    } else {
        seq![s[0]] + crlf_to_lf(s.drop_first())
    }
}

/// `s` with every `'\r'` replaced by `'\n'`.
pub open spec fn cr_to_lf(s: Seq<char>) -> Seq<char> {
    s.map_values(|c: char| if c == '\r' { '\n' } else { c })
}

/// The text as it is compared: line endings normalized and each line
/// trimmed, as the configuration asks.
pub open spec fn normalized(s: Seq<char>, cfg: WhitespaceConfig) -> Seq<char> {
    let t = if cfg.normalize_line_endings {
        cr_to_lf(crlf_to_lf(s))
    } else {
        s
    };
    if cfg.ignore_whitespace {
        join_lines(lines(t).map_values(|l: Seq<char>| trim(l)))
    } else {
        t
    }
}

/// What checking one candidate gives: its patched text and its original,
/// or the diagnostic of its failure.
pub enum CandidateOutcome {
    Patched(Seq<char>, Seq<char>),
    Failed(DiagSpec),
}

/// Checks candidate `c`: its target file exists, its repaired diff parses
/// and applies to that file.
pub open spec fn candidate_outcome(files: Seq<SourceFile>, c: PatchCandidate) -> CandidateOutcome {
    match file_content(files, c.target_path@) {
        None => CandidateOutcome::Failed(
            DiagSpec {
                level: DiagnosticLevel::Error,
                category: DiagnosticCategory::PatchApply,
                message: missing_target_text(c.id@, c.target_path@),
            },
        ),
        Some(original) => {
            let d = repaired(c.diff_content@);
            match diffy_parse_error(d) {
                Some(e) => CandidateOutcome::Failed(
                    DiagSpec {
                        level: DiagnosticLevel::Error,
                        category: DiagnosticCategory::PatchParse,
                        message: parse_failure_text("Candidate"@, c.id@, e),
                    },
                ),
                None => match diffy_apply(original, d) {
                    Ok(t) => CandidateOutcome::Patched(t, original),
                    Err(e) => CandidateOutcome::Failed(
                        DiagSpec {
                            level: DiagnosticLevel::Error,
                            category: DiagnosticCategory::PatchApply,
                            message: apply_failure_text(c.id@, e, original),
                        },
                    ),
                },
            }
        },
    }
}

/// A comparison of a patched candidate with a patched reference: their
/// positions in the request, their ids and the two normalized texts.
pub struct ComparisonSpec {
    pub candidate_index: int,
    pub perfect_index: int,
    pub candidate_id: Seq<char>,
    pub perfect_id: Seq<char>,
    pub candidate_text: Seq<char>,
    pub perfect_text: Seq<char>,
}

/// The progress of a scan over the candidates: the first match found, if
/// any (candidate and reference index), whether a candidate parsed and
/// applied, the diagnostics so far and the comparisons made so far.
pub struct Scan {
    pub matched: Option<(int, int)>,
    pub patched: bool,
    pub diags: Seq<DiagSpec>,
    pub comparisons: Seq<ComparisonSpec>,
}

/// The scan before any candidate.
pub open spec fn empty_scan() -> Scan {
    Scan { matched: None, patched: false, diags: seq![], comparisons: seq![] }
}

/// The scan with one more diagnostic.
pub open spec fn with_diag(sc: Scan, level: DiagnosticLevel, category: DiagnosticCategory, message: Seq<char>) -> Scan {
    Scan { diags: sc.diags.push(DiagSpec { level, category, message }), ..sc }
}

/// The scan after comparing candidate `ci` (patched text `ai`, original
/// `original`) with reference `pi`.
pub open spec fn perfect_step(
    sc: Scan,
    ci: int,
    c: PatchCandidate,
    ai: Seq<char>,
    original: Seq<char>,
    pi: int,
    p: PerfectPatch,
    ws: WhitespaceConfig,
) -> Scan {
    if sc.matched is Some || p.target_path@ != c.target_path@ {
        sc
    } else {
        let d = repaired(p.diff_content@);
        match diffy_parse_error(d) {
            Some(e) => with_diag(
                sc,
                DiagnosticLevel::Warning,
                DiagnosticCategory::PatchParse,
                parse_failure_text("Perfect patch"@, p.id@, e),
            ),
            None => match diffy_apply(original, d) {
                Err(e) => with_diag(
                    sc,
                    DiagnosticLevel::Warning,
                    DiagnosticCategory::PatchApply,
                    perfect_apply_failure_text(p.id@, e),
                ),
                Ok(t) => {
                    let pr = normalized(t, ws);
                    if ai == pr {
                        Scan { matched: Some((ci, pi)), ..sc }
                    } else {
                        Scan {
                            comparisons: sc.comparisons.push(
                                ComparisonSpec {
                                    candidate_index: ci,
                                    perfect_index: pi,
                                    candidate_id: c.id@,
                                    perfect_id: p.id@,
                                    candidate_text: ai,
                                    perfect_text: pr,
                                },
                            ),
                            ..sc
                        }
                    }
                },
            },
        }
    }
}

/// The scan after comparing candidate `ci` with the references `ps`.
pub open spec fn perfects_fold(
    sc: Scan,
    ci: int,
    c: PatchCandidate,
    ai: Seq<char>,
    original: Seq<char>,
    ps: Seq<PerfectPatch>,
    ws: WhitespaceConfig,
) -> Scan
    decreases ps.len(),
{
    if ps.len() == 0 {
        sc
    } else {
        perfect_step(
            perfects_fold(sc, ci, c, ai, original, ps.drop_last(), ws),
            ci,
            c,
            ai,
            original,
            ps.len() - 1,
            ps.last(),
            ws,
        )
    }
}

/// The scan after candidate `ci`, compared with the references `ps`.
pub open spec fn candidate_step(
    sc: Scan,
    files: Seq<SourceFile>,
    ci: int,
    c: PatchCandidate,
    ps: Seq<PerfectPatch>,
    ws: WhitespaceConfig,
) -> Scan {
    if sc.matched is Some {
        sc
    } else {
        match candidate_outcome(files, c) {
            CandidateOutcome::Failed(d) => Scan { diags: sc.diags.push(d), ..sc },
            CandidateOutcome::Patched(t, original) => perfects_fold(
                Scan { patched: true, ..sc },
                ci,
                c,
                normalized(t, ws),
                original,
                ps,
                ws,
            ),
        }
    }
}

/// The scan of exemplar mode after the candidates `cs`.
pub open spec fn exemplar_scan(
    files: Seq<SourceFile>,
    cs: Seq<PatchCandidate>,
    ps: Seq<PerfectPatch>,
    ws: WhitespaceConfig,
) -> Scan
    decreases cs.len(),
{
    if cs.len() == 0 {
        empty_scan()
    } else {
        candidate_step(exemplar_scan(files, cs.drop_last(), ps, ws), files, cs.len() - 1, cs.last(), ps, ws)
    }
}

/// The scan of syntactic mode after candidate `ci`: the first candidate
/// that parses and applies is the match.
pub open spec fn syntactic_step(sc: Scan, files: Seq<SourceFile>, ci: int, c: PatchCandidate) -> Scan {
    if sc.matched is Some {
        sc
    } else {
        match candidate_outcome(files, c) {
            CandidateOutcome::Failed(d) => Scan { diags: sc.diags.push(d), ..sc },
            CandidateOutcome::Patched(_, _) => Scan { matched: Some((ci, 0)), ..sc },
        }
    }
}

/// The scan of syntactic mode after the candidates `cs`, starting from `start`.
pub open spec fn syntactic_scan(start: Scan, files: Seq<SourceFile>, cs: Seq<PatchCandidate>) -> Scan
    decreases cs.len(),
{
    if cs.len() == 0 {
        start
    } else {
        syntactic_step(syntactic_scan(start, files, cs.drop_last()), files, cs.len() - 1, cs.last())
    }
}

/// The mode a request is evaluated in: the override, else by the number
/// of reference patches (none: syntactic only; one: single exemplar; more:
/// multi exemplar).
pub open spec fn mode_of(req: RefinementRequest) -> ApplicationMode {
    let n = match req.perfect_patches {
        Some(ps) => ps.len(),
        None => 0,
    };
    let inferred = if n == 0 {
        ApplicationMode::SyntacticOnly
    } else if n == 1 {
        ApplicationMode::SingleExemplar
    } else {
        ApplicationMode::MultiExemplar
    };
    match req.config {
        Some(cfg) => match cfg.mode_override {
            Some(m) => m,
            None => inferred,
        },
        None => inferred,
    }
}

/// The whitespace configuration of a request (the default when it has no
/// configuration).
pub open spec fn whitespace_of(req: RefinementRequest) -> WhitespaceConfig {
    match req.config {
        Some(cfg) => cfg.whitespace,
        None => WhitespaceConfig { ignore_whitespace: true, normalize_line_endings: true },
    }
}

/// Whether a request asks for no semantic check at all.
pub open spec fn no_semantic_checks(req: RefinementRequest) -> bool {
    match req.config {
        Some(cfg) => !cfg.semantic_checks.run_compile_check && !cfg.semantic_checks.run_tests,
        None => true,
    }
}

/// `cfg` is the configuration of the request: a copy of the one it holds,
/// or the default when it holds none.
pub open spec fn config_is(cfg: RefinementConfig, req: RefinementRequest) -> bool {
    &&& cfg.whitespace == whitespace_of(req)
    &&& (!cfg.semantic_checks.run_compile_check && !cfg.semantic_checks.run_tests) == no_semantic_checks(req)
    &&& match req.config {
        Some(c) => {
            &&& cfg.mode_override == c.mode_override
            &&& opt_view(cfg.language) == opt_view(c.language)
            &&& opt_view(cfg.file_path) == opt_view(c.file_path)
            &&& cfg.semantic_checks.run_compile_check == c.semantic_checks.run_compile_check
            &&& cfg.semantic_checks.run_tests == c.semantic_checks.run_tests
            &&& opt_view(cfg.semantic_checks.compile_command) == opt_view(c.semantic_checks.compile_command)
            &&& opt_view(cfg.semantic_checks.test_command) == opt_view(c.semantic_checks.test_command)
            &&& cfg.semantic_checks.timeout_secs == c.semantic_checks.timeout_secs
        },
        None => {
            &&& cfg.mode_override is None
            &&& cfg.language is None
            &&& cfg.file_path is None
            &&& !cfg.semantic_checks.run_compile_check
            &&& !cfg.semantic_checks.run_tests
            &&& cfg.semantic_checks.compile_command is None
            &&& cfg.semantic_checks.test_command is None
            &&& cfg.semantic_checks.timeout_secs == Some(30u64)
        },
    }
}

/// The reference patches of a request.
pub open spec fn perfects_of(req: RefinementRequest) -> Seq<PerfectPatch> {
    match req.perfect_patches {
        Some(ps) => ps@,
        None => seq![],
    }
}

/// Whether the request's configuration is valid; the error it gives when
/// it is not.
pub open spec fn config_error(req: RefinementRequest) -> Option<RefineError> {
    match req.config {
        Some(cfg) => if cfg.semantic_checks.timeout_secs == Some(0u64) {
            Some(RefineError::InvalidTimeout)
        } else if cfg.semantic_checks.run_compile_check && cfg.semantic_checks.compile_command is None {
            Some(RefineError::MissingCompileCommand)
        } else {
            None
        },
        None => None,
    }
}

/// The request names a schema version other than the supported one.
pub open spec fn schema_mismatch(req: RefinementRequest) -> bool {
    req.schema_version matches Some(sv) && sv@ != SCHEMA_VERSION@
}

/// `d` is the deviation the comparison `c` describes: its ids, the word
/// diff display of the two texts, and their distance.
pub open spec fn deviation_of(d: Deviation, c: ComparisonSpec) -> bool {
    &&& d.candidate_id@ == c.candidate_id
    &&& d.closest_perfect_patch_id@ == c.perfect_id
    &&& d.diff_from_perfect@ == word_diff_text(c.candidate_text, c.perfect_text)
    &&& is_best_pair(
        diff_outcomes(c.candidate_text, c.perfect_text, Side::Old),
        diff_outcomes(c.candidate_text, c.perfect_text, Side::New),
        d.distance.old_hypothesis as int,
        d.distance.new_hypothesis as int,
    )
    &&& d.distance.removed@ == diff_outcomes(c.candidate_text, c.perfect_text, Side::Old)[d.distance.old_hypothesis as int].weights
    &&& d.distance.inserted@ == diff_outcomes(c.candidate_text, c.perfect_text, Side::New)[d.distance.new_hypothesis as int].weights
}

/// A response with the given mode, decision and diagnostics, and nothing
/// else.
pub open spec fn plain_response(r: RefinementResponse, mode: ApplicationMode, decision: Decision, diags: Seq<DiagSpec>) -> bool {
    &&& r.schema_version@ == SCHEMA_VERSION@
    &&& r.mode == mode
    &&& r.decision == decision
    &&& diagnostics_are(r.diagnostics@, diags)
    &&& r.deviations is None
}

// ---------------------------------------------------------------------------
// Executable functions
// ---------------------------------------------------------------------------

/// An evaluation: a response, or a rejection that waits for its closest
/// comparison to be picked by distance score.
pub enum Evaluation {
    Done(RefinementResponse),
    Rejected(Rejection),
}

/// A rejection in exemplar mode: the diagnostics and every comparison made,
/// in order, before the closest one is picked.
pub struct Rejection {
    pub mode: ApplicationMode,
    pub diagnostics: Vec<Diagnostic>,
    pub comparisons: Vec<Deviation>,
    /// The id and reasoning of each reference patch, in order.
    pub reasons: Vec<(String, Option<Reason>)>,
}

/// The message of a candidate that does not apply: the error and the first
/// 4000 characters of the original text.
pub fn apply_failure_message(candidate_id: &str, error: &str, original: &str) -> (r: String)
    ensures
        r@ == apply_failure_text(candidate_id@, error@, original@),
{
    let chars = chars_of(original);
    let truncated = take_chars_exec(&chars, MAX_ORIGINAL_CODE_SNIPPET_CHARS);
    let mut m = String::new();
    m.append("Candidate ");
    m.append(candidate_id);
    m.append(" apply failed: ");
    m.append(error);
    m.append("\n\nCurrent original_code:\n");
    let t = string_from(&truncated);
    m.append(t.as_str());
    m
}

/// Patch refinement.
pub struct PatchRefiner;

impl PatchRefiner {
    /// A diagnostic without location.
    pub fn diag(level: DiagnosticLevel, category: DiagnosticCategory, message: String) -> (r: Diagnostic)
        ensures
            diagnostic_is(r, level, category, message@),
    {
        Diagnostic { level, category, message, location: None }
    }

    /// A response with the given mode, decision and diagnostics and
    /// nothing else.
    pub fn response(mode: ApplicationMode, decision: Decision, diagnostics: Vec<Diagnostic>) -> (r: RefinementResponse)
        ensures
            r.schema_version@ == SCHEMA_VERSION@,
            r.mode == mode,
            r.decision == decision,
            r.diagnostics@ == diagnostics@,
            r.selected_patch_id is None,
            r.matched_perfect_patch_id is None,
            r.deviations is None,
            r.reasoning is None,
    {
        RefinementResponse {
            schema_version: String::from_str(SCHEMA_VERSION),
            mode,
            decision,
            selected_patch_id: None,
            matched_perfect_patch_id: None,
            deviations: None,
            reasoning: None,
            diagnostics,
        }
    }

    /// Repairs a diff before parsing (see `repair::repair_context_lines`).
    pub fn repair_context_lines(diff: &str) -> (r: String)
        ensures
            r@ == repaired(diff@),
    {
        repair_diff(diff)
    }

    /// The text as it is compared: line endings normalized (`"\r\n"` and
    /// `"\r"` become `"\n"`) and each line trimmed, as `cfg` asks.
    pub fn normalize_text(s: &str, cfg: &WhitespaceConfig) -> (r: String)
        ensures
            r@ == normalized(s@, *cfg),
    {
        let mut text = chars_of(s);
        if cfg.normalize_line_endings {
            text = cr_to_lf_exec(&crlf_to_lf_exec(&text));
        }
        if cfg.ignore_whitespace {
            let ls = lines_of(&text);
            let mut trimmed: Vec<Vec<char>> = Vec::new();
            let mut i: usize = 0;
            while i < ls.len()
                invariant
                    i <= ls@.len(),
                    views(trimmed@) == views(ls@).take(i as int).map_values(|l: Seq<char>| trim(l)),
                decreases ls.len() - i,
            {
                let ghost before = trimmed@;
                trimmed.push(trim_chars(&ls[i]));
                i += 1;
                proof {
                    let lhs = views(trimmed@);
                    let rhs = views(ls@).take(i as int).map_values(|l: Seq<char>| trim(l));
                    let prev = views(ls@).take(i - 1).map_values(|l: Seq<char>| trim(l));
                    assert(views(before) == prev);
                    assert forall|k: int| 0 <= k < i implies lhs[k] == rhs[k] by {
                        if k < i - 1 {
                            assert(lhs[k] == views(before)[k]);
                            assert(prev[k] == rhs[k]);
                        }
                    }
                    assert(lhs =~= rhs);
                }
            }
            assert(views(ls@).take(ls@.len() as int) == views(ls@));
            text = join_with_newlines(&trimmed);
        }
        string_from(&text)
    }
}

/// `crlf_to_lf` on a character slice.
fn crlf_to_lf_exec(s: &[char]) -> (r: Vec<char>)
    ensures
        r@ == crlf_to_lf(s@),
{
    let mut out: Vec<char> = Vec::new();
    let mut i: usize = 0;
    assert(s@.skip(0) == s@);
    assert(out@ + crlf_to_lf(s@) == crlf_to_lf(s@));
    while i < s.len()
        invariant
            i <= s@.len(),
            crlf_to_lf(s@) == out@ + crlf_to_lf(s@.skip(i as int)),
        decreases s.len() - i,
    {
        let ghost rest = s@.skip(i as int);
        if s[i] == '\r' && i + 1 < s.len() && s[i + 1] == '\n' {
            out.push('\n');
            assert(rest.skip(2) == s@.skip(i + 2));
            i += 2;
        } else {
            out.push(s[i]);
            assert(rest.drop_first() == s@.skip(i + 1));
            i += 1;
        }
    }
    assert(s@.skip(s@.len() as int) =~= Seq::<char>::empty());
    assert(out@ + Seq::<char>::empty() == out@);
    out
}

/// `cr_to_lf` on a character slice.
fn cr_to_lf_exec(s: &[char]) -> (r: Vec<char>)
    ensures
        r@ == cr_to_lf(s@),
{
    let mut out: Vec<char> = Vec::new();
    let mut i: usize = 0;
    while i < s.len()
        invariant
            i <= s@.len(),
            out@ == cr_to_lf(s@.take(i as int)),
        decreases s.len() - i,
    {
        if s[i] == '\r' {
            out.push('\n');
        } else {
            out.push(s[i]);
        }
        i += 1;
        assert(cr_to_lf(s@.take(i as int)) =~= cr_to_lf(s@.take(i - 1)).push(
            if s@[i - 1] == '\r' { '\n' } else { s@[i - 1] },
        ));
    }
    assert(s@.take(s@.len() as int) == s@);
    out
}


/// The scan syntactic mode starts from: a warning when the caller runs no
/// semantic check.
pub open spec fn syntactic_start(no_checks: bool) -> Scan {
    if no_checks {
        with_diag(empty_scan(), DiagnosticLevel::Warning, DiagnosticCategory::Other, syntactic_only_text())
    } else {
        empty_scan()
    }
}

/// `r` is the response of syntactic mode: the candidate the scan matched
/// is approved, or, when it matched none, the request fails; with the
/// diagnostics of the scan.
pub open spec fn syntactic_response(r: RefinementResponse, start: Scan, files: Seq<SourceFile>, cs: Seq<PatchCandidate>) -> bool {
    let sc = syntactic_scan(start, files, cs);
    &&& r.reasoning is None
    &&& r.matched_perfect_patch_id is None
    &&& match sc.matched {
        Some((k, _)) => {
            &&& 0 <= k < cs.len()
            &&& plain_response(r, ApplicationMode::SyntacticOnly, Decision::Approved, sc.diags)
            &&& r.selected_patch_id matches Some(id) && id@ == cs[k].id@
        },
        None => {
            &&& plain_response(r, ApplicationMode::SyntacticOnly, Decision::Failed, sc.diags)
            &&& r.selected_patch_id is None
        },
    }
}

/// The deviations `ds` are those the comparisons `cs` describe, in order.
pub open spec fn deviations_match(ds: Seq<Deviation>, cs: Seq<ComparisonSpec>) -> bool {
    &&& ds.len() == cs.len()
    &&& forall|k: int| 0 <= k < ds.len() ==> deviation_of(#[trigger] ds[k], cs[k])
}

/// The reasoning of the first reference patch with id `id` (none when there
/// is no such patch).
pub open spec fn reason_for(reasons: Seq<(String, Option<Reason>)>, id: Seq<char>) -> Option<ReasonView>
    decreases reasons.len(),
{
    if reasons.len() == 0 {
        None
    } else if reasons[0].0@ == id {
        reason_view(reasons[0].1)
    } else {
        reason_for(reasons.drop_first(), id)
    }
}

/// The ids and reasonings of the reference patches, in order.
pub open spec fn reasons_of(reasons: Seq<(String, Option<Reason>)>, ps: Seq<PerfectPatch>) -> bool {
    &&& reasons.len() == ps.len()
    &&& forall|k: int|
        0 <= k < ps.len() ==> (#[trigger] reasons[k]).0@ == ps[k].id@ && reason_view(reasons[k].1)
            == reason_view(ps[k].reason)
}

/// The content of the file at `path`.
fn lookup_file<'a>(files: &'a Vec<SourceFile>, path: &String) -> (r: Option<&'a String>)
    ensures
        match r {
            Some(c) => file_content(files@, path@) == Some(c@),
            None => file_content(files@, path@) is None,
        },
{
    let mut i: usize = 0;
    assert(files@.skip(0) == files@);
    while i < files.len()
        invariant
            i <= files@.len(),
            file_content(files@, path@) == file_content(files@.skip(i as int), path@),
        decreases files.len() - i,
    {
        assert(files@.skip(i as int)[0] == files@[i as int]);
        if string_eq(&files[i].path, path) {
            return Some(&files[i].content);
        }
        assert(files@.skip(i as int).drop_first() == files@.skip(i + 1));
        i += 1;
    }
    None
}

/// Whether two strings are equal.
fn string_eq(a: &String, b: &String) -> (r: bool)
    ensures
        r == (a@ == b@),
{
    string_eq_str(a, b.as_str())
}

/// Whether a string equals a string slice.
fn string_eq_str(a: &String, b: &str) -> (r: bool)
    ensures
        r == (a@ == b@),
{
    let x = chars_of(a.as_str());
    let y = chars_of(b);
    crate::text::chars_eq(&x, &y)
}

/// The message of a patch that does not parse.
fn parse_failure_message(label: &str, id: &String, err: &String) -> (r: String)
    ensures
        r@ == parse_failure_text(label@, id@, err@),
{
    let mut m = String::from_str(label);
    m.append(" ");
    m.append(id.as_str());
    m.append(" invalid: ");
    m.append(err.as_str());
    m
}

/// Checks a candidate: its target file exists, its repaired diff parses and
/// applies to that file. Returns the patched text and the original.
fn check_candidate<'a>(files: &'a Vec<SourceFile>, c: &PatchCandidate) -> (r: std::result::Result<
    (String, &'a String),
    Diagnostic,
>)
    ensures
        match r {
            Ok((t, o)) => candidate_outcome(files@, *c) == CandidateOutcome::Patched(t@, o@),
            Err(d) => candidate_outcome(files@, *c) matches CandidateOutcome::Failed(ds)
                && diagnostic_is(d, ds.level, ds.category, ds.message),
        },
{
    let original = match lookup_file(files, &c.target_path) {
        Some(o) => o,
        None => {
            let mut m = String::from_str("Candidate ");
            m.append(c.id.as_str());
            m.append(" apply failed: target_path ");
            m.append(c.target_path.as_str());
            m.append(" is not among the files");
            return Err(PatchRefiner::diag(DiagnosticLevel::Error, DiagnosticCategory::PatchApply, m));
        },
    };
    let fixed = repair_diff(c.diff_content.as_str());
    let patch = match parse_unified_diff(fixed.as_str()) {
        Ok(p) => p,
        Err(e) => {
            let m = parse_failure_message("Candidate", &c.id, &e);
            return Err(PatchRefiner::diag(DiagnosticLevel::Error, DiagnosticCategory::PatchParse, m));
        },
    };
    match apply_patch(original.as_str(), &patch) {
        Ok(t) => Ok((t, original)),
        Err(e) => {
            let m = apply_failure_message(c.id.as_str(), e.as_str(), original.as_str());
            Err(PatchRefiner::diag(DiagnosticLevel::Error, DiagnosticCategory::PatchApply, m))
        },
    }
}

impl PatchRefiner {
    /// Syntactic mode: the first candidate whose repaired diff parses and
    /// applies to its target file is approved; when none does, the request
    /// fails. A warning says so when the caller runs no semantic check.
    pub fn evaluate_syntactic(files: &Vec<SourceFile>, candidates: &Vec<PatchCandidate>, no_checks: bool) -> (r: RefinementResponse)
        ensures
            syntactic_response(r, syntactic_start(no_checks), files@, candidates@),
    {
        let ghost start = syntactic_start(no_checks);
        let mut diagnostics: Vec<Diagnostic> = Vec::new();
        if no_checks {
            let m = String::from_str("No semantic checks enabled; approval is syntactic-only (parses + applies cleanly).");
            diagnostics.push(PatchRefiner::diag(DiagnosticLevel::Warning, DiagnosticCategory::Other, m));
        }
        let mut i: usize = 0;
        assert(candidates@.take(0) =~= Seq::<PatchCandidate>::empty());
        while i < candidates.len()
            invariant
                i <= candidates@.len(),
                start == syntactic_start(no_checks),
                syntactic_scan(start, files@, candidates@.take(i as int)).matched is None,
                diagnostics_are(diagnostics@, syntactic_scan(start, files@, candidates@.take(i as int)).diags),
            decreases candidates.len() - i,
        {
            proof {
                assert(candidates@.take(i + 1).drop_last() == candidates@.take(i as int));
                assert(candidates@.take(i + 1).last() == candidates@[i as int]);
            }
            match check_candidate(files, &candidates[i]) {
                Ok(_) => {
                    let mut r = PatchRefiner::response(ApplicationMode::SyntacticOnly, Decision::Approved, diagnostics);
                    r.selected_patch_id = Some(candidates[i].id.clone());
                    proof {
                        let prev = syntactic_scan(start, files@, candidates@.take(i as int));
                        assert(syntactic_scan(start, files@, candidates@.take(i + 1)) == syntactic_step(
                            prev,
                            files@,
                            i as int,
                            candidates@[i as int],
                        ));
                        lemma_syntactic_scan_settled(start, files@, candidates@, i as int + 1);
                        let sc = syntactic_scan(start, files@, candidates@);
                        assert(sc.matched == Some((i as int, 0int)));
                        assert(sc.diags == prev.diags);
                    }
                    return r;
                },
                Err(d) => {
                    diagnostics.push(d);
                },
            }
            i += 1;
        }
        assert(candidates@.take(candidates@.len() as int) == candidates@);
        PatchRefiner::response(ApplicationMode::SyntacticOnly, Decision::Failed, diagnostics)
    }
}

/// Once a scan has found its match, later candidates change nothing.
proof fn lemma_syntactic_scan_settled(start: Scan, files: Seq<SourceFile>, cs: Seq<PatchCandidate>, k: int)
    requires
        0 <= k <= cs.len(),
        syntactic_scan(start, files, cs.take(k)).matched is Some,
    ensures
        syntactic_scan(start, files, cs) == syntactic_scan(start, files, cs.take(k)),
    decreases cs.len() - k,
{
    if k < cs.len() {
        assert(cs.take(k + 1).drop_last() == cs.take(k));
        lemma_syntactic_scan_settled(start, files, cs, k + 1);
    } else {
        assert(cs.take(k) == cs);
    }
}


/// `r` is the evaluation of exemplar mode: the first candidate whose
/// patched text equals a patched reference with the same target is
/// approved, with that reference's reasoning; when none does, a rejection
/// with every comparison made, or, when no candidate even parsed and
/// applied, a failure.
pub open spec fn exemplar_result(
    r: Evaluation,
    mode: ApplicationMode,
    files: Seq<SourceFile>,
    cs: Seq<PatchCandidate>,
    ps: Seq<PerfectPatch>,
    ws: WhitespaceConfig,
) -> bool {
    let sc = exemplar_scan(files, cs, ps, ws);
    match sc.matched {
        Some((ci, pi)) => r matches Evaluation::Done(resp) && {
            &&& 0 <= ci < cs.len()
            &&& 0 <= pi < ps.len()
            &&& plain_response(resp, mode, Decision::Approved, sc.diags)
            &&& resp.selected_patch_id matches Some(id) && id@ == cs[ci].id@
            &&& resp.matched_perfect_patch_id matches Some(id) && id@ == ps[pi].id@
            &&& reason_view(resp.reasoning) == reason_view(ps[pi].reason)
        },
        None => if sc.patched {
            r matches Evaluation::Rejected(rej) && {
                &&& rej.mode == mode
                &&& diagnostics_are(rej.diagnostics@, sc.diags)
                &&& deviations_match(rej.comparisons@, sc.comparisons)
                &&& reasons_of(rej.reasons@, ps)
            }
        } else {
            r matches Evaluation::Done(resp) && {
                &&& plain_response(resp, mode, Decision::Failed, sc.diags)
                &&& resp.selected_patch_id is None
                &&& resp.matched_perfect_patch_id is None
                &&& resp.reasoning is None
            }
        },
    }
}

/// Comparing with references keeps whether a candidate parsed and applied.
pub proof fn lemma_perfects_fold_patched(
    sc: Scan,
    ci: int,
    c: PatchCandidate,
    ai: Seq<char>,
    original: Seq<char>,
    ps: Seq<PerfectPatch>,
    ws: WhitespaceConfig,
)
    ensures
        perfects_fold(sc, ci, c, ai, original, ps, ws).patched == sc.patched,
    decreases ps.len(),
{
    if ps.len() > 0 {
        lemma_perfects_fold_patched(sc, ci, c, ai, original, ps.drop_last(), ws);
    }
}

/// Once the comparisons of a candidate have found a match, later
/// references change nothing.
proof fn lemma_perfects_fold_settled(
    sc: Scan,
    ci: int,
    c: PatchCandidate,
    ai: Seq<char>,
    original: Seq<char>,
    ps: Seq<PerfectPatch>,
    ws: WhitespaceConfig,
    k: int,
)
    requires
        0 <= k <= ps.len(),
        perfects_fold(sc, ci, c, ai, original, ps.take(k), ws).matched is Some,
    ensures
        perfects_fold(sc, ci, c, ai, original, ps, ws) == perfects_fold(sc, ci, c, ai, original, ps.take(k), ws),
    decreases ps.len() - k,
{
    if k < ps.len() {
        assert(ps.take(k + 1).drop_last() == ps.take(k));
        lemma_perfects_fold_settled(sc, ci, c, ai, original, ps, ws, k + 1);
    } else {
        assert(ps.take(k) == ps);
    }
}

/// Once the exemplar scan has found a match, later candidates change
/// nothing.
proof fn lemma_exemplar_scan_settled(
    files: Seq<SourceFile>,
    cs: Seq<PatchCandidate>,
    ps: Seq<PerfectPatch>,
    ws: WhitespaceConfig,
    k: int,
)
    requires
        0 <= k <= cs.len(),
        exemplar_scan(files, cs.take(k), ps, ws).matched is Some,
    ensures
        exemplar_scan(files, cs, ps, ws) == exemplar_scan(files, cs.take(k), ps, ws),
    decreases cs.len() - k,
{
    if k < cs.len() {
        assert(cs.take(k + 1).drop_last() == cs.take(k));
        lemma_exemplar_scan_settled(files, cs, ps, ws, k + 1);
    } else {
        assert(cs.take(k) == cs);
    }
}

/// The ids and reasonings of the reference patches.
fn collect_reasons(ps: &Vec<PerfectPatch>) -> (r: Vec<(String, Option<Reason>)>)
    ensures
        reasons_of(r@, ps@),
{
    let mut r: Vec<(String, Option<Reason>)> = Vec::new();
    let mut i: usize = 0;
    while i < ps.len()
        invariant
            i <= ps@.len(),
            r@.len() == i,
            forall|k: int|
                0 <= k < i ==> (#[trigger] r@[k]).0@ == ps@[k].id@ && reason_view(r@[k].1)
                    == reason_view(ps@[k].reason),
        decreases ps.len() - i,
    {
        r.push((ps[i].id.clone(), copy_reason(&ps[i].reason)));
        i += 1;
    }
    r
}

impl PatchRefiner {
    /// Exemplar mode: each candidate that parses and applies is compared,
    /// after normalization, with each reference patch of the same target.
    /// The first equal pair approves the candidate with the reference's
    /// reasoning; when there is none, the request is rejected and every
    /// comparison is kept, for the closest to be picked by distance score;
    /// when no candidate parses and applies, the request fails.
    pub fn evaluate_exemplars(
        files: &Vec<SourceFile>,
        candidates: &Vec<PatchCandidate>,
        perfects: &Vec<PerfectPatch>,
        mode: ApplicationMode,
        ws: &WhitespaceConfig,
    ) -> (r: Evaluation)
        ensures
            exemplar_result(r, mode, files@, candidates@, perfects@, *ws),
    {
        let ghost fs = files@;
        let ghost cs = candidates@;
        let ghost ps = perfects@;
        let mut diagnostics: Vec<Diagnostic> = Vec::new();
        let mut comparisons: Vec<Deviation> = Vec::new();
        let mut any_patched = false;
        let mut i: usize = 0;
        assert(cs.take(0) =~= Seq::<PatchCandidate>::empty());
        while i < candidates.len()
            invariant
                fs == files@,
                cs == candidates@,
                ps == perfects@,
                i <= cs.len(),
                exemplar_scan(fs, cs.take(i as int), ps, *ws).matched is None,
                any_patched == exemplar_scan(fs, cs.take(i as int), ps, *ws).patched,
                diagnostics_are(diagnostics@, exemplar_scan(fs, cs.take(i as int), ps, *ws).diags),
                deviations_match(comparisons@, exemplar_scan(fs, cs.take(i as int), ps, *ws).comparisons),
            decreases candidates.len() - i,
        {
            let ghost sc_i = exemplar_scan(fs, cs.take(i as int), ps, *ws);
            proof {
                assert(cs.take(i + 1).drop_last() == cs.take(i as int));
                assert(cs.take(i + 1).last() == cs[i as int]);
            }
            let c = &candidates[i];
            match check_candidate(files, c) {
                Err(d) => {
                    diagnostics.push(d);
                },
                Ok((t, original)) => {
                    any_patched = true;
                    let ghost sc_p = Scan { patched: true, ..sc_i };
                    let ai = PatchRefiner::normalize_text(t.as_str(), ws);
                    let mut j: usize = 0;
                    assert(ps.take(0) =~= Seq::<PerfectPatch>::empty());
                    while j < perfects.len()
                        invariant
                            fs == files@,
                            cs == candidates@,
                            ps == perfects@,
                            i < cs.len(),
                            c == &cs[i as int],
                            j <= ps.len(),
                            sc_i == exemplar_scan(fs, cs.take(i as int), ps, *ws),
                            sc_i.matched is None,
                            sc_p == (Scan { patched: true, ..sc_i }),
                            candidate_outcome(fs, *c) == CandidateOutcome::Patched(t@, original@),
                            ai@ == normalized(t@, *ws),
                            perfects_fold(sc_p, i as int, *c, ai@, original@, ps.take(j as int), *ws).matched is None,
                            diagnostics_are(
                                diagnostics@,
                                perfects_fold(sc_p, i as int, *c, ai@, original@, ps.take(j as int), *ws).diags,
                            ),
                            deviations_match(
                                comparisons@,
                                perfects_fold(sc_p, i as int, *c, ai@, original@, ps.take(j as int), *ws).comparisons,
                            ),
                        decreases perfects.len() - j,
                    {
                        let ghost before = perfects_fold(sc_p, i as int, *c, ai@, original@, ps.take(j as int), *ws);
                        proof {
                            assert(ps.take(j + 1).drop_last() == ps.take(j as int));
                            assert(ps.take(j + 1).last() == ps[j as int]);
                        }
                        let p = &perfects[j];
                        if string_eq(&p.target_path, &c.target_path) {
                            let fixed = repair_diff(p.diff_content.as_str());
                            match parse_unified_diff(fixed.as_str()) {
                                Err(e) => {
                                    let m = parse_failure_message("Perfect patch", &p.id, &e);
                                    diagnostics.push(PatchRefiner::diag(DiagnosticLevel::Warning, DiagnosticCategory::PatchParse, m));
                                },
                                Ok(patch) => {
                                    match apply_patch(original.as_str(), &patch) {
                                        Err(e) => {
                                            let mut m = String::from_str("Perfect patch ");
                                            m.append(p.id.as_str());
                                            m.append(" apply failed: ");
                                            m.append(e.as_str());
                                            diagnostics.push(PatchRefiner::diag(DiagnosticLevel::Warning, DiagnosticCategory::PatchApply, m));
                                        },
                                        Ok(pt) => {
                                            let pr = PatchRefiner::normalize_text(pt.as_str(), ws);
                                            if string_eq(&ai, &pr) {
                                                let mut resp = PatchRefiner::response(mode, Decision::Approved, diagnostics);
                                                resp.selected_patch_id = Some(c.id.clone());
                                                resp.matched_perfect_patch_id = Some(p.id.clone());
                                                resp.reasoning = copy_reason(&p.reason);
                                                proof {
                                                    assert(perfects_fold(sc_p, i as int, *c, ai@, original@, ps.take(j + 1), *ws)
                                                        == perfect_step(before, i as int, *c, ai@, original@, j as int, ps[j as int], *ws));
                                                    assert(perfects_fold(sc_p, i as int, *c, ai@, original@, ps.take(j + 1), *ws).matched
                                                        == Some((i as int, j as int)));
                                                    lemma_perfects_fold_settled(sc_p, i as int, *c, ai@, original@, ps, *ws, j + 1);
                                                    assert(cs.take(i + 1).drop_last() == cs.take(i as int));
                                                    assert(cs.take(i + 1).last() == cs[i as int]);
                                                    assert(exemplar_scan(fs, cs.take(i + 1), ps, *ws) == candidate_step(
                                                        sc_i, fs, i as int, *c, ps, *ws));
                                                    lemma_exemplar_scan_settled(fs, cs, ps, *ws, i + 1);
                                                }
                                                return Evaluation::Done(resp);
                                            }
                                            let wd = WordDiff::new(ai.as_str(), pr.as_str());
                                            let diff_from_perfect = word_diff_display(&wd);
                                            let distance = compute_distance(&wd);
                                            comparisons.push(Deviation {
                                                candidate_id: c.id.clone(),
                                                closest_perfect_patch_id: p.id.clone(),
                                                diff_from_perfect,
                                                distance,
                                            });
                                        },
                                    }
                                },
                            }
                        }
                        j += 1;
                    }
                    proof {
                        assert(ps.take(ps.len() as int) == ps);
                        lemma_perfects_fold_patched(sc_p, i as int, *c, ai@, original@, ps, *ws);
                    }
                },
            }
            i += 1;
        }
        assert(cs.take(cs.len() as int) == cs);
        if !any_patched {
            return Evaluation::Done(PatchRefiner::response(mode, Decision::Failed, diagnostics));
        }
        let reasons = collect_reasons(perfects);
        Evaluation::Rejected(Rejection { mode, diagnostics, comparisons, reasons })
    }
}


/// The reasoning of the first reference patch with id `id`.
fn lookup_reason(reasons: &Vec<(String, Option<Reason>)>, id: &String) -> (r: Option<Reason>)
    ensures
        reason_view(r) == reason_for(reasons@, id@),
{
    let mut i: usize = 0;
    assert(reasons@.skip(0) == reasons@);
    while i < reasons.len()
        invariant
            i <= reasons@.len(),
            reason_for(reasons@, id@) == reason_for(reasons@.skip(i as int), id@),
        decreases reasons.len() - i,
    {
        assert(reasons@.skip(i as int)[0] == reasons@[i as int]);
        if string_eq(&reasons[i].0, id) {
            return copy_reason(&reasons[i].1);
        }
        assert(reasons@.skip(i as int).drop_first() == reasons@.skip(i + 1));
        i += 1;
    }
    None
}

impl PatchRefiner {
    /// The mode of a request: the configured override, else inferred from
    /// the number of reference patches (none: syntactic only; one: single
    /// exemplar; more: multi exemplar).
    pub fn resolve_mode(req: &RefinementRequest) -> (r: ApplicationMode)
        ensures
            r == mode_of(*req),
    {
        if let Some(cfg) = &req.config {
            if let Some(m) = cfg.mode_override {
                return m;
            }
        }
        let n = match &req.perfect_patches {
            Some(ps) => ps.len(),
            None => 0,
        };
        if n == 0 {
            ApplicationMode::SyntacticOnly
        } else if n == 1 {
            ApplicationMode::SingleExemplar
        } else {
            ApplicationMode::MultiExemplar
        }
    }

    /// The configuration of a request (the default when it has none),
    /// validated.
    pub fn resolve_config(req: &RefinementRequest) -> (r: Result<RefinementConfig>)
        ensures
            (config_error(*req) matches Some(RefineError::InvalidTimeout)) ==> (r matches Err(RefineError::InvalidTimeout)),
            (config_error(*req) matches Some(RefineError::MissingCompileCommand)) ==> (r matches Err(RefineError::MissingCompileCommand)),
            config_error(*req) is None ==> (r matches Ok(cfg) && config_is(cfg, *req)),
    {
        let config = match &req.config {
            Some(c) => c.copy(),
            None => RefinementConfig::default_config(),
        };
        match config.semantic_checks.validate() {
            Ok(()) => {},
            Err(e) => return Err(e),
        }
        match config.whitespace.validate() {
            Ok(()) => {},
            Err(e) => return Err(e),
        }
        Ok(config)
    }

    /// Checks a request before evaluation: its schema version, when given,
    /// is the supported one, and its configuration is valid.
    pub fn check_request(req: &RefinementRequest) -> (r: Result<()>)
        ensures
            schema_mismatch(*req) ==> (r matches Err(RefineError::SchemaVersionMismatch { got, expected })
                && opt_view_is(req.schema_version, got@) && expected@ == SCHEMA_VERSION@),
            !schema_mismatch(*req) && (config_error(*req) matches Some(RefineError::InvalidTimeout))
                ==> (r matches Err(RefineError::InvalidTimeout)),
            !schema_mismatch(*req) && (config_error(*req) matches Some(RefineError::MissingCompileCommand))
                ==> (r matches Err(RefineError::MissingCompileCommand)),
            !schema_mismatch(*req) && config_error(*req) is None ==> r is Ok,
    {
        if let Some(sv) = &req.schema_version {
            if !string_eq_str(sv, SCHEMA_VERSION) {
                return Err(RefineError::SchemaVersionMismatch {
                    got: sv.clone(),
                    expected: String::from_str(SCHEMA_VERSION),
                });
            }
        }
        match PatchRefiner::resolve_config(req) {
            Ok(_) => Ok(()),
            Err(e) => Err(e),
        }
    }

    /// Evaluates a request. In syntactic mode the first candidate that
    /// parses and applies is approved; in exemplar modes a candidate is
    /// approved when its patched text equals that of a reference patch,
    /// else the request is rejected with every comparison made.
    pub fn evaluate(req: RefinementRequest) -> (r: Result<Evaluation>)
        ensures
            schema_mismatch(req) ==> (r matches Err(RefineError::SchemaVersionMismatch { got, expected })
                && opt_view_is(req.schema_version, got@) && expected@ == SCHEMA_VERSION@),
            !schema_mismatch(req) && (config_error(req) matches Some(RefineError::InvalidTimeout))
                ==> (r matches Err(RefineError::InvalidTimeout)),
            !schema_mismatch(req) && (config_error(req) matches Some(RefineError::MissingCompileCommand))
                ==> (r matches Err(RefineError::MissingCompileCommand)),
            !schema_mismatch(req) && config_error(req) is None ==> (r matches Ok(ev) && evaluation_of(ev, req)),
    {
        match PatchRefiner::check_request(&req) {
            Ok(()) => {},
            Err(e) => return Err(e),
        }
        let config = match PatchRefiner::resolve_config(&req) {
            Ok(c) => c,
            Err(e) => return Err(e),
        };
        let mode = PatchRefiner::resolve_mode(&req);
        let no_checks = !config.semantic_checks.run_compile_check && !config.semantic_checks.run_tests;
        if mode == ApplicationMode::SyntacticOnly {
            return Ok(Evaluation::Done(PatchRefiner::evaluate_syntactic(&req.files, &req.candidates, no_checks)));
        }
        let empty: Vec<PerfectPatch> = Vec::new();
        let perfects = match &req.perfect_patches {
            Some(ps) => ps,
            None => &empty,
        };
        Ok(PatchRefiner::evaluate_exemplars(&req.files, &req.candidates, perfects, mode, &config.whitespace))
    }

    /// Completes a rejection with the comparison picked as closest (none
    /// when no comparison was made): it becomes the deviation, and the
    /// reasoning of the first reference patch with its id becomes the
    /// reasoning.
    pub fn finish_rejection(rej: Rejection, closest: Option<usize>) -> (r: RefinementResponse)
        requires
            closest matches Some(k) ==> k < rej.comparisons@.len(),
        ensures
            r.schema_version@ == SCHEMA_VERSION@,
            r.mode == rej.mode,
            r.decision == Decision::Rejected,
            r.diagnostics@ == rej.diagnostics@,
            r.selected_patch_id is None,
            r.matched_perfect_patch_id is None,
            match closest {
                Some(k) => r.deviations == Some(rej.comparisons@[k as int]) && reason_view(r.reasoning)
                    == reason_for(rej.reasons@, rej.comparisons@[k as int].closest_perfect_patch_id@),
                None => r.deviations is None && r.reasoning is None,
            },
    {
        let Rejection { mode, diagnostics, mut comparisons, reasons } = rej;
        let mut resp = PatchRefiner::response(mode, Decision::Rejected, diagnostics);
        if let Some(k) = closest {
            let dev = comparisons.remove(k);
            resp.reasoning = lookup_reason(&reasons, &dev.closest_perfect_patch_id);
            resp.deviations = Some(dev);
        }
        resp
    }
}

/// `ev` is the evaluation of a valid request, in the mode it resolves to.
pub open spec fn evaluation_of(ev: Evaluation, req: RefinementRequest) -> bool {
    if mode_of(req) == ApplicationMode::SyntacticOnly {
        ev matches Evaluation::Done(resp) && syntactic_response(
            resp,
            syntactic_start(no_semantic_checks(req)),
            req.files@,
            req.candidates@,
        )
    } else {
        exemplar_result(ev, mode_of(req), req.files@, req.candidates@, perfects_of(req), whitespace_of(req))
    }
}

/// The optional string `s` holds `v`.
pub open spec fn opt_view_is(s: Option<String>, v: Seq<char>) -> bool {
    s matches Some(x) && x@ == v
}

} // verus!
