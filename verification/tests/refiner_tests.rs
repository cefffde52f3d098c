use patch_refiner::models::{
    ApplicationMode, Decision, DiagnosticCategory, DiagnosticLevel, PatchCandidate, PerfectPatch,
    Reason, ReasonDetail, RefineError, RefinementConfig, RefinementRequest, SourceFile,
    WhitespaceConfig, SCHEMA_VERSION,
};
use patch_refiner::refiner::{
    apply_failure_message, Evaluation, PatchRefiner, MAX_ORIGINAL_CODE_SNIPPET_CHARS,
};

fn request() -> RefinementRequest {
    RefinementRequest {
        schema_version: None,
        files: Vec::new(),
        candidates: Vec::new(),
        perfect_patches: None,
        problem_statement: None,
        config: None,
    }
}

fn file(path: &str, content: &str) -> SourceFile {
    SourceFile { path: path.to_string(), content: content.to_string() }
}

fn candidate(id: &str, diff: &str, path: &str) -> PatchCandidate {
    PatchCandidate { id: id.to_string(), diff_content: diff.to_string(), target_path: path.to_string() }
}

fn perfect(id: &str, diff: &str, path: &str, reason: Option<Reason>) -> PerfectPatch {
    PerfectPatch {
        id: id.to_string(),
        diff_content: diff.to_string(),
        target_path: path.to_string(),
        reason,
    }
}

const ORIGINAL: &str = "fn main() {\n    old();\n}\n";
const TO_NEW: &str =
    "--- a/foo.rs\n+++ b/foo.rs\n@@ -1,3 +1,3 @@\n fn main() {\n-    old();\n+    new();\n }\n";
const TO_OTHER: &str =
    "--- a/foo.rs\n+++ b/foo.rs\n@@ -1,3 +1,3 @@\n fn main() {\n-    old();\n+    other();\n }\n";
const NOT_MATCHING: &str =
    "--- a/foo.rs\n+++ b/foo.rs\n@@ -1,3 +1,3 @@\n fn nothing_here() {\n-    old();\n+    new();\n }\n";

#[test]
fn test_normalize_text_ignore_whitespace() {
    let cfg = WhitespaceConfig { ignore_whitespace: false, normalize_line_endings: true };
    let input = "line\t1  \r\n  line\t 2\rline  3\n";
    let output = PatchRefiner::normalize_text(input, &cfg);
    assert_eq!(output, "line\t1  \n  line\t 2\nline  3\n");
}

#[test]
fn normalize_text_trims_each_line_when_whitespace_is_ignored() {
    let cfg = WhitespaceConfig { ignore_whitespace: true, normalize_line_endings: true };
    let output = PatchRefiner::normalize_text("  a  \r\n\tb\t\n", &cfg);
    assert_eq!(output, "a\nb");
    let keep = WhitespaceConfig { ignore_whitespace: false, normalize_line_endings: false };
    assert_eq!(PatchRefiner::normalize_text("a\r\nb", &keep), "a\r\nb");
}

#[test]
fn test_resolve_mode() {
    let mut req = request();
    assert_eq!(PatchRefiner::resolve_mode(&req), ApplicationMode::SyntacticOnly);
    req.perfect_patches = Some(Vec::new());
    assert_eq!(PatchRefiner::resolve_mode(&req), ApplicationMode::SyntacticOnly);
    req.perfect_patches.as_mut().map(|p| {
        p.push(perfect(
            "",
            "",
            "",
            Some(Reason { summary: String::new(), details: Vec::new() }),
        ))
    });
    assert_eq!(PatchRefiner::resolve_mode(&req), ApplicationMode::SingleExemplar);
    req.perfect_patches.as_mut().map(|p| p[0].reason.take());
    assert_eq!(PatchRefiner::resolve_mode(&req), ApplicationMode::SingleExemplar);
    let mut cfg = RefinementConfig::default_config();
    cfg.mode_override = Some(ApplicationMode::SingleExemplar);
    req.config = Some(cfg);
    assert_eq!(PatchRefiner::resolve_mode(&req), ApplicationMode::SingleExemplar);
}

#[test]
fn resolve_mode_counts_reference_patches() {
    let mut req = request();
    req.perfect_patches = Some(vec![perfect("p1", "", "", None), perfect("p2", "", "", None)]);
    assert_eq!(PatchRefiner::resolve_mode(&req), ApplicationMode::MultiExemplar);
    let mut cfg = RefinementConfig::default_config();
    cfg.mode_override = Some(ApplicationMode::SyntacticOnly);
    req.config = Some(cfg);
    assert_eq!(PatchRefiner::resolve_mode(&req), ApplicationMode::SyntacticOnly);
}

#[test]
fn apply_failure_diagnostic_includes_original_code_snippet() {
    let original = "fn marker_unique_snippet() {\n    1\n}\n";
    let diff = "--- a/file.rs\n+++ b/file.rs\n@@ -1,3 +1,3 @@\n fn does_not_match() {\n-    1\n+    2\n }\n";
    let files = vec![file("file.rs", original)];
    let candidates = vec![candidate("c1", diff, "file.rs")];
    let config = RefinementConfig::default_config();
    let no_checks =
        !config.semantic_checks.run_compile_check && !config.semantic_checks.run_tests;

    let resp = PatchRefiner::evaluate_syntactic(&files, &candidates, no_checks);
    let msg = &resp
        .diagnostics
        .iter()
        .find(|d| d.category == DiagnosticCategory::PatchApply)
        .expect("expected an apply-failure diagnostic")
        .message;
    assert!(
        msg.contains("marker_unique_snippet"),
        "diagnostic message should contain a snippet of the real original_code, got: {msg}"
    );

    let ev = PatchRefiner::evaluate_exemplars(
        &files,
        &candidates,
        &Vec::new(),
        ApplicationMode::SingleExemplar,
        &config.whitespace,
    );
    let diagnostics = match ev {
        Evaluation::Rejected(rej) => rej.diagnostics,
        Evaluation::Done(resp) => resp.diagnostics,
    };
    let msg2 = &diagnostics
        .iter()
        .find(|d| d.category == DiagnosticCategory::PatchApply)
        .expect("expected an apply-failure diagnostic")
        .message;
    assert!(
        msg2.contains("marker_unique_snippet"),
        "diagnostic message should contain a snippet of the real original_code, got: {msg2}"
    );
}

#[test]
fn apply_failure_message_caps_the_snippet() {
    let long: String = std::iter::repeat('x').take(5000).collect();
    let m = apply_failure_message("c9", "boom", &long);
    let prefix = "Candidate c9 apply failed: boom\n\nCurrent original_code:\n";
    assert!(m.starts_with(prefix));
    assert_eq!(m.len(), prefix.len() + MAX_ORIGINAL_CODE_SNIPPET_CHARS);
}

#[test]
fn syntactic_mode_approves_first_applicable_candidate() {
    let files = vec![file("foo.rs", ORIGINAL)];
    let candidates = vec![
        candidate("bad", NOT_MATCHING, "foo.rs"),
        candidate("good", TO_NEW, "foo.rs"),
        candidate("also", TO_OTHER, "foo.rs"),
    ];
    let resp = PatchRefiner::evaluate_syntactic(&files, &candidates, true);
    assert_eq!(resp.schema_version, SCHEMA_VERSION);
    assert_eq!(resp.mode, ApplicationMode::SyntacticOnly);
    assert_eq!(resp.decision, Decision::Approved);
    assert_eq!(resp.selected_patch_id.as_deref(), Some("good"));
    assert_eq!(resp.diagnostics.len(), 2);
    assert_eq!(resp.diagnostics[0].level, DiagnosticLevel::Warning);
    assert_eq!(resp.diagnostics[0].category, DiagnosticCategory::Other);
    assert_eq!(resp.diagnostics[1].category, DiagnosticCategory::PatchApply);
}

#[test]
fn syntactic_mode_fails_when_no_candidate_applies() {
    let files = vec![file("foo.rs", ORIGINAL)];
    let candidates = vec![
        candidate("bad", NOT_MATCHING, "foo.rs"),
        candidate("elsewhere", TO_NEW, "missing.rs"),
    ];
    let resp = PatchRefiner::evaluate_syntactic(&files, &candidates, false);
    assert_eq!(resp.decision, Decision::Failed);
    assert!(resp.selected_patch_id.is_none());
    assert_eq!(resp.diagnostics[0].category, DiagnosticCategory::PatchApply);
    assert_eq!(
        resp.diagnostics[1].message,
        "Candidate elsewhere apply failed: target_path missing.rs is not among the files"
    );
}

#[test]
fn exemplar_mode_approves_candidate_equal_to_reference() {
    let files = vec![file("foo.rs", ORIGINAL)];
    let candidates = vec![candidate("c1", TO_OTHER, "foo.rs"), candidate("c2", TO_NEW, "foo.rs")];
    let reason = Reason {
        summary: "rename".to_string(),
        details: vec![ReasonDetail {
            hunk_index: Some(0),
            start_line: Some(1),
            end_line: Some(3),
            text: "calls new".to_string(),
            tag: None,
        }],
    };
    let perfects = vec![perfect("p1", TO_NEW, "foo.rs", Some(reason))];
    let ws = WhitespaceConfig::default_config();
    match PatchRefiner::evaluate_exemplars(&files, &candidates, &perfects, ApplicationMode::SingleExemplar, &ws) {
        Evaluation::Done(resp) => {
            assert_eq!(resp.decision, Decision::Approved);
            assert_eq!(resp.selected_patch_id.as_deref(), Some("c2"));
            assert_eq!(resp.matched_perfect_patch_id.as_deref(), Some("p1"));
            assert_eq!(resp.reasoning.expect("reasoning").summary, "rename");
        }
        Evaluation::Rejected(_) => panic!("expected an approval"),
    }
}

#[test]
fn exemplar_mode_rejects_and_keeps_every_comparison() {
    let files = vec![file("foo.rs", ORIGINAL)];
    let candidates = vec![candidate("c1", TO_OTHER, "foo.rs")];
    let perfects = vec![
        perfect("p1", TO_NEW, "foo.rs", None),
        perfect("p2", TO_NEW, "other.rs", None),
    ];
    let ws = WhitespaceConfig::default_config();
    match PatchRefiner::evaluate_exemplars(&files, &candidates, &perfects, ApplicationMode::MultiExemplar, &ws) {
        Evaluation::Rejected(rej) => {
            assert_eq!(rej.mode, ApplicationMode::MultiExemplar);
            assert_eq!(rej.comparisons.len(), 1);
            assert_eq!(rej.comparisons[0].candidate_id, "c1");
            assert_eq!(rej.comparisons[0].closest_perfect_patch_id, "p1");
            assert_eq!(rej.reasons.len(), 2);
            let resp = PatchRefiner::finish_rejection(rej, Some(0));
            assert_eq!(resp.decision, Decision::Rejected);
            let dev = resp.deviations.expect("deviation");
            assert_eq!(dev.closest_perfect_patch_id, "p1");
            assert!(resp.reasoning.is_none());
        }
        Evaluation::Done(_) => panic!("expected a rejection"),
    }
}

#[test]
fn evaluate_rejects_another_schema_version() {
    let mut req = request();
    req.schema_version = Some("1.0".to_string());
    match PatchRefiner::evaluate(req) {
        Err(RefineError::SchemaVersionMismatch { got, expected }) => {
            assert_eq!(got, "1.0");
            assert_eq!(expected, "2.0");
        }
        _ => panic!("expected a schema mismatch"),
    }
}

#[test]
fn evaluate_rejects_invalid_configurations() {
    let mut req = request();
    let mut cfg = RefinementConfig::default_config();
    cfg.semantic_checks.timeout_secs = Some(0);
    req.config = Some(cfg);
    assert!(matches!(PatchRefiner::evaluate(req), Err(RefineError::InvalidTimeout)));

    let mut req = request();
    let mut cfg = RefinementConfig::default_config();
    cfg.semantic_checks.run_compile_check = true;
    req.config = Some(cfg);
    assert!(matches!(PatchRefiner::check_request(&req), Err(RefineError::MissingCompileCommand)));
}

#[test]
fn evaluate_runs_the_syntactic_mode() {
    let mut req = request();
    req.schema_version = Some("2.0".to_string());
    req.files = vec![file("foo.rs", ORIGINAL)];
    req.candidates = vec![candidate("c1", TO_NEW, "foo.rs")];
    match PatchRefiner::evaluate(req) {
        Ok(Evaluation::Done(resp)) => {
            assert_eq!(resp.decision, Decision::Approved);
            assert_eq!(resp.selected_patch_id.as_deref(), Some("c1"));
        }
        _ => panic!("expected an approval"),
    }
}

#[test]
fn exemplar_mode_fails_when_no_candidate_applies() {
    let files = vec![file("foo.rs", ORIGINAL)];
    let candidates = vec![
        candidate("bad", NOT_MATCHING, "foo.rs"),
        candidate("elsewhere", TO_NEW, "missing.rs"),
    ];
    let perfects = vec![perfect("p1", TO_NEW, "foo.rs", None)];
    let ws = WhitespaceConfig::default_config();
    match PatchRefiner::evaluate_exemplars(&files, &candidates, &perfects, ApplicationMode::SingleExemplar, &ws) {
        Evaluation::Done(resp) => {
            assert_eq!(resp.decision, Decision::Failed);
            assert!(resp.selected_patch_id.is_none());
            assert!(resp.matched_perfect_patch_id.is_none());
            assert!(resp.deviations.is_none());
            assert!(resp.reasoning.is_none());
            assert_eq!(resp.diagnostics.len(), 2);
            assert_eq!(resp.diagnostics[0].level, DiagnosticLevel::Error);
            assert_eq!(resp.diagnostics[0].category, DiagnosticCategory::PatchApply);
            assert_eq!(resp.diagnostics[1].category, DiagnosticCategory::PatchApply);
        }
        Evaluation::Rejected(_) => panic!("expected a failure"),
    }
}

#[test]
fn finish_rejection_without_comparison_has_no_deviation() {
    let files = vec![file("foo.rs", ORIGINAL), file("bar.rs", ORIGINAL)];
    let candidates = vec![candidate("c1", TO_NEW, "foo.rs")];
    let perfects = vec![perfect("p1", TO_NEW, "bar.rs", None)];
    let ws = WhitespaceConfig::default_config();
    match PatchRefiner::evaluate_exemplars(&files, &candidates, &perfects, ApplicationMode::SingleExemplar, &ws) {
        Evaluation::Rejected(rej) => {
            assert!(rej.comparisons.is_empty());
            let resp = PatchRefiner::finish_rejection(rej, None);
            assert_eq!(resp.decision, Decision::Rejected);
            assert!(resp.deviations.is_none());
            assert!(resp.diagnostics.is_empty());
        }
        Evaluation::Done(_) => panic!("expected a rejection"),
    }
}

#[test]
fn normalizing_twice_gives_the_same_text() {
    let keep = WhitespaceConfig { ignore_whitespace: false, normalize_line_endings: true };
    let once = PatchRefiner::normalize_text("a\r\nb\rc\r\r\n", &keep);
    assert!(!once.contains('\r'));
    assert_eq!(PatchRefiner::normalize_text(&once, &keep), once);

    let trim = WhitespaceConfig { ignore_whitespace: true, normalize_line_endings: true };
    let once = PatchRefiner::normalize_text("  a \r\n b\t", &trim);
    assert_eq!(once, "a\nb");
    assert_eq!(PatchRefiner::normalize_text(&once, &trim), once);
    // a trailing line break is where trimming is not idempotent
    let once = PatchRefiner::normalize_text("a\n\n", &trim);
    assert_eq!(once, "a\n");
    assert_eq!(PatchRefiner::normalize_text(&once, &trim), "a");
}
