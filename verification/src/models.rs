//! The request and response model of patch refinement.
use vstd::prelude::*;
use crate::distance::Distance;

verus! {

/// The schema version this library reads and writes.
pub const SCHEMA_VERSION: &'static str = "2.0";

/// What can go wrong before any candidate is looked at.
#[derive(Debug)]
pub enum RefineError {
    /// An unknown `--mode` value.
    InvalidMode(String),
    /// The request names another schema version.
    SchemaVersionMismatch { got: String, expected: String },
    /// A patch does not parse.
    PatchParse(String),
    /// A patch does not apply.
    PatchApply(String),
    /// The first weight must be greater than the second.
    InvalidLanguageWeights(String, String),
    /// A command ran out of time.
    CommandTimedOut,
    /// `timeout_secs` is zero.
    InvalidTimeout,
    /// A compile check was asked for without a compile command.
    MissingCompileCommand,
    /// A command with nothing to run.
    EmptyCommand,
}

/// The result type of this library.
pub type Result<T> = std::result::Result<T, RefineError>;

/// A file the patches apply to: its path and its content.
pub struct SourceFile {
    pub path: String,
    pub content: String,
}

/// A refinement request. `files` lists each file once, keyed by path.
pub struct RefinementRequest {
    pub schema_version: Option<String>,
    pub files: Vec<SourceFile>,
    pub candidates: Vec<PatchCandidate>,
    pub perfect_patches: Option<Vec<PerfectPatch>>,
    pub problem_statement: Option<String>,
    pub config: Option<RefinementConfig>,
}

/// The configuration of a request.
pub struct RefinementConfig {
    pub mode_override: Option<ApplicationMode>,
    pub language: Option<String>,
    pub file_path: Option<String>,
    pub semantic_checks: SemanticChecksConfig,
    pub whitespace: WhitespaceConfig,
}

/// Which semantic checks the caller runs on an approved candidate.
pub struct SemanticChecksConfig {
    pub run_compile_check: bool,
    pub run_tests: bool,
    pub compile_command: Option<String>,
    pub test_command: Option<String>,
    pub timeout_secs: Option<u64>,
}

/// How whitespace is treated when patched texts are compared.
#[derive(Clone, Copy)]
pub struct WhitespaceConfig {
    pub ignore_whitespace: bool,
    pub normalize_line_endings: bool,
}

/// An AI-generated patch candidate.
pub struct PatchCandidate {
    pub id: String,
    pub diff_content: String,
    /// The path in `files` this diff applies to.
    pub target_path: String,
}

/// A reference patch.
pub struct PerfectPatch {
    pub id: String,
    pub diff_content: String,
    /// The path in `files` this diff applies to.
    pub target_path: String,
    pub reason: Option<Reason>,
}

/// The reasoning behind a reference patch.
pub struct Reason {
    pub summary: String,
    pub details: Vec<ReasonDetail>,
}

/// One point of a reasoning.
pub struct ReasonDetail {
    pub hunk_index: Option<usize>,
    pub start_line: Option<usize>,
    pub end_line: Option<usize>,
    pub text: String,
    pub tag: Option<String>,
}

/// How candidates are judged.
#[derive(Clone, Copy, PartialEq, Eq, Structural, Debug)]
pub enum ApplicationMode {
    SyntacticOnly,
    SingleExemplar,
    MultiExemplar,
}

/// The verdict on a request.
#[derive(Clone, Copy, PartialEq, Eq, Structural, Debug)]
pub enum Decision {
    Approved,
    Rejected,
    Failed,
}

/// How the closest candidate differs from the closest reference patch.
pub struct Deviation {
    pub candidate_id: String,
    pub closest_perfect_patch_id: String,
    pub diff_from_perfect: String,
    /// The weight classes of the changed text on each side; the distance
    /// score weighs them with the language weights.
    pub distance: Distance,
}

/// One diagnostic.
pub struct Diagnostic {
    pub level: DiagnosticLevel,
    pub category: DiagnosticCategory,
    pub message: String,
    pub location: Option<SourceLocation>,
}

/// The severity of a diagnostic.
#[derive(Clone, Copy, PartialEq, Eq, Structural, Debug)]
pub enum DiagnosticLevel {
    Info,
    Warning,
    Error,
}

/// What a diagnostic is about.
#[derive(Clone, Copy, PartialEq, Eq, Structural, Debug)]
pub enum DiagnosticCategory {
    PatchParse,
    PatchApply,
    Compile,
    Test,
    Similarity,
    Other,
}

/// Where a diagnostic points.
pub struct SourceLocation {
    pub file: Option<String>,
    pub line: Option<usize>,
    pub column: Option<usize>,
}

/// The answer to a request.
pub struct RefinementResponse {
    pub schema_version: String,
    pub mode: ApplicationMode,
    pub decision: Decision,
    pub selected_patch_id: Option<String>,
    pub matched_perfect_patch_id: Option<String>,
    pub deviations: Option<Deviation>,
    pub reasoning: Option<Reason>,
    pub diagnostics: Vec<Diagnostic>,
}

// ---------------------------------------------------------------------------
// Views used by the contracts
// ---------------------------------------------------------------------------

/// The view of a reasoning detail.
pub struct ReasonDetailView {
    pub hunk_index: Option<usize>,
    pub start_line: Option<usize>,
    pub end_line: Option<usize>,
    pub text: Seq<char>,
    pub tag: Option<Seq<char>>,
}

/// The view of a reasoning.
pub struct ReasonView {
    pub summary: Seq<char>,
    pub details: Seq<ReasonDetailView>,
}

/// The view of an optional string.
pub open spec fn opt_view(s: Option<String>) -> Option<Seq<char>> {
    match s {
        Some(x) => Some(x@),
        None => None,
    }
}

impl View for ReasonDetail {
    type V = ReasonDetailView;

    open spec fn view(&self) -> ReasonDetailView {
        ReasonDetailView {
            hunk_index: self.hunk_index,
            start_line: self.start_line,
            end_line: self.end_line,
            text: self.text@,
            tag: opt_view(self.tag),
        }
    }
}

impl View for Reason {
    type V = ReasonView;

    open spec fn view(&self) -> ReasonView {
        ReasonView {
            summary: self.summary@,
            details: self.details@.map_values(|d: ReasonDetail| d@),
        }
    }
}

/// The view of an optional reasoning.
pub open spec fn reason_view(r: Option<Reason>) -> Option<ReasonView> {
    match r {
        Some(x) => Some(x@),
        None => None,
    }
}

/// The view of a diagnostic: level, category and message, with no location.
pub open spec fn diagnostic_is(
    d: Diagnostic,
    level: DiagnosticLevel,
    category: DiagnosticCategory,
    message: Seq<char>,
) -> bool {
    d.level == level && d.category == category && d.message@ == message && d.location is None
}

// ---------------------------------------------------------------------------
// Copies and defaults
// ---------------------------------------------------------------------------

/// A copy of a string.
pub fn copy_string(s: &String) -> (r: String)
    ensures
        r@ == s@,
{
    s.clone()
}

/// A copy of an optional string.
pub fn copy_opt_string(s: &Option<String>) -> (r: Option<String>)
    ensures
        opt_view(r) == opt_view(*s),
{
    match s {
        Some(x) => Some(x.clone()),
        None => None,
    }
}

impl ReasonDetail {
    /// A copy of the detail.
    pub fn copy(&self) -> (r: ReasonDetail)
        ensures
            r@ == self@,
    {
        ReasonDetail {
            hunk_index: self.hunk_index,
            start_line: self.start_line,
            end_line: self.end_line,
            text: self.text.clone(),
            tag: copy_opt_string(&self.tag),
        }
    }
}

impl Reason {
    /// A copy of the reasoning.
    pub fn copy(&self) -> (r: Reason)
        ensures
            r@ == self@,
    {
        let mut details: Vec<ReasonDetail> = Vec::new();
        let mut i: usize = 0;
        while i < self.details.len()
            invariant
                i <= self.details@.len(),
                details@.len() == i,
                forall|k: int| 0 <= k < i ==> (#[trigger] details@[k])@ == self.details@[k]@,
            decreases self.details.len() - i,
        {
            details.push(self.details[i].copy());
            i += 1;
        }
        let r = Reason { summary: self.summary.clone(), details };
        assert(r@.details =~= self@.details);
        r
    }
}

/// A copy of an optional reasoning.
pub fn copy_reason(r: &Option<Reason>) -> (c: Option<Reason>)
    ensures
        reason_view(c) == reason_view(*r),
{
    match r {
        Some(x) => Some(x.copy()),
        None => None,
    }
}

impl SemanticChecksConfig {
    /// The default: no checks, a 30 second timeout.
    pub fn default_config() -> (r: SemanticChecksConfig)
        ensures
            !r.run_compile_check,
            !r.run_tests,
            r.compile_command is None,
            r.test_command is None,
            r.timeout_secs == Some(30u64),
    {
        SemanticChecksConfig {
            run_compile_check: false,
            run_tests: false,
            compile_command: None,
            test_command: None,
            timeout_secs: Some(30),
        }
    }

    /// Checks the configuration: a timeout, when given, is not zero, and a
    /// compile check comes with a compile command.
    pub fn validate(&self) -> (r: Result<()>)
        ensures
            self.timeout_secs == Some(0u64) ==> r matches Err(RefineError::InvalidTimeout),
            self.timeout_secs != Some(0u64) && self.run_compile_check && self.compile_command is None
                ==> r matches Err(RefineError::MissingCompileCommand),
            self.timeout_secs != Some(0u64) && !(self.run_compile_check
                && self.compile_command is None) ==> r is Ok,
    {
        if let Some(timeout) = self.timeout_secs {
            if timeout == 0 {
                return Err(RefineError::InvalidTimeout);
            }
        }
        if self.run_compile_check && self.compile_command.is_none() {
            return Err(RefineError::MissingCompileCommand);
        }
        Ok(())
    }

    /// A copy of the configuration.
    pub fn copy(&self) -> (r: SemanticChecksConfig)
        ensures
            r.run_compile_check == self.run_compile_check,
            r.run_tests == self.run_tests,
            opt_view(r.compile_command) == opt_view(self.compile_command),
            opt_view(r.test_command) == opt_view(self.test_command),
            r.timeout_secs == self.timeout_secs,
    {
        SemanticChecksConfig {
            run_compile_check: self.run_compile_check,
            run_tests: self.run_tests,
            compile_command: copy_opt_string(&self.compile_command),
            test_command: copy_opt_string(&self.test_command),
            timeout_secs: self.timeout_secs,
        }
    }
}

impl WhitespaceConfig {
    /// The default: whitespace ignored, line endings normalized.
    pub fn default_config() -> (r: WhitespaceConfig)
        ensures
            r.ignore_whitespace,
            r.normalize_line_endings,
    {
        WhitespaceConfig { ignore_whitespace: true, normalize_line_endings: true }
    }

    /// Every whitespace configuration is valid.
    pub fn validate(&self) -> (r: Result<()>)
        ensures
            r is Ok,
    {
        Ok(())
    }
}

impl RefinementConfig {
    /// The default configuration.
    pub fn default_config() -> (r: RefinementConfig)
        ensures
            r.mode_override is None,
            r.language is None,
            r.file_path is None,
            !r.semantic_checks.run_compile_check,
            !r.semantic_checks.run_tests,
            r.semantic_checks.compile_command is None,
            r.semantic_checks.test_command is None,
            r.semantic_checks.timeout_secs == Some(30u64),
            r.whitespace.ignore_whitespace,
            r.whitespace.normalize_line_endings,
    {
        RefinementConfig {
            mode_override: None,
            language: None,
            file_path: None,
            semantic_checks: SemanticChecksConfig::default_config(),
            whitespace: WhitespaceConfig::default_config(),
        }
    }

    /// A copy of the configuration.
    pub fn copy(&self) -> (r: RefinementConfig)
        ensures
            r.mode_override == self.mode_override,
            opt_view(r.language) == opt_view(self.language),
            opt_view(r.file_path) == opt_view(self.file_path),
            r.semantic_checks.run_compile_check == self.semantic_checks.run_compile_check,
            r.semantic_checks.run_tests == self.semantic_checks.run_tests,
            opt_view(r.semantic_checks.compile_command) == opt_view(
                self.semantic_checks.compile_command,
            ),
            opt_view(r.semantic_checks.test_command) == opt_view(self.semantic_checks.test_command),
            r.semantic_checks.timeout_secs == self.semantic_checks.timeout_secs,
            r.whitespace == self.whitespace,
    {
        RefinementConfig {
            mode_override: self.mode_override,
            language: copy_opt_string(&self.language),
            file_path: copy_opt_string(&self.file_path),
            semantic_checks: self.semantic_checks.copy(),
            whitespace: self.whitespace,
        }
    }
}

} // verus!
