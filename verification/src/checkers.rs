//! Semantic checks that a caller may run on an approved candidate, and the
//! decisions around running a compile command.
use vstd::prelude::*;
use crate::models::{
    copy_string, diagnostic_is, Diagnostic, DiagnosticCategory, DiagnosticLevel,
    SemanticChecksConfig,
};
use crate::refiner::PatchRefiner;
use crate::text::{chars_of, is_whitespace, is_whitespace_char, string_from};

verus! {

/// A semantic check on a patched text, implemented by callers.
pub trait SemanticChecker {
    /// The name of the check.
    fn name(&self) -> &str;

    /// The diagnostics of the check on `patched_code`, patched from
    /// `original_code`.
    fn check(&self, original_code: &str, patched_code: &str, config: &SemanticChecksConfig) -> Vec<
        Diagnostic,
    >;
}

/// The compile check. Running the compile command is the caller's part
/// (see `compile_command` and `compile_diagnostics`); the check itself
/// reports nothing.
pub struct CompileChecker;

impl SemanticChecker for CompileChecker {
    fn name(&self) -> (r: &str)
        ensures
            r@ == "compile"@,
    {
        "compile"
    }

    fn check(&self, original_code: &str, patched_code: &str, config: &SemanticChecksConfig) -> (r: Vec<
        Diagnostic,
    >)
        ensures
            r@.len() == 0,
    {
        if !config.run_compile_check {
            return Vec::new();
        }
        Vec::new()
    }
}

/// The command and timeout of the compile check: none when no compile
/// check is asked for; else the configured command (`"cargo build"` when
/// none is configured) and timeout (30 seconds when none is configured).
pub fn compile_command(config: &SemanticChecksConfig) -> (r: Option<(String, u64)>)
    ensures
        !config.run_compile_check ==> r is None,
        config.run_compile_check ==> (r matches Some((cmd, timeout)) && cmd@ == match config.compile_command {
            Some(c) => c@,
            None => "cargo build"@,
        } && timeout == match config.timeout_secs {
            Some(t) => t,
            None => 30,
        }),
{
    if !config.run_compile_check {
        return None;
    }
    let cmd = match &config.compile_command {
        Some(c) => copy_string(c),
        None => String::from_str("cargo build"),
    };
    let timeout = match config.timeout_secs {
        Some(t) => t,
        None => 30,
    };
    Some((cmd, timeout))
}

/// The diagnostics of a compile run: its outcome is whether the command
/// succeeded and its error output, or why it could not be run. A failed
/// build is reported with its error output; a run that could not be made
/// is reported as `"Compile check error: {e}"`; a successful build gives
/// nothing.
pub fn compile_diagnostics(outcome: std::result::Result<(bool, String), String>) -> (r: Vec<Diagnostic>)
    ensures
        match outcome {
            Ok((true, _)) => r@.len() == 0,
            Ok((false, output)) => r@.len() == 1 && diagnostic_is(
                r@[0],
                DiagnosticLevel::Error,
                DiagnosticCategory::Compile,
                output@,
            ),
            Err(e) => r@.len() == 1 && diagnostic_is(
                r@[0],
                DiagnosticLevel::Error,
                DiagnosticCategory::Compile,
                "Compile check error: "@ + e@,
            ),
        },
{
    let mut r: Vec<Diagnostic> = Vec::new();
    match outcome {
        Ok((success, output)) => {
            if !success {
                r.push(PatchRefiner::diag(DiagnosticLevel::Error, DiagnosticCategory::Compile, output));
            }
        },
        Err(e) => {
            let mut m = String::from_str("Compile check error: ");
            m.append(e.as_str());
            r.push(PatchRefiner::diag(DiagnosticLevel::Error, DiagnosticCategory::Compile, m));
        },
    }
    r
}

/// The whitespace-separated words of `s` (`str::split_whitespace`).
pub open spec fn words(s: Seq<char>) -> Seq<Seq<char>>
    decreases s.len(),
{
    if s.len() == 0 {
        seq![]
    } else {
        let w = words(s.drop_last());
        let c = s.last();
        if is_whitespace(c) {
            w
        } else if s.len() >= 2 && !is_whitespace(s[s.len() - 2]) && w.len() > 0 {
            w.update(w.len() - 1, w.last().push(c))
        } else {
            w.push(seq![c])
        }
    }
}

/// The words of a command line: the program and its arguments.
pub fn command_words(cmd: &str) -> (r: Vec<String>)
    ensures
        r@.map_values(|w: String| w@) == words(cmd@),
{
    let s = chars_of(cmd);
    let mut out: Vec<String> = Vec::new();
    let mut cur: Vec<char> = Vec::new();
    let mut i: usize = 0;
    while i < s.len()
        invariant
            i <= s@.len(),
            cur@.len() > 0 ==> i > 0 && !is_whitespace(s@[i - 1]),
            i > 0 && !is_whitespace(s@[i - 1]) ==> cur@.len() > 0,
            (if cur@.len() > 0 {
                out@.map_values(|w: String| w@).push(cur@)
            } else {
                out@.map_values(|w: String| w@)
            }) == words(s@.take(i as int)),
        decreases s.len() - i,
    {
        let c = s[i];
        let ghost prev_out = out@.map_values(|w: String| w@);
        let ghost prev_cur = cur@;
        proof {
            assert(s@.take(i + 1).drop_last() == s@.take(i as int));
            assert(s@.take(i + 1).last() == c);
            if i > 0 {
                assert(s@.take(i + 1)[i - 1] == s@[i - 1]);
            }
        }
        if is_whitespace_char(c) {
            if cur.len() > 0 {
                out.push(string_from(&cur));
                cur = Vec::new();
                assert(out@.map_values(|w: String| w@) =~= prev_out.push(prev_cur));
            }
        } else {
            cur.push(c);
            proof {
                if prev_cur.len() > 0 {
                    assert(prev_out.push(prev_cur).update(prev_out.len() as int, prev_cur.push(c))
                        =~= prev_out.push(cur@));
                } else {
                    assert(cur@ =~= seq![c]);
                }
            }
        }
        i += 1;
    }
    let ghost prev_out = out@.map_values(|w: String| w@);
    if cur.len() > 0 {
        out.push(string_from(&cur));
        assert(out@.map_values(|w: String| w@) =~= prev_out.push(cur@));
    }
    assert(s@.take(s@.len() as int) == s@);
    out
}

} // verus!
