//! The decisions of the command-line front end: per-language default
//! commands, the `--mode` values, and how command-line options override the
//! request's configuration.
use vstd::prelude::*;
use crate::models::{
    copy_opt_string, copy_string, opt_view, ApplicationMode, RefineError, RefinementConfig, Result,
};
use crate::text::{chars_eq, chars_of};

verus! {

/// The lower-case form of a text (`str::to_lowercase`, Unicode case
/// mapping).
pub uninterp spec fn lowercase(s: Seq<char>) -> Seq<char>;

/// `str::to_lowercase`: the Unicode lower-case mapping of `s`. The mapping
/// tables are not restated; the contract ties the result to the text.
#[verifier::external_body]
fn to_lowercase(s: &str) -> (r: String)
    ensures
        r@ == lowercase(s@),
{
    s.to_lowercase()
}

/// Whether `a` is the text `b`.
fn str_is(a: &str, b: &str) -> (r: bool)
    ensures
        r == (a@ == b@),
{
    let x = chars_of(a);
    let y = chars_of(b);
    chars_eq(&x, &y)
}

/// The compile and test commands of a language: Rust, Bash and Markdown
/// have defaults; any other language has empty commands.
pub fn default_commands(language: &str) -> (r: (String, String))
    ensures
        language@ == "rust"@ ==> r.0@ == "cargo build"@ && r.1@ == "cargo test"@,
        language@ != "rust"@ && language@ == "bash"@ ==> r.0@ == "bash -n"@ && r.1@
            == "bats *.bats"@,
        language@ != "rust"@ && language@ != "bash"@ && language@ == "markdown"@ ==> r.0@
            == "true"@ && r.1@ == "mdl ."@,
        language@ != "rust"@ && language@ != "bash"@ && language@ != "markdown"@ ==> r.0@
            == ""@ && r.1@ == ""@,
{
    if str_is(language, "rust") {
        (String::from_str("cargo build"), String::from_str("cargo test"))
    } else if str_is(language, "bash") {
        (String::from_str("bash -n"), String::from_str("bats *.bats"))
    } else if str_is(language, "markdown") {
        (String::from_str("true"), String::from_str("mdl ."))
    } else {
        (String::from_str(""), String::from_str(""))
    }
}

/// The mode a `--mode` value names (compared in lower case); any other
/// value is refused with the lower-cased value.
pub fn parse_mode(value: &str) -> (r: Result<ApplicationMode>)
    ensures
        lowercase(value@) == "syntactic_only"@ ==> r matches Ok(ApplicationMode::SyntacticOnly),
        lowercase(value@) == "single_exemplar"@ ==> r matches Ok(ApplicationMode::SingleExemplar),
        lowercase(value@) == "multi_exemplar"@ ==> r matches Ok(ApplicationMode::MultiExemplar),
        lowercase(value@) != "syntactic_only"@ && lowercase(value@) != "single_exemplar"@
            && lowercase(value@) != "multi_exemplar"@ ==> (r matches Err(RefineError::InvalidMode(
            m,
        )) && m@ == lowercase(value@)),
{
    let lower = to_lowercase(value);
    proof {
        lemma_mode_names_distinct();
    }
    if str_is(lower.as_str(), "syntactic_only") {
        Ok(ApplicationMode::SyntacticOnly)
    } else if str_is(lower.as_str(), "single_exemplar") {
        Ok(ApplicationMode::SingleExemplar)
    } else if str_is(lower.as_str(), "multi_exemplar") {
        Ok(ApplicationMode::MultiExemplar)
    } else {
        Err(RefineError::InvalidMode(lower))
    }
}

/// The three mode names differ.
proof fn lemma_mode_names_distinct()
    ensures
        "syntactic_only"@ != "single_exemplar"@,
        "syntactic_only"@ != "multi_exemplar"@,
        "single_exemplar"@ != "multi_exemplar"@,
{
    reveal_strlit("syntactic_only");
    reveal_strlit("single_exemplar");
    reveal_strlit("multi_exemplar");
    assert("syntactic_only"@[0] != "multi_exemplar"@[0]);
    assert("syntactic_only"@.len() != "single_exemplar"@.len());
    assert("single_exemplar"@.len() != "multi_exemplar"@.len());
}

/// The command-line options that override a request's configuration.
pub struct CliOptions {
    pub mode: Option<String>,
    pub ignore_whitespace: Option<bool>,
    pub language: Option<String>,
}

/// The language whose default commands apply: the command-line one, else
/// the configured one, else none (the empty text).
pub open spec fn effective_language(opts: CliOptions, config: RefinementConfig) -> Seq<char> {
    match opts.language {
        Some(l) => l@,
        None => match config.language {
            Some(l) => l@,
            None => ""@,
        },
    }
}

/// The configuration after the command-line options: `--ignore-whitespace`
/// sets whether whitespace is ignored; a compile or test check without a
/// command gets the effective language's default command; `--mode` sets the
/// mode. An invalid `--mode` value is refused.
pub fn apply_cli_options(config: Option<RefinementConfig>, opts: &CliOptions) -> (r: Result<RefinementConfig>)
    ensures
        ({
            let base = match config {
                Some(c) => c,
                None => RefinementConfig {
                    mode_override: None,
                    language: None,
                    file_path: None,
                    semantic_checks: crate::models::SemanticChecksConfig {
                        run_compile_check: false,
                        run_tests: false,
                        compile_command: None,
                        test_command: None,
                        timeout_secs: Some(30),
                    },
                    whitespace: crate::models::WhitespaceConfig {
                        ignore_whitespace: true,
                        normalize_line_endings: true,
                    },
                },
            };
            let lang = effective_language(*opts, base);
            match opts.mode {
                Some(m) if !(lowercase(m@) == "syntactic_only"@ || lowercase(m@) == "single_exemplar"@
                    || lowercase(m@) == "multi_exemplar"@) => r matches Err(RefineError::InvalidMode(v))
                    && v@ == lowercase(m@),
                _ => r matches Ok(c) && {
                    &&& c.whitespace.ignore_whitespace == match opts.ignore_whitespace {
                        Some(v) => v,
                        None => base.whitespace.ignore_whitespace,
                    }
                    &&& c.whitespace.normalize_line_endings == base.whitespace.normalize_line_endings
                    &&& c.semantic_checks.run_compile_check == base.semantic_checks.run_compile_check
                    &&& c.semantic_checks.run_tests == base.semantic_checks.run_tests
                    &&& c.semantic_checks.timeout_secs == base.semantic_checks.timeout_secs
                    &&& opt_view(c.semantic_checks.compile_command) == if base.semantic_checks.run_compile_check
                        && base.semantic_checks.compile_command is None {
                        Some(default_compile_command(lang))
                    } else {
                        opt_view(base.semantic_checks.compile_command)
                    }
                    &&& opt_view(c.semantic_checks.test_command) == if base.semantic_checks.run_tests
                        && base.semantic_checks.test_command is None {
                        Some(default_test_command(lang))
                    } else {
                        opt_view(base.semantic_checks.test_command)
                    }
                    &&& opt_view(c.language) == opt_view(base.language)
                    &&& opt_view(c.file_path) == opt_view(base.file_path)
                    &&& c.mode_override == match opts.mode {
                        Some(m) => Some(
                            if lowercase(m@) == "syntactic_only"@ {
                                ApplicationMode::SyntacticOnly
                            } else if lowercase(m@) == "single_exemplar"@ {
                                ApplicationMode::SingleExemplar
                            } else {
                                ApplicationMode::MultiExemplar
                            },
                        ),
                        None => base.mode_override,
                    }
                },
            }
        }),
{
    let mut config = match config {
        Some(c) => c,
        None => RefinementConfig::default_config(),
    };
    if let Some(v) = opts.ignore_whitespace {
        config.whitespace.ignore_whitespace = v;
    }
    let lang = match &opts.language {
        Some(l) => copy_string(l),
        None => match &config.language {
            Some(l) => copy_string(l),
            None => String::from_str(""),
        },
    };
    let (default_compile, default_test) = default_commands(lang.as_str());
    if config.semantic_checks.run_compile_check && config.semantic_checks.compile_command.is_none() {
        config.semantic_checks.compile_command = Some(default_compile);
    }
    if config.semantic_checks.run_tests && config.semantic_checks.test_command.is_none() {
        config.semantic_checks.test_command = Some(default_test);
    }
    if let Some(m) = &opts.mode {
        match parse_mode(m.as_str()) {
            Ok(mode) => {
                config.mode_override = Some(mode);
            },
            Err(e) => return Err(e),
        }
    }
    Ok(config)
}

/// The default compile command of a language.
pub open spec fn default_compile_command(lang: Seq<char>) -> Seq<char> {
    if lang == "rust"@ {
        "cargo build"@
    } else if lang == "bash"@ {
        "bash -n"@
    } else if lang == "markdown"@ {
        "true"@
    } else {
        ""@
    }
}

/// The default test command of a language.
pub open spec fn default_test_command(lang: Seq<char>) -> Seq<char> {
    if lang == "rust"@ {
        "cargo test"@
    } else if lang == "bash"@ {
        "bats *.bats"@
    } else if lang == "markdown"@ {
        "mdl ."@
    } else {
        ""@
    }
}

} // verus!
