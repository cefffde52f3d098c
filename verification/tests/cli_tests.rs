use patch_refiner::checkers::{
    command_words, compile_command, compile_diagnostics, CompileChecker, SemanticChecker,
};
use patch_refiner::cli::{apply_cli_options, default_commands, parse_mode, CliOptions};
use patch_refiner::models::{
    ApplicationMode, DiagnosticCategory, DiagnosticLevel, RefineError, RefinementConfig,
    SemanticChecksConfig,
};

#[test]
fn default_commands_per_language() {
    let (c, t) = default_commands("rust");
    assert_eq!((c.as_str(), t.as_str()), ("cargo build", "cargo test"));
    let (c, t) = default_commands("bash");
    assert_eq!((c.as_str(), t.as_str()), ("bash -n", "bats *.bats"));
    let (c, t) = default_commands("markdown");
    assert_eq!((c.as_str(), t.as_str()), ("true", "mdl ."));
    let (c, t) = default_commands("cobol");
    assert_eq!((c.as_str(), t.as_str()), ("", ""));
}

#[test]
fn parse_mode_is_case_insensitive() {
    assert!(matches!(parse_mode("SYNTACTIC_ONLY"), Ok(ApplicationMode::SyntacticOnly)));
    assert!(matches!(parse_mode("single_exemplar"), Ok(ApplicationMode::SingleExemplar)));
    assert!(matches!(parse_mode("Multi_Exemplar"), Ok(ApplicationMode::MultiExemplar)));
    match parse_mode("Fast") {
        Err(RefineError::InvalidMode(m)) => assert_eq!(m, "fast"),
        _ => panic!("expected an invalid mode"),
    }
}

#[test]
fn cli_options_override_the_configuration() {
    let opts = CliOptions {
        mode: Some("multi_exemplar".to_string()),
        ignore_whitespace: Some(false),
        language: Some("bash".to_string()),
    };
    let mut base = RefinementConfig::default_config();
    base.semantic_checks.run_compile_check = true;
    base.semantic_checks.run_tests = true;
    base.semantic_checks.test_command = Some("make check".to_string());
    let cfg = apply_cli_options(Some(base), &opts).expect("valid options");
    assert_eq!(cfg.mode_override, Some(ApplicationMode::MultiExemplar));
    assert!(!cfg.whitespace.ignore_whitespace);
    assert_eq!(cfg.semantic_checks.compile_command.as_deref(), Some("bash -n"));
    assert_eq!(cfg.semantic_checks.test_command.as_deref(), Some("make check"));
}

#[test]
fn cli_options_reject_an_unknown_mode() {
    let opts = CliOptions { mode: Some("Other".to_string()), ignore_whitespace: None, language: None };
    match apply_cli_options(None, &opts) {
        Err(RefineError::InvalidMode(m)) => assert_eq!(m, "other"),
        _ => panic!("expected an invalid mode"),
    }
}

#[test]
fn cli_options_keep_the_default_without_options() {
    let opts = CliOptions { mode: None, ignore_whitespace: None, language: None };
    let cfg = apply_cli_options(None, &opts).expect("valid options");
    assert_eq!(cfg.mode_override, None);
    assert!(cfg.whitespace.ignore_whitespace);
    assert_eq!(cfg.semantic_checks.timeout_secs, Some(30));
    assert!(cfg.semantic_checks.compile_command.is_none());
}

#[test]
fn compile_command_defaults() {
    let mut cfg = SemanticChecksConfig::default_config();
    assert!(compile_command(&cfg).is_none());
    cfg.run_compile_check = true;
    cfg.timeout_secs = None;
    let (cmd, t) = compile_command(&cfg).expect("a command");
    assert_eq!(cmd, "cargo build");
    assert_eq!(t, 30);
    cfg.compile_command = Some("make".to_string());
    cfg.timeout_secs = Some(5);
    let (cmd, t) = compile_command(&cfg).expect("a command");
    assert_eq!((cmd.as_str(), t), ("make", 5));
}

#[test]
fn compile_diagnostics_per_outcome() {
    assert!(compile_diagnostics(Ok((true, "ok".to_string()))).is_empty());
    let d = compile_diagnostics(Ok((false, "error[E0308]".to_string())));
    assert_eq!(d.len(), 1);
    assert_eq!(d[0].level, DiagnosticLevel::Error);
    assert_eq!(d[0].category, DiagnosticCategory::Compile);
    assert_eq!(d[0].message, "error[E0308]");
    let d = compile_diagnostics(Err("no such program".to_string()));
    assert_eq!(d[0].message, "Compile check error: no such program");
}

#[test]
fn command_words_split_on_whitespace() {
    assert_eq!(command_words("  cargo   build --release\t"), vec!["cargo", "build", "--release"]);
    assert!(command_words("   ").is_empty());
}

#[test]
fn compile_checker_reports_nothing_itself() {
    let checker = CompileChecker;
    assert_eq!(checker.name(), "compile");
    let mut cfg = SemanticChecksConfig::default_config();
    cfg.run_compile_check = true;
    assert!(checker.check("a", "b", &cfg).is_empty());
}

#[test]
fn semantic_config_validation_errors() {
    let mut cfg = SemanticChecksConfig::default_config();
    assert!(cfg.validate().is_ok());
    cfg.timeout_secs = Some(0);
    assert!(matches!(cfg.validate(), Err(RefineError::InvalidTimeout)));
    cfg.timeout_secs = Some(1);
    cfg.run_compile_check = true;
    assert!(matches!(cfg.validate(), Err(RefineError::MissingCompileCommand)));
}
