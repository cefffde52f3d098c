use patch_refiner::counters::{evaluate, Counters};
use patch_refiner::distance::hypothesis_score;
use patch_refiner::lexer::{ChangeSet, WeightClass};

#[test]
fn empty_string_literal_resolves_immediately_without_buffering() {
    let mut cs = ChangeSet::new();
    cs.reset(0);

    cs.handle_part("\"");
    assert_eq!(cs.section(), "\"", "opening quote should open the string section");
    assert!(
        cs.buffer().is_empty(),
        "opening quote of an empty string must resolve immediately, not buffer"
    );

    cs.handle_part("\"");
    assert_eq!(cs.section(), "", "closing quote should close the string section back to code");
    assert!(
        cs.buffer().is_empty(),
        "closing quote of an empty string must resolve immediately, not buffer"
    );

    assert_eq!(cs.run_len(), 1, "empty string literal must not spawn alternate hypotheses");
    let (_, unexpected) = evaluate(cs.run(0).counters());
    assert_eq!(unexpected, 0, "empty string literal must not be flagged as unexpected");
}

#[test]
fn empty_string_literal_closes_immediately() {
    let mut cs = ChangeSet::new();
    cs.handle_part("\"");
    assert_eq!(cs.section(), "\"");
    cs.handle_part("\"");
    assert_eq!(cs.section(), "");
    assert!(cs.buffer().is_empty());
}

#[test]
fn hash_inside_plain_string_is_not_buffered_as_raw_open() {
    let mut cs = ChangeSet::new();
    cs.handle_part("\"");
    cs.handle_part("#");
    assert!(cs.buffer().is_empty(), "'#' inside a plain string must not be buffered");
    assert_eq!(cs.section(), "\"");
}

#[test]
fn raw_string_open_and_close_still_resolve() {
    let mut cs = ChangeSet::new();
    cs.handle_part("#");
    cs.handle_part("\"");
    assert_eq!(cs.section(), "#\"");
    cs.handle_part("x");
    cs.handle_part("\"");
    cs.handle_part("#");
    cs.finalize();
    assert_eq!(cs.section(), "\"#");
}

#[test]
fn block_comment_close_still_resolves() {
    let mut cs = ChangeSet::new();
    cs.handle_part("/");
    cs.handle_part("*");
    cs.finalize();
    assert_eq!(cs.section(), "/*");
    cs.handle_part("*");
    cs.handle_part("/");
    assert_eq!(cs.section(), "");
}

#[test]
fn evaluate_prefers_clean_close_over_higher_ratio() {
    let mut messy_but_clean = Counters::new();
    messy_but_clean.insert("expected:code_punct", 1);
    messy_but_clean.insert("unexpected:code_word", 5);

    let mut tidy_but_open = Counters::new();
    tidy_but_open.insert("expected:code_punct", 10);
    tidy_but_open.insert("unexpected:code_word", 0);

    let (e1, u1) = evaluate(&messy_but_clean);
    let (e2, u2) = evaluate(&tidy_but_open);
    let clean_score = hypothesis_score(true, e1, u1);
    let open_score = hypothesis_score(false, e2, u2);
    assert!(
        clean_score.outranks(&open_score),
        "a cleanly-closed hypothesis must outrank a higher-ratio one that's still open"
    );
}

#[test]
fn comment_body_content_is_now_counted() {
    let mut cs = ChangeSet::new();
    cs.handle_part("/");
    cs.handle_part("/");
    cs.handle_part("hello");
    assert_eq!(
        cs.get_counter("expected:comment_content"),
        1,
        "comment body content must not be silently dropped"
    );
}

#[test]
fn rawstring_body_content_is_now_counted() {
    let mut cs = ChangeSet::new();
    cs.handle_part("#");
    cs.handle_part("\"");
    cs.handle_part("hello");
    assert_eq!(cs.get_counter("expected:rawstring_content"), 1);
}

#[test]
fn stray_block_comment_close_is_detected_as_runaway() {
    let mut cs = ChangeSet::new();
    cs.handle_part("*");
    cs.handle_part("/");
    assert_eq!(cs.run_len(), 2, "a stray '*/' in code must register a runaway hypothesis");
    assert_eq!(cs.run(1).record(), "/*");
}

#[test]
fn multiplication_does_not_falsely_trigger_runaway() {
    let mut cs = ChangeSet::new();
    cs.handle_part("a");
    cs.handle_part("*");
    cs.handle_part("b");
    assert_eq!(
        cs.run_len(),
        1,
        "ordinary multiplication must not push a spurious runaway hypothesis"
    );
}

#[test]
fn quote_open_still_commits_immediately_after_this_fix() {
    let mut cs = ChangeSet::new();
    cs.handle_part("\"");
    assert_eq!(cs.section(), "\"", "a lone quote must still open a plain string directly, not buffer");
    assert!(cs.buffer().is_empty());
}

#[test]
fn code_words_are_weighed_as_code() {
    let mut cs = ChangeSet::new();
    let w = cs.handle_part("let");
    assert!(w.iter().all(|c| *c == WeightClass::Code));
    assert!(!w.is_empty());
    assert!(cs.in_code());
}

#[test]
fn comment_words_are_weighed_as_comment() {
    let mut cs = ChangeSet::new();
    cs.handle_part("/");
    cs.handle_part("/");
    let w = cs.handle_part("hello");
    assert!(!w.is_empty());
    assert!(w.iter().all(|c| *c == WeightClass::Comment));
    assert!(!cs.in_code());
}

#[test]
fn reset_clears_the_counters_of_the_hypothesis() {
    let mut cs = ChangeSet::new();
    cs.handle_part("/");
    cs.handle_part("/");
    cs.handle_part("hello");
    assert_eq!(cs.get_counter("expected:comment_content"), 1);
    cs.reset(0);
    assert_eq!(cs.get_counter("expected:comment_content"), 0);
    assert_eq!(cs.section(), "");
}

#[test]
fn counters_saturate_and_sum_by_prefix() {
    let mut c = Counters::new();
    c.insert("expected:a", 3);
    c.insert("expected:b", 4);
    c.insert("unexpected:c", 2);
    c.insert("other", 100);
    assert_eq!(evaluate(&c), (7, 2));
    assert_eq!(c.get("expected:b"), 4);
    assert_eq!(c.get("missing"), 0);
    c.insert("expected:a", usize::MAX);
    assert_eq!(c.get("expected:a"), usize::MAX);
    assert_eq!(evaluate(&c).0, usize::MAX);
}
