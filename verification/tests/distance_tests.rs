use diffy::{create_patch, DiffOptions};
use patch_refiner::distance::{compute_distance, word_diff_display, Distance, WordDiff};
use patch_refiner::lexer::WeightClass;

fn weight(c: &WeightClass) -> f64 {
    match c {
        WeightClass::Code => 1.0,
        WeightClass::StringLiteral => 0.1,
        WeightClass::Comment => 0.05,
    }
}

fn score(d: &Distance) -> f64 {
    let removed: f64 = d.removed.iter().fold(0.0, |acc, c| acc + weight(c));
    let inserted: f64 = d.inserted.iter().fold(0.0, |acc, c| acc + weight(c));
    removed + inserted
}

fn distance_between(a: &str, b: &str) -> f64 {
    let diff = WordDiff::new(a, b);
    score(&compute_distance(&diff))
}

#[test]
fn test_compute_distance() {
    let original = "a\nb\n";
    let modified = original.to_string() + "c\n";

    let perfect = create_patch(original, &modified).to_string();
    assert_eq!(distance_between(&perfect, &perfect), 0.0);

    let generated = "--- orig\n+++ mod\n@@ -2,4 +2,4 @@\n a\n b\n+c\n\n";
    assert_eq!(distance_between(&perfect, generated), 12.0);
}

#[test]
fn runaway_strings_in_diff() {
    let original = r####"\
    /*
    fn main() {
        let marker = r"###";
        let string_literal = r##"{
            "start marker: ": "r#+\"",
            "end marker: ": "\"#+r",
            "escape": {
                "string":"#+r",
                "condition": "# repetition is less than outer markers"
            }
        }"##;
        println!("###result: {string_literal} ###");
    }
    */

    // this_is a stub
    // to test runaway element
    // evaluation

"####;
    let mods = [
        [
            original.replace("println", "eprintln"),
            original.replace("println!(\"###r", "println!(\"### R"),
        ],
        [original.replace("// this_is", "// This"), original.replace("stub", "test.")],
        [
            original.replace("// this_is a", "// This"),
            original.replace("// evaluation", "// evaluation."),
        ],
    ];
    let mut options = DiffOptions::new();
    for i in 0..20 {
        options.set_context_len(i);
        for [modified1, modified2] in mods.iter() {
            let choice1 = options.create_patch(original, modified1).to_string();
            let choice2 = options.create_patch(original, modified2).to_string();
            let distance1 = distance_between(&choice1, &choice2);
            let distance2 = distance_between(&choice2, &choice1);
            assert!(
                (distance1 - distance2).abs() < 1.0,
                "{choice1}\n-- vs --\n{choice2}\n-- {distance1} vs {distance2}\n"
            );
        }
    }
}

#[test]
fn empty_string_literal_in_real_diff_does_not_misfire_runaway() {
    let a = r#"let s = "";"#;
    let b = r#"let s = "x";"#;
    let _ = distance_between(a, b);
}

#[test]
fn end_to_end_stray_block_comment_close_produces_finite_distance() {
    let a = "fn f() { let x = 1; }";
    let b = "fn f() { let x = 1; */ }";
    let d = distance_between(a, b);
    assert!(d.is_finite());
}

#[test]
fn identical_texts_are_at_distance_zero() {
    let d = compute_distance(&WordDiff::new("let x = 1;", "let x = 1;"));
    assert!(d.removed.is_empty());
    assert!(d.inserted.is_empty());
}

#[test]
fn changed_code_word_weighs_as_code() {
    let d = compute_distance(&WordDiff::new("let x = 1;", "let y = 1;"));
    assert!(!d.removed.is_empty());
    assert!(!d.inserted.is_empty());
    assert!(d.removed.iter().all(|c| *c == WeightClass::Code));
    assert!(d.inserted.iter().all(|c| *c == WeightClass::Code));
}

#[test]
fn word_diff_display_differs_from_its_input() {
    let diff = WordDiff::new("alpha beta", "alpha gamma");
    let shown = word_diff_display(&diff);
    assert!(shown.contains("alpha"));
    assert_ne!(shown, "alpha beta");
}
