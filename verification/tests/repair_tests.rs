use diffy::{apply, Patch};
use patch_refiner::refiner::PatchRefiner;
use patch_refiner::repair::repair_context_lines;

#[test]
fn repair_context_lines_adds_missing_leading_space() {
    let broken = "--- a/foo.rs\n+++ b/foo.rs\n@@ -1,3 +1,3 @@\n fn main() {\n-    old();\n+    new();\n}\n";
    let repaired = PatchRefiner::repair_context_lines(broken);
    let expected = "--- a/foo.rs\n+++ b/foo.rs\n@@ -1,3 +1,3 @@\n fn main() {\n-    old();\n+    new();\n }\n";
    assert_eq!(repaired, expected);

    let patch = Patch::from_str(&repaired).expect("repaired diff should parse");
    let original = "fn main() {\n    old();\n}\n";
    let applied = apply(original, &patch).expect("repaired diff should apply");
    assert_eq!(applied, "fn main() {\n    new();\n}\n");
}

#[test]
fn repair_context_lines_leaves_correct_diff_unchanged() {
    let correct = "--- a/foo.rs\n+++ b/foo.rs\n@@ -1,3 +1,3 @@\n fn main() {\n-    old();\n+    new();\n }\n";
    let repaired = PatchRefiner::repair_context_lines(correct);
    assert_eq!(repaired, correct, "an already-correct diff must be returned unchanged");

    let patch = Patch::from_str(&repaired).expect("correct diff should parse");
    let original = "fn main() {\n    old();\n}\n";
    let applied = apply(original, &patch).expect("correct diff should apply");
    assert_eq!(applied, "fn main() {\n    new();\n}\n");
}

#[test]
fn repair_context_lines_fixes_wrong_hunk_header_counts() {
    let broken = "--- a/foo.rs\n+++ b/foo.rs\n@@ -1,2 +1,2 @@\n fn main() {\n-    old();\n+    new();\n+    extra();\n }\n";
    let repaired = PatchRefiner::repair_context_lines(broken);
    let expected = "--- a/foo.rs\n+++ b/foo.rs\n@@ -1,3 +1,4 @@\n fn main() {\n-    old();\n+    new();\n+    extra();\n }\n";
    assert_eq!(repaired, expected);

    let patch = Patch::from_str(&repaired).expect("repaired diff should parse");
    let original = "fn main() {\n    old();\n}\n";
    let applied = apply(original, &patch).expect("repaired diff should apply");
    assert_eq!(applied, "fn main() {\n    new();\n    extra();\n}\n");
}

#[test]
fn repair_context_lines_leaves_correct_hunk_header_unchanged() {
    let correct = "--- a/foo.rs\n+++ b/foo.rs\n@@ -1,3 +1,4 @@\n fn main() {\n-    old();\n+    new();\n+    extra();\n }\n";
    let repaired = PatchRefiner::repair_context_lines(correct);
    assert_eq!(
        repaired, correct,
        "an already-correct hunk header must be returned byte-for-byte unchanged"
    );

    let patch = Patch::from_str(&repaired).expect("correct diff should parse");
    let original = "fn main() {\n    old();\n}\n";
    let applied = apply(original, &patch).expect("correct diff should apply");
    assert_eq!(applied, "fn main() {\n    new();\n    extra();\n}\n");
}

#[test]
fn repair_keeps_the_header_text_after_the_ranges() {
    let broken = "--- a/foo.rs\n+++ b/foo.rs\n@@ -1,9 +1,9 @@ fn main() {\n fn main() {\n-    old();\n+    new();\n }\n";
    let expected = "--- a/foo.rs\n+++ b/foo.rs\n@@ -1,3 +1,3 @@ fn main() {\n fn main() {\n-    old();\n+    new();\n }\n";
    assert_eq!(repair_context_lines(broken), expected);
}

#[test]
fn repair_is_idempotent_on_an_example() {
    let broken = "--- a/foo.rs\n+++ b/foo.rs\n@@ -1,2 +1,2 @@\n fn main() {\n-    old();\n+    new();\n}\n";
    let once = repair_context_lines(broken);
    let twice = repair_context_lines(&once);
    assert_eq!(once, twice);
}

#[test]
fn repair_of_text_without_hunks_is_identity() {
    let text = "just some text\nwithout any hunk\n";
    assert_eq!(repair_context_lines(text), text);
    assert_eq!(repair_context_lines(""), "");
}

#[test]
fn repair_keeps_crlf_line_endings_byte_for_byte() {
    let d = "--- a/f\r\n+++ b/f\r\n@@ -1 +1 @@\r\n-x\r\n+y\r\n";
    assert_eq!(repair_context_lines(d), d);
    let broken = "--- a/f\r\n+++ b/f\r\n@@ -1,5 +1,5 @@\r\n a\r\n-x\r\n+y\r\nb\r\n";
    let expected = "--- a/f\r\n+++ b/f\r\n@@ -1,3 +1,3 @@\r\n a\r\n-x\r\n+y\r\n b\r\n";
    assert_eq!(repair_context_lines(broken), expected);
}

#[test]
fn repair_twice_is_repair_once_even_with_doubled_carriage_returns() {
    let diff = "--- a/x\n+++ b/x\n@@ -1 +1 @@\n-a\r\r\n+b\n";
    let once = repair_context_lines(diff);
    assert_eq!(once, diff);
    assert_eq!(repair_context_lines(&once), once);
    let unterminated = "--- a/x\n+++ b/x\n@@ -1 +1 @@\n-a\n+b\r";
    let once = repair_context_lines(unterminated);
    assert_eq!(repair_context_lines(&once), once);
}
