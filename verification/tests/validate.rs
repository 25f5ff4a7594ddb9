use hunkpick::model::{FileContent, LineKind};
use hunkpick::validate::{validate_input, validate_internal, Side, ValidationError};
use hunkpick::parser::parse;

/// A one-change diff that is internally consistent: the fixture the checks pass on, and
/// the base several tests mutate to make one of them fail.
const ONE_CHANGE: &str = "\
--- a/f
+++ b/f
@@ -1,3 +1,3 @@
 a
-b
+B
 c
";

#[test]
fn well_formed_diff_passes() {
    let p = parse(ONE_CHANGE.as_bytes()).unwrap();
    assert!(validate_internal(&p).is_ok());
}

#[test]
fn stale_new_start_is_caught() {
    // The header of a hunk taken out of a larger diff: counts and body agree, but the
    // new-side start still describes the file the full diff produced.
    let p = parse(
        "\
diff --git a/f b/f
--- a/f
+++ b/f
@@ -17,3 +18,3 @@
 q
-r
+R
 s
"
        .as_bytes(),
    )
    .unwrap();
    assert_eq!(
        validate_internal(&p),
        Err(ValidationError::StaleNewStart {
            file: "f".to_string(),
            hunk_index: 0,
            header: 18,
            expected: 17,
        })
    );
}

#[test]
fn accumulated_offset_across_hunks_passes() {
    // Two hunks of one diff: the first removes a line net, so the second starts one line
    // earlier on the new side. The check must accept exactly that.
    let p = parse(
        "\
diff --git a/f b/f
--- a/f
+++ b/f
@@ -2,3 +2,2 @@
 b
-c
 d
@@ -17,3 +16,3 @@
 q
-r
+R
 s
"
        .as_bytes(),
    )
    .unwrap();
    assert_eq!(validate_internal(&p), Ok(()));
}

/// A hunk with no new-side lines reports the line *before* its empty range, so its header
/// number equals the last line of the hunk above it. Comparing the raw numbers reads that as
/// an overlap; the positions have to be normalised the way `renumber::anchor` does.
#[test]
fn a_pure_deletion_after_another_hunk_is_not_an_overlap() {
    // What `git diff` gives for a,b,c,d,e -> a,c, split at the context gap: the second
    // hunk's `+2,0` is exactly what `git diff -U0` writes for the same change.
    let p = parse(
        "\
--- a/f
+++ b/f
@@ -1,3 +1,2 @@
 a
-b
 c
@@ -4,2 +2,0 @@
-d
-e
"
        .as_bytes(),
    )
    .unwrap();
    assert_eq!(validate_internal(&p), Ok(()));
    assert_eq!(validate_input(&p), Ok(()));
}

/// The mirror case on the old side: a pure insertion carries the line before its empty
/// old-side range, which is the last old line the hunk above covers.
#[test]
fn a_pure_insertion_after_another_hunk_is_not_an_overlap() {
    let p = parse(
        "\
--- a/f
+++ b/f
@@ -1,2 +1,2 @@
-a
+A
 b
@@ -2,0 +3,2 @@
+x
+y
"
        .as_bytes(),
    )
    .unwrap();
    assert_eq!(validate_internal(&p), Ok(()));
}

#[test]
fn count_mismatch_is_caught() {
    let mut p = parse(
        "\
diff --git a/f b/f
--- a/f
+++ b/f
@@ -1,3 +1,3 @@
 a
-b
+B
 c
"
        .as_bytes(),
    )
    .unwrap();
    // Corrupt the header count.
    if let FileContent::Text(h) = &mut p.files[0].content {
        h[0].old_lines = 99;
    }
    assert!(matches!(
        validate_internal(&p),
        Err(ValidationError::CountMismatch { .. })
    ));
}

#[test]
fn empty_hunk_body_is_caught() {
    let mut p = parse(
        "\
diff --git a/f b/f
--- a/f
+++ b/f
@@ -1,3 +1,3 @@
 a
-b
+B
 c
"
        .as_bytes(),
    )
    .unwrap();
    // A text hunk with no body lines and zero counts passes the count checks
    // (0 == 0) yet emits a `@@ -X,0 +Y,0 @@` stanza git rejects. Catch it explicitly.
    if let FileContent::Text(h) = &mut p.files[0].content {
        h[0].lines.clear();
        h[0].old_lines = 0;
        h[0].new_lines = 0;
    }
    assert!(matches!(
        validate_internal(&p),
        Err(ValidationError::EmptyHunk { .. })
    ));
}

#[test]
fn all_context_hunk_is_caught() {
    let mut p = parse(
        "\
diff --git a/f b/f
--- a/f
+++ b/f
@@ -1,3 +1,3 @@
 a
-b
+B
 c
"
        .as_bytes(),
    )
    .unwrap();
    // Turn the change lines into context: a change-free hunk whose counts still balance
    // (old_lines == new_lines == ctx) but which git apply rejects.
    if let FileContent::Text(h) = &mut p.files[0].content {
        for l in &mut h[0].lines {
            l.kind = LineKind::Context;
        }
        h[0].old_lines = 3;
        h[0].new_lines = 3;
    }
    assert!(matches!(
        validate_internal(&p),
        Err(ValidationError::NoChangeHunk { .. })
    ));
}

#[test]
fn overlapping_hunks_are_caught() {
    let mut p = parse(
        "\
diff --git a/f b/f
--- a/f
+++ b/f
@@ -1,2 +1,2 @@
 a
-b
+B
@@ -10,2 +10,2 @@
 p
-q
+Q
"
        .as_bytes(),
    )
    .unwrap();
    // Force the second hunk to overlap the first on the old side.
    if let FileContent::Text(h) = &mut p.files[0].content {
        h[1].old_start = 1;
        h[1].new_start = 1;
    }
    assert!(matches!(
        validate_internal(&p),
        Err(ValidationError::OverlappingHunks { .. })
    ));
}
