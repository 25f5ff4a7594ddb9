use hunkpick::emit::emit;
use hunkpick::parser::parse;

fn roundtrip(src: &str) {
    let p = parse(src.as_bytes()).unwrap();
    assert_eq!(emit(&p), src.as_bytes(), "round-trip mismatch");
}

#[test]
fn roundtrips_git_diff() {
    roundtrip(
        "\
diff --git a/f.txt b/f.txt
index 111..222 100644
--- a/f.txt
+++ b/f.txt
@@ -1,3 +1,3 @@ ctx
 a
-b
+B
 c
",
    );
}

/// The marker line has a line ending like every other line: in a CRLF diff it arrives as
/// `\ No newline at end of file\r\n`. Rendering it with a bare `\n` leaves the output with
/// mixed line endings and breaks the byte-for-byte round-trip this module promises.
#[test]
fn roundtrips_the_no_newline_marker_of_a_crlf_diff() {
    roundtrip(
        "--- a/f\r\n+++ b/f\r\n@@ -1 +1 @@\r\n-a\r\n\
             \\ No newline at end of file\r\n+b\r\n\\ No newline at end of file\r\n",
    );
}

/// A diff pasted or piped without its final newline is still that diff; adding one makes
/// the output differ from the input by a byte, which the round-trip promise does not allow.
#[test]
fn roundtrips_an_input_without_a_trailing_newline() {
    roundtrip("--- a/f\n+++ b/f\n@@ -1 +1 @@\n-a\n+b");
}

#[test]
fn roundtrips_no_newline_and_binary() {
    roundtrip(
        "\
diff --git a/f b/f
--- a/f
+++ b/f
@@ -1 +1 @@
-old
\\ No newline at end of file
+new
\\ No newline at end of file
",
    );
    roundtrip(
        "\
diff --git a/img.png b/img.png
index 1..2 100644
Binary files a/img.png and b/img.png differ
",
    );
}

#[test]
fn roundtrips_crlf_diff_byte_for_byte() {
    // The CR belongs to the line ending of the hunk header, not to its section text.
    roundtrip(
        "diff --git a/f b/f\r\n--- a/f\r\n+++ b/f\r\n@@ -1,3 +1,3 @@\r\n a\r\n-b\r\n+B\r\n c\r\n",
    );
    // A header that does carry section text keeps the separating space.
    roundtrip("--- a/f\r\n+++ b/f\r\n@@ -1,2 +1,2 @@ fn one()\r\n x\r\n-y\r\n+Y\r\n");
}

#[test]
fn lines_after_the_last_hunk_stay_after_it() {
    // A blank separator between hunks (common in pasted or mail-transported diffs) is
    // not part of any hunk body. It must keep its place: emitting it with the leading
    // headers would move it above the first `@@`, and git rejects the result as garbage.
    roundtrip(
        "\
diff --git a/f b/f
--- a/f
+++ b/f
@@ -1,2 +1,2 @@
 a
-b
+B

@@ -10,2 +10,2 @@
 p
-q
+Q
",
    );
}

#[test]
fn empty_context_line_is_emitted_with_its_marker() {
    // Input whose context line lost its trailing space in transport: the emitted diff
    // restores the marker, so the result is what `git apply` expects.
    let src = "\
diff --git a/f b/f
--- a/f
+++ b/f
@@ -1,3 +1,3 @@
 a
-b
+B

";
    // Spelled with concat! so the single-space context line stays visible in the source.
    let expected = "diff --git a/f b/f\n--- a/f\n+++ b/f\n@@ -1,3 +1,3 @@\n a\n-b\n+B\n \n";
    let p = parse(src.as_bytes()).unwrap();
    assert_eq!(String::from_utf8(emit(&p)).unwrap(), expected);
}

#[test]
fn roundtrips_multi_file_and_multi_hunk() {
    roundtrip(
        "\
diff --git a/x b/x
--- a/x
+++ b/x
@@ -1,2 +1,2 @@
 a
-b
+B
@@ -10,2 +10,3 @@
 p
+q
 r
diff --git a/y b/y
--- a/y
+++ b/y
@@ -1 +1 @@
-3
+4
",
    );
}
