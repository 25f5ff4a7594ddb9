use hunkpick::emit::emit;
use hunkpick::parser::parse;
use hunkpick::renumber::renumber_new_side;

fn round_trip(src: &[u8]) -> Vec<u8> {
    emit(&parse(src).unwrap())
}

/// What comes in comes back out byte for byte: a mail preamble, CRLF endings, a no-newline
/// note, a rename with no hunks, and no final newline.
#[test]
fn a_diff_comes_back_byte_for_byte() {
    let src: &[u8] = b"From: a@b\r\nSubject: x\r\n\r\n\
diff --git a/f b/f\r\n--- a/f\r\n+++ b/f\r\n@@ -1,2 +1,2 @@ fn main\r\n a\r\n-b\r\n+B\r\n\\ No newline at end of file\r\n\
diff --git a/x b/y\r\nsimilarity index 100%\r\nrename from x\r\nrename to y\r\n-- \r\n2.40";
    assert_eq!(round_trip(src), src);
}

/// A header written with an explicit count of one comes back as git writes it.
#[test]
fn a_header_comes_back_in_git_form() {
    let src = b"--- a/f\n+++ b/f\n@@ -1,1 +1,1 @@\n-a\n+b\n";
    assert_eq!(round_trip(src), b"--- a/f\n+++ b/f\n@@ -1 +1 @@\n-a\n+b\n");
}

/// An empty line read as context comes back with its marker restored.
#[test]
fn an_empty_context_line_comes_back_as_a_space() {
    let src = b"--- a/f\n+++ b/f\n@@ -1,3 +1,3 @@\n a\n-b\n+B\n\n";
    assert_eq!(round_trip(src), b"--- a/f\n+++ b/f\n@@ -1,3 +1,3 @@\n a\n-b\n+B\n \n");
}

/// Renumbering a renumbered diff changes nothing.
#[test]
fn renumbering_twice_is_renumbering_once() {
    let src = b"--- a/f\n+++ b/f\n@@ -1,2 +5,2 @@\n a\n-b\n+B\n@@ -10,1 +30,2 @@\n c\n+d\n";
    let mut once = parse(src).unwrap();
    renumber_new_side(&mut once);
    let mut twice = parse(&emit(&once)).unwrap();
    renumber_new_side(&mut twice);
    assert_eq!(emit(&once), emit(&twice));
    assert!(String::from_utf8(emit(&once)).unwrap().contains("@@ -10 +10,2 @@"));
}

/// Whatever the input, reading back what was written gives the same diff, and writing it again
/// gives the same bytes: a header with an explicit count, an empty context line and a note
/// given twice all settle after one pass.
#[test]
fn writing_back_is_a_fixed_point() {
    let src: &[u8] =
        b"--- a/f\n+++ b/f\n@@ -1,1 +1,2 @@\n\n+b\n\\ first\n\\ second\n@@ -9 +10 @@x\n-y\n+z\n";
    let p = parse(src).unwrap();
    let written = emit(&p);
    let again = parse(&written).unwrap();
    assert_eq!(again, p);
    assert_eq!(emit(&again), written);
    assert_ne!(written, src);
}
