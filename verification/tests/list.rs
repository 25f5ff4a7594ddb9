use hunkpick::list::{header_string, list_entries, list_human};
use hunkpick::parser::parse;
use hunkpick::select::build_view;
use hunkpick::subhunk_id::subhunk_id;

/// In a CRLF diff the header's trailing CR is the line ending, not section text. `emit`
/// already knows that; the listing must agree, or it prints a separating space and a raw
/// control byte — inside a JSON string field that consumers parse.
#[test]
fn crlf_header_carries_no_section_in_the_listing() {
    let src = "--- a/f\r\n+++ b/f\r\n@@ -1,3 +1,3 @@\r\n a\r\n-b\r\n+B\r\n c\r\n";
    let p = parse(src.as_bytes()).unwrap();
    let view = build_view(&p);
    assert_eq!(header_string(&view[0][0]), "@@ -1,3 +1,3 @@");
}

#[test]
fn human_escapes_terminal_control_sequences() {
    // Content of the diff being filtered must not be able to repaint or reorder the
    // listing the operator reads.
    let src = "\
diff --git a/f b/f
--- a/f
+++ b/f
@@ -1 +1 @@
-\x1b[31mred\u{202e}reversed
+plain
";
    let p = parse(src.as_bytes()).unwrap();
    let out = list_human(&p, false);
    assert!(
        !out.contains('\u{1b}'),
        "no raw ESC in the listing: {out:?}"
    );
    assert!(!out.contains('\u{202e}'), "no bidi override: {out:?}");
    assert!(out.contains("\\x1b"), "escaped ESC expected: {out:?}");
    assert!(
        out.contains("\\u{202e}"),
        "escaped override expected: {out:?}"
    );
}

const TWO_CHANGES: &str = "\
diff --git a/f b/f
--- a/f
+++ b/f
@@ -1,5 +1,5 @@
 a
-b
+B
 c
-d
+D
 e
";

#[test]
fn human_shows_subhunk_id() {
    let p = parse(TWO_CHANGES.as_bytes()).unwrap();
    let out = list_human(&p, false);
    let view = build_view(&p);
    let id = subhunk_id(&p.files[0], &view[0][0]);
    assert!(
        out.contains(&id),
        "human output must contain id {id}:\n{out}"
    );
}

#[test]
fn human_lists_indices() {
    let p = parse(TWO_CHANGES.as_bytes()).unwrap();
    let out = list_human(&p, false);
    assert!(out.contains("f"));
    assert!(out.contains("[1]"));
    assert!(out.contains("[2]"));
}

const NEW_FILE: &str = "\
diff --git a/f b/f
new file mode 100644
--- /dev/null
+++ b/f
@@ -0,0 +1,2 @@
+x
+y
";

#[test]
fn human_marks_addition_only() {
    let p = parse(NEW_FILE.as_bytes()).unwrap();
    let out = list_human(&p, false);
    assert!(
        out.contains("[+add]"),
        "addition-only marker missing:\n{out}"
    );
}

#[test]
fn human_no_marker_for_mixed() {
    let p = parse(TWO_CHANGES.as_bytes()).unwrap();
    let out = list_human(&p, false);
    assert!(
        !out.contains("[+add]"),
        "addition-only marker must not appear for a mixed sub-hunk:\n{out}"
    );
}

/// The exact line a listing gives a sub-hunk: index, id, header, counts and preview, with the
/// file's path on a line of its own before it.
#[test]
fn human_listing_line_is_exact() {
    let p = parse(TWO_CHANGES.as_bytes()).unwrap();
    let out = list_human(&p, false);
    let view = build_view(&p);
    let id = subhunk_id(&p.files[0], &view[0][0]);
    let first = out.lines().nth(1).expect("a line per sub-hunk after the path");
    assert!(out.starts_with("f"), "the path comes first:\n{out}");
    assert!(first.contains(&format!("[1] {id}")), "{first}");
    assert!(first.contains("+1 -1"), "{first}");
}

/// Colour wraps the preview of a change in its escape codes, and only when asked for.
#[test]
fn human_colour_is_only_painted_when_asked() {
    let p = parse(TWO_CHANGES.as_bytes()).unwrap();
    let plain = list_human(&p, false);
    let painted = list_human(&p, true);
    assert!(!plain.contains('\u{1b}'));
    assert!(painted.contains('\u{1b}'));
}

// Two byte-identical changes (same context and edit) -> same content id.
const DUP: &str = "\
diff --git a/f b/f
--- a/f
+++ b/f
@@ -1,3 +1,3 @@
 a
-x
+Y
 b
@@ -10,3 +10,3 @@
 a
-x
+Y
 b
";

#[test]
fn json_id_count_is_one_for_unique_ids() {
    let p = parse(TWO_CHANGES.as_bytes()).unwrap();
    let v = list_entries(&p);
    assert_eq!(v[0].hunks[0].id_count, 1);
    assert_eq!(v[0].hunks[1].id_count, 1);
}

#[test]
fn json_id_count_marks_duplicates() {
    let p = parse(DUP.as_bytes()).unwrap();
    let v = list_entries(&p);
    let hunks = &v[0].hunks;
    assert_eq!(hunks[0].id, hunks[1].id, "identical changes share an id");
    assert_eq!(hunks[0].id_count, 2);
    assert_eq!(hunks[1].id_count, 2);
}

#[test]
fn json_has_two_subhunks() {
    let p = parse(TWO_CHANGES.as_bytes()).unwrap();
    let v = list_entries(&p);
    assert_eq!(v[0].path, "f");
    assert_eq!(v[0].hunks.len(), 2);
    assert_eq!(v[0].hunks[0].index, 1);
}

#[test]
fn json_includes_subhunk_id() {
    let p = parse(TWO_CHANGES.as_bytes()).unwrap();
    let v = list_entries(&p);
    let id = &v[0].hunks[0].id;
    assert_eq!(id.len(), 16, "id must be 16 hex chars");
    let view = build_view(&p);
    let expected = subhunk_id(&p.files[0], &view[0][0]);
    assert_eq!(*id, expected, "json id must match the canonical sub-hunk id");
}

#[test]
fn json_marks_addition_only() {
    let p = parse(NEW_FILE.as_bytes()).unwrap();
    let v = list_entries(&p);
    assert!(v[0].hunks[0].addition_only);
}

#[test]
fn json_addition_only_false_for_mixed() {
    let p = parse(TWO_CHANGES.as_bytes()).unwrap();
    let v = list_entries(&p);
    assert!(!v[0].hunks[0].addition_only);
}

#[test]
fn json_lists_changed_lines_with_indices() {
    // The first sub-hunk of TWO_CHANGES is the b->B change: one deletion, one addition,
    // numbered 1 and 2 in body order (deletion first).
    let p = parse(TWO_CHANGES.as_bytes()).unwrap();
    let v = list_entries(&p);
    let cl = &v[0].hunks[0].changed_lines;
    assert_eq!(cl.len(), 2);
    assert_eq!(cl[0].i, 1);
    assert!(!cl[0].added);
    assert_eq!(cl[0].text, "b");
    assert_eq!(cl[1].i, 2);
    assert!(cl[1].added);
    assert_eq!(cl[1].text, "B");
}

#[test]
fn json_changed_lines_number_across_dels_and_adds() {
    // A replacement `-a -b +A +B`: four changed lines numbered 1..4 (both deletions, then
    // both additions), matching the `select INDEX@L<set>` numbering.
    let p = parse(
        "\
diff --git a/f b/f
--- a/f
+++ b/f
@@ -1,2 +1,2 @@
-a
-b
+A
+B
"
        .as_bytes(),
    )
    .unwrap();
    let v = list_entries(&p);
    let cl = &v[0].hunks[0].changed_lines;
    let added: Vec<bool> = cl.iter().map(|e| e.added).collect();
    assert_eq!(added, vec![false, false, true, true]);
    let idx: Vec<usize> = cl.iter().map(|e| e.i).collect();
    assert_eq!(idx, vec![1, 2, 3, 4]);
}

#[test]
fn deletion_only_is_not_flagged() {
    // A pure-deletion sub-hunk is not addition-only: deletions are not additions.
    let p = parse(
        "\
diff --git a/f b/f
--- a/f
+++ b/f
@@ -1,2 +1,1 @@
 keep
-gone
"
        .as_bytes(),
    )
    .unwrap();
    let v = list_entries(&p);
    assert!(!v[0].hunks[0].addition_only);
    assert!(!list_human(&p, false).contains("[+add]"));
}

/// The numbers and texts a listing entry carries: the header's ranges and counts, the header
/// line and the preview of the first change.
#[test]
fn json_entry_carries_header_and_preview() {
    let p = parse(TWO_CHANGES.as_bytes()).unwrap();
    let v = list_entries(&p);
    let h = &v[0].hunks[1];
    assert_eq!((h.old_start, h.old_lines, h.new_start, h.new_lines), (4, 2, 4, 2));
    assert_eq!((h.added, h.deleted), (1, 1));
    assert_eq!(h.header, "@@ -4,2 +4,2 @@");
    assert_eq!(h.preview, "-d");
    assert!(!v[0].binary);
}
