use hunkpick::parser::{
    carries_something_past, headers_a_path_follows, headers_ascii_follows, longest_prefix,
    markers, parse, reads_as_a_diff_line, the_header_a_path_follows_in, ParseError,
};

use hunkpick::emit::emit;
use hunkpick::model::{FileContent, LineKind};

/// The longest prefix that opens the line is the one reported, whichever order the prefixes
/// are listed in. No member of either list the parser weighs a line against opens another
/// today, so the rule has nothing to bite on there — and a rule nothing exercises is one
/// nobody finds out has stopped working. Given a pair where one prefix does open the other,
/// the reading is checked directly.
#[test]
fn the_longest_prefix_that_opens_a_line_is_the_one_reported() {
    let prefixes: [&'static [u8]; 2] = [b"@@ ", b"@@ -"];
    let line = b"@@ -1 +1 @@";
    let reversed: Vec<&'static [u8]> = prefixes.iter().rev().copied().collect();
    assert_eq!(
        longest_prefix(&prefixes, line),
        Some(b"@@ -".as_slice())
    );
    assert_eq!(
        longest_prefix(&reversed, line),
        Some(b"@@ -".as_slice())
    );
}

/// A tail is what stands past the prefix, which is a reading only where the prefix opens the
/// line. Asked where it does not, the answer is that nothing stands past it: a prefix the
/// line does not carry carries nothing of the line with it.
///
/// Asked of a prefix longer than the line and of one shorter than it: read by length alone,
/// the first is refused and the second hands back a tail measured off a prefix that is not
/// there.
#[test]
fn a_prefix_that_does_not_open_a_line_carries_nothing() {
    assert!(!carries_something_past(b"@@", b"@@ -1 +1 @@"));
    assert!(!carries_something_past(b"index 100", b"--- "));
}

/// What a marker promises is a path or a header, and no arrangement of whitespace is either.
/// A caller that hands over a line whole passes the line ending the stream wrote with it, and
/// counting that ending as content past the marker makes every bare marker line say
/// something — the case this rule exists to refuse.
///
/// Asked of both lists a line is weighed against, and of each of their members, through the
/// one reading a caller has: the rule is one, and a rule that held for a marker while a
/// header kept the reading it had would let [`reads_as_a_diff_line`] answer the same tail
/// two ways. Asking the two lists at two levels would leave that promise resting on this
/// comment.
#[test]
fn a_prefix_followed_only_by_whitespace_promises_nothing() {
    for tail in ["\n", "\r\n", "\x0c", "\t", " "] {
        for marker in markers() {
            let line = [marker, tail.as_bytes()].concat();
            let bare = String::from_utf8_lossy(marker);
            assert!(!reads_as_a_diff_line(&line), "`{bare}` and {tail:?}");
        }
        for header in headers_ascii_follows() {
            let line = [header, tail.as_bytes()].concat();
            let bare = String::from_utf8_lossy(header);
            assert!(!reads_as_a_diff_line(&line), "`{bare}` and {tail:?}");
        }
    }
}

/// A header whose line is ASCII past it — an object name, a mode, a percentage — is read the
/// way a marker is: a bare `index ` says as little about the stream it was read out of as a
/// bare `--- ` does, and two of them are what binary data holds as readily as a patch. Only
/// the headers a path follows stand on their own head, because a path may be in any script
/// and is not there to be read.
#[test]
fn a_bare_header_says_something_only_where_a_path_follows_it() {
    for header in headers_a_path_follows() {
        let bare = String::from_utf8_lossy(header);
        assert!(reads_as_a_diff_line(header), "bare `{bare}`");
    }
    for header in headers_ascii_follows() {
        let bare = String::from_utf8_lossy(header);
        assert!(!reads_as_a_diff_line(header), "bare `{bare}`");
        assert!(
            !reads_as_a_diff_line(&[header, b"\r\n".as_slice()].concat()),
            "`{bare}` and the line ending a patch written under Windows leaves"
        );
        assert!(
            reads_as_a_diff_line(&[header, b"1".as_slice()].concat()),
            "`{bare}1`"
        );
    }
    // The lines git writes, beside the tail each header is asked about above: what a header
    // carries in a patch is longer than the one byte the loop appends, and a rule read off
    // the shortest line that passes is a rule no patch was ever weighed against.
    assert!(reads_as_a_diff_line(b"rename from f.txt"));
    assert!(reads_as_a_diff_line(b"similarity index 100%"));
    assert!(reads_as_a_diff_line(b"index 111..222 100644"));
    assert!(!reads_as_a_diff_line(b"renamed the file"));
}

const ONE: &str = "\
diff --git a/f.txt b/f.txt
index 111..222 100644
--- a/f.txt
+++ b/f.txt
@@ -1,3 +1,3 @@
 a
-b
+B
 c
";

#[test]
fn parses_single_hunk() {
    let p = parse(ONE.as_bytes()).unwrap();
    assert_eq!(p.files.len(), 1);
    let f = &p.files[0];
    assert_eq!(f.old_path.as_deref(), Some(b"f.txt".as_slice()));
    assert_eq!(f.new_path.as_deref(), Some(b"f.txt".as_slice()));
    let FileContent::Text(hunks) = &f.content else {
        panic!("text")
    };
    assert_eq!(hunks.len(), 1);
    let h = &hunks[0];
    assert_eq!(
        (h.old_start, h.old_lines, h.new_start, h.new_lines),
        (1, 3, 1, 3)
    );
    assert_eq!(h.lines.len(), 4);
    assert_eq!(h.lines[1].kind, LineKind::Del);
    assert_eq!(h.lines[1].text.as_slice(), b"b");
}

#[test]
fn parses_multi_hunk_with_section() {
    let src = "\
diff --git a/f b/f
--- a/f
+++ b/f
@@ -1,2 +1,2 @@ fn one()
 x
-y
+Y
@@ -10,2 +10,3 @@ fn two()
 p
+q
 r
";
    let p = parse(src.as_bytes()).unwrap();
    let FileContent::Text(h) = &p.files[0].content else {
        panic!()
    };
    assert_eq!(h.len(), 2);
    assert_eq!(h[0].section.as_slice(), b"fn one()");
    assert_eq!(h[1].section.as_slice(), b"fn two()");
    assert_eq!((h[1].new_start, h[1].new_lines), (10, 3));
}

#[test]
fn parses_multi_file() {
    let src = "\
diff --git a/x b/x
--- a/x
+++ b/x
@@ -1 +1 @@
-1
+2
diff --git a/y b/y
--- a/y
+++ b/y
@@ -1 +1 @@
-3
+4
";
    let p = parse(src.as_bytes()).unwrap();
    assert_eq!(p.files.len(), 2);
    assert_eq!(p.files[0].new_path.as_deref(), Some(b"x".as_slice()));
    assert_eq!(p.files[1].new_path.as_deref(), Some(b"y".as_slice()));
}

#[test]
fn parses_no_newline_marker() {
    let src = "\
diff --git a/f b/f
--- a/f
+++ b/f
@@ -1 +1 @@
-old
\\ No newline at end of file
+new
\\ No newline at end of file
";
    let p = parse(src.as_bytes()).unwrap();
    let FileContent::Text(h) = &p.files[0].content else {
        panic!()
    };
    assert!(h[0].lines[0].no_newline.is_some());
    assert!(h[0].lines[1].no_newline.is_some());
}

#[test]
fn parses_binary_file() {
    let src = "\
diff --git a/img.png b/img.png
index 111..222 100644
Binary files a/img.png and b/img.png differ
";
    let p = parse(src.as_bytes()).unwrap();
    assert!(matches!(p.files[0].content, FileContent::Binary(_)));
}

#[test]
fn deletion_line_dash_dash_not_mistaken_for_file_header() {
    // A deletion whose content starts with "-- " renders as "--- <text>";
    // inside a hunk body it must be consumed as a deletion, not a new file.
    let src = "\
diff --git a/f b/f
--- a/f
+++ b/f
@@ -1,2 +1,2 @@
 xyz
--- old comment
+++ new comment
";
    let p = parse(src.as_bytes()).unwrap();
    assert_eq!(p.files.len(), 1, "no phantom file");
    let FileContent::Text(h) = &p.files[0].content else {
        panic!()
    };
    assert_eq!(h.len(), 1);
    assert_eq!(h[0].lines.len(), 3);
    assert_eq!(h[0].lines[1].kind, LineKind::Del);
    assert_eq!(h[0].lines[1].text.as_slice(), b"-- old comment");
    assert_eq!(h[0].lines[2].kind, LineKind::Add);
    assert_eq!(h[0].lines[2].text.as_slice(), b"++ new comment");
}

#[test]
fn empty_line_in_hunk_body_is_a_context_line() {
    // A context line for an empty source line is " " (marker plus nothing). Transports
    // that strip trailing whitespace turn it into a zero-length line; `git apply` still
    // accepts such a diff, so the body must continue rather than end here.
    let src = "\
diff --git a/f b/f
--- a/f
+++ b/f
@@ -1,6 +1,6 @@
 a
-b
+B
 c
-d
+D

-x
+X
";
    let p = parse(src.as_bytes()).unwrap();
    assert_eq!(p.files.len(), 1, "no phantom file");
    let f = &p.files[0];
    assert_eq!(f.headers.len(), 3, "body lines must not leak into headers");
    let FileContent::Text(h) = &f.content else {
        panic!()
    };
    assert_eq!(h.len(), 1);
    assert_eq!(h[0].lines.len(), 9, "whole body belongs to the hunk");
    assert_eq!(h[0].lines[6].kind, LineKind::Context);
    assert!(h[0].lines[6].text.is_empty());
    assert_eq!(h[0].lines[7].kind, LineKind::Del);
    assert_eq!(h[0].lines[7].text.as_slice(), b"x");
}

#[test]
fn empty_line_past_the_declared_count_still_ends_the_hunk() {
    // Once the declared counts are exhausted an empty line is not a body line: it is
    // whatever follows the hunk, and is recorded after it — not among the leading headers,
    // which would move it above the first `@@` on output.
    let src = "\
diff --git a/f b/f
--- a/f
+++ b/f
@@ -1 +1 @@
-a
+A

";
    let p = parse(src.as_bytes()).unwrap();
    let f = &p.files[0];
    let FileContent::Text(h) = &f.content else {
        panic!()
    };
    assert_eq!(h[0].lines.len(), 2, "only the declared body lines");
    assert_eq!(
        f.headers.len(),
        3,
        "no body-adjacent line among the headers"
    );
    assert_eq!(f.trailer, vec![(1usize, b"".to_vec())]);
}

#[test]
fn binary_marker_after_hunks_is_kept_not_dropped() {
    // A binary marker never legitimately follows hunks, but silently swallowing the line
    // would emit a diff that differs from its input with exit code 0.
    let src = "\
diff --git a/f b/f
--- a/f
+++ b/f
@@ -1 +1 @@
-a
+A
Binary files a/f and b/f differ
";
    let p = parse(src.as_bytes()).unwrap();
    assert_eq!(
        p.files[0].trailer,
        vec![(1usize, b"Binary files a/f and b/f differ".to_vec())]
    );
}

#[test]
fn a_format_patch_mail_header_survives_the_round_trip() {
    // `git format-patch` wraps the diff in a mail: headers, the commit message and a
    // diffstat come before the first `diff --git`, the `-- ` signature after the last hunk.
    // Keeping the signature while dropping the head would leave a patch `git am` no longer
    // accepts, with the mail's footer still attached.
    let src = "From 0000000000000000000000000000000000000000 Mon Sep 17 00:00:00 2001\nFrom: Someone <someone@example.invalid>\nSubject: [PATCH] change f\n\n f | 2 +-\n 1 file changed, 1 insertion(+), 1 deletion(-)\n\ndiff --git a/f b/f\n--- a/f\n+++ b/f\n@@ -1 +1 @@\n-a\n+A\n-- \n2.53.0\n";
    let p = parse(src.as_bytes()).unwrap();
    assert_eq!(emit(&p), src.as_bytes());
}

#[test]
fn a_no_newline_marker_before_any_body_line_is_kept() {
    // The marker belongs to the line before it, so a body that starts with one is
    // malformed. Swallowing the line would emit a diff that differs from its input with
    // exit code 0; it stays where it was, and the empty hunk is what the input check
    // reports.
    let src = "\
diff --git a/f b/f
--- a/f
+++ b/f
@@ -1 +1 @@
\\ No newline at end of file
";
    let p = parse(src.as_bytes()).unwrap();
    assert_eq!(emit(&p), src.as_bytes(), "no byte may be dropped");
}

#[test]
fn crlf_binary_marker_still_starts_a_binary_entry() {
    // The CR belongs to the line ending, not to the marker. Missing that reads the payload
    // as text and reorders it on the way out.
    let src = "\
diff --git a/f.bin b/f.bin\r
index 34b631e..f0c6ea3 100644\r
GIT binary patch\r
literal 13\r
UcmeAS@N;M2<Y3P)$w(~%02liMsQ>@~\r
";
    let p = parse(src.as_bytes()).unwrap();
    let FileContent::Binary(b) = &p.files[0].content else {
        panic!("a CRLF binary marker must start a binary entry");
    };
    assert_eq!(b.len(), 3, "marker and payload belong to the entry");
    assert_eq!(emit(&p), src.as_bytes(), "and come back unchanged");
}

#[test]
fn signature_after_the_last_hunk_keeps_its_place() {
    // `git format-patch` ends a patch with "-- " and the git version. Both lines follow
    // the last hunk and must stay there.
    // Spelled with concat! so the trailing space of the "-- " marker stays visible.
    let src = "diff --git a/f b/f\n--- a/f\n+++ b/f\n@@ -1 +1 @@\n-a\n+A\n-- \n2.53.0\n";
    let p = parse(src.as_bytes()).unwrap();
    let f = &p.files[0];
    assert_eq!(
        f.trailer,
        vec![(1usize, b"-- ".to_vec()), (1usize, b"2.53.0".to_vec())]
    );
}

#[test]
fn plain_diff_entry_without_hunks_does_not_absorb_the_next_file() {
    // A header-only entry in a plain diff is complete once it has both marker lines;
    // the next "--- " opens another file instead of overwriting this one's paths.
    let src = "\
--- a/x
+++ b/x
--- a/y
+++ b/y
@@ -1 +1 @@
-1
+2
";
    let p = parse(src.as_bytes()).unwrap();
    assert_eq!(p.files.len(), 2, "two separate entries");
    assert_eq!(p.files[0].new_path.as_deref(), Some(b"x".as_slice()));
    assert_eq!(p.files[1].new_path.as_deref(), Some(b"y".as_slice()));
}

#[test]
fn quoted_path_is_decoded_to_its_bytes() {
    // With core.quotePath at its default git writes a non-ASCII name quoted and
    // C-escaped: `--- "a/\303\251.txt"`. The stored path must be the real bytes, so a
    // selector spelled with the actual file name matches.
    let src = "\
diff --git \"a/\\303\\251.txt\" \"b/\\303\\251.txt\"
--- \"a/\\303\\251.txt\"
+++ \"b/\\303\\251.txt\"
@@ -1 +1 @@
-a
+A
";
    let p = parse(src.as_bytes()).unwrap();
    let f = &p.files[0];
    assert_eq!(f.old_path.as_deref(), Some("é.txt".as_bytes()));
    assert_eq!(f.new_path.as_deref(), Some("é.txt".as_bytes()));
    assert_eq!(f.display_path(), "é.txt");
}

#[test]
fn quoted_path_keeps_escaped_specials() {
    // A quoted name may also carry \\ and \" and control escapes; all decode to bytes.
    let src = "\
--- \"a/we\\\"ird\\tname\"
+++ \"b/we\\\"ird\\tname\"
@@ -1 +1 @@
-a
+A
";
    let p = parse(src.as_bytes()).unwrap();
    assert_eq!(
        p.files[0].new_path.as_deref(),
        Some(b"we\"ird\tname".as_slice())
    );
}

#[test]
fn crlf_diff_path_has_no_carriage_return() {
    // A diff with CRLF endings leaves \r at the end of the header line; it is part of
    // the line ending, not of the file name.
    let src = "diff --git a/f b/f\r\n--- a/f\r\n+++ b/f\r\n@@ -1 +1 @@\r\n-a\r\n+A\r\n";
    let p = parse(src.as_bytes()).unwrap();
    assert_eq!(p.files[0].new_path.as_deref(), Some(b"f".as_slice()));
    assert_eq!(p.files[0].old_path.as_deref(), Some(b"f".as_slice()));
}

#[test]
fn binary_file_path_comes_from_the_diff_git_line() {
    // A binary file has no ---/+++ lines, so its name is only in `diff --git`.
    let src = "\
diff --git a/img.png b/img.png
index 111..222 100644
Binary files a/img.png and b/img.png differ
";
    let p = parse(src.as_bytes()).unwrap();
    assert_eq!(p.files[0].display_path(), "img.png");
}

#[test]
fn diff_git_paths_do_not_override_the_marker_lines() {
    // A rename states both names; ---/+++ are authoritative when present.
    let src = "\
diff --git a/old b/new
similarity index 90%
rename from old
rename to new
--- a/old
+++ b/new
@@ -1 +1 @@
-a
+A
";
    let p = parse(src.as_bytes()).unwrap();
    assert_eq!(p.files[0].old_path.as_deref(), Some(b"old".as_slice()));
    assert_eq!(p.files[0].new_path.as_deref(), Some(b"new".as_slice()));
}

#[test]
fn a_non_ascii_space_between_the_ranges_is_rejected() {
    // `str::split_whitespace` cuts on every `White_Space` code point, so a header separated
    // by one of them parsed, and `emit` then rebuilt the header from the parsed numbers with
    // an ASCII space — the input rewritten on the way out, at exit 0. git rejects such a
    // header outright (`corrupt patch`), so hunkpick must not turn it into one git accepts.
    for sep in ["\u{a0}", "\u{85}", "\u{2008}", "\u{3000}"] {
        let src = format!("--- a/f\n+++ b/f\n@@ -1,3{sep}+1,3 @@\n a\n-b\n+B\n c\n");
        assert!(
            matches!(parse(src.as_bytes()), Err(ParseError::BadHunkHeader(_))),
            "separator {sep:?} must not parse"
        );
    }
}

#[test]
fn a_tab_or_a_double_space_between_the_ranges_is_rejected() {
    // Same class as the non-ASCII separator: the exact bytes cannot be reproduced by `emit`,
    // which always writes one space, so accepting them would rewrite the input silently.
    for sep in ["\t", "  "] {
        let src = format!("--- a/f\n+++ b/f\n@@ -1,3{sep}+1,3 @@\n a\n-b\n+B\n c\n");
        assert!(
            matches!(parse(src.as_bytes()), Err(ParseError::BadHunkHeader(_))),
            "separator {sep:?} must not parse"
        );
    }
}

#[test]
fn a_range_without_its_sign_or_with_a_stray_one_is_rejected() {
    // The sign used to be stripped with `unwrap_or(token)`, so its absence read the same as
    // its presence, and `str::parse::<u32>` took a leading `+` on top of that. Every header
    // below came back out as `@@ -1,3 +1,3 @@` at exit 0, while git reads all four as a
    // corrupt patch (or as garbage).
    for header in [
        "@@ +1,3 +1,3 @@",
        "@@ -1,3 1,3 @@",
        "@@ -+1,3 +1,3 @@",
        "@@ -1,+3 +1,3 @@",
    ] {
        let src = format!("--- a/f\n+++ b/f\n{header}\n a\n-b\n+B\n c\n");
        assert!(
            matches!(parse(src.as_bytes()), Err(ParseError::BadHunkHeader(_))),
            "header {header:?} must not parse"
        );
    }
}

#[test]
fn non_ascii_digits_in_a_range_are_rejected() {
    // `str::parse::<u32>` takes ASCII digits only; lock that in so a future move to a
    // hand-rolled parser cannot start accepting `١٢` and emitting `12`.
    let src = "--- a/f\n+++ b/f\n@@ -\u{661},3 +1,3 @@\n a\n-b\n+B\n c\n";
    assert!(matches!(
        parse(src.as_bytes()),
        Err(ParseError::BadHunkHeader(_))
    ));
}

#[test]
fn parses_plain_non_git_diff() {
    let src = "\
--- old.txt\t2020-01-01
+++ new.txt\t2020-01-02
@@ -1 +1 @@
-a
+b
";
    let p = parse(src.as_bytes()).unwrap();
    assert_eq!(p.files.len(), 1);
    assert_eq!(p.files[0].old_path.as_deref(), Some(b"old.txt".as_slice()));
    assert!(!p.files[0].headers.is_empty());
}
