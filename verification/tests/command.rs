use hunkpick::command::{git_failure, select_command, split_command, verified_result};
use hunkpick::emit::emit;
use hunkpick::error::AppError;
use hunkpick::input::load_and_parse;
use hunkpick::parser::ParseError;
use hunkpick::validate::{git_verdict, GitCheckError, Side, ValidationError};

const TWO_CHANGES: &str = "\
diff --git a/f b/f
--- a/f
+++ b/f
@@ -1,5 +1,5 @@
 a
-b
+B
 c
-d
+D
 e
";

fn loaded(src: &str) -> hunkpick::model::Patch {
    load_and_parse(src.as_bytes()).unwrap().expect("a diff")
}

fn args(v: &[&str]) -> Vec<Vec<u8>> {
    v.iter().map(|s| s.as_bytes().to_vec()).collect()
}

#[test]
fn select_command_emits_the_chosen_sub_hunk() {
    let p = loaded(TWO_CHANGES);
    let out = select_command(&p, &args(&["2"])).unwrap();
    let text = String::from_utf8(emit(&out)).unwrap();
    assert!(text.contains("+D"), "{text}");
    assert!(!text.contains("+B"), "{text}");
}

#[test]
fn a_bad_selector_is_a_usage_error() {
    let p = loaded(TWO_CHANGES);
    assert!(matches!(
        select_command(&p, &args(&["nope"])),
        Err(AppError::Usage(_))
    ));
    assert!(matches!(
        select_command(&p, &args(&["9"])),
        Err(AppError::Usage(_))
    ));
}

#[test]
fn split_command_cuts_a_hunk_at_a_context_line() {
    let p = loaded(TWO_CHANGES);
    let out = split_command(p, b"1", &[3]).unwrap();
    let text = String::from_utf8(emit(&out)).unwrap();
    assert_eq!(text.matches("@@ -").count(), 2, "{text}");
}

#[test]
fn splitting_at_a_changed_line_is_a_usage_error_naming_it() {
    let p = loaded(TWO_CHANGES);
    match split_command(p, b"1", &[2]) {
        Err(AppError::Usage(m)) => {
            assert_eq!(m, "new-file line 2 is a change line, not a context line")
        },
        other => panic!("expected a usage error, got {other:?}"),
    }
}

/// Line numbers close to `u32::MAX` come straight from the input header; a hunk of one change
/// run is passed through whatever its starts.
#[test]
fn huge_line_numbers_do_not_overflow() {
    let diff = "\
diff --git a/f b/f
--- a/f
+++ b/f
@@ -4294967295,2 +4294967295,2 @@
 a
-b
+B
";
    let p = loaded(diff);
    let out = select_command(&p, &args(&["1"])).unwrap();
    let bytes = verified_result(&out, false).unwrap();
    let text = String::from_utf8(bytes).unwrap();
    assert!(text.contains("@@ -4294967295,2 +4294967295,2 @@"), "{text}");
}

#[test]
fn verified_result_renders_a_consistent_diff() {
    let p = loaded(TWO_CHANGES);
    let out = select_command(&p, &args(&["1"])).unwrap();
    let bytes = verified_result(&out, true).unwrap();
    assert_eq!(bytes, emit(&out));
}

#[test]
fn git_verdicts_tell_a_rejection_from_a_run_that_never_looked() {
    assert_eq!(git_verdict(Some(0), b""), Ok(()));
    assert_eq!(
        git_verdict(Some(1), b"  error: patch failed\n"),
        Err(GitCheckError::Rejected("error: patch failed".to_string()))
    );
    assert_eq!(
        git_verdict(Some(128), b"fatal: not a git repository\n"),
        Err(GitCheckError::Failed {
            code: Some(128),
            stderr: "fatal: not a git repository".to_string()
        })
    );
    assert_eq!(
        git_verdict(None, b""),
        Err(GitCheckError::Failed { code: None, stderr: String::new() })
    );
}

#[test]
fn git_failures_are_reported_by_what_they_say_about_the_diff() {
    let rejected = GitCheckError::Rejected("bad".to_string());
    match git_failure(&rejected) {
        AppError::Verify(m) => assert_eq!(m, "git apply --check rejected the result diff: bad"),
        other => panic!("{other:?}"),
    }
    match git_failure(&GitCheckError::WriterPanicked) {
        AppError::Internal(m) => assert_eq!(m, "the thread feeding git panicked"),
        other => panic!("{other:?}"),
    }
    let spawn = GitCheckError::Spawn { source: "not found".to_string(), dir: "/x".to_string() };
    match git_failure(&spawn) {
        AppError::Io(m) => assert_eq!(m, "failed to run git in /x: not found"),
        other => panic!("{other:?}"),
    }
    let killed = GitCheckError::Failed { code: None, stderr: String::new() };
    assert_eq!(
        killed.message(),
        "git apply --check was killed by a signal without a diagnostic; the result diff was not checked"
    );
    let fatal = GitCheckError::Failed { code: Some(-1), stderr: "x".to_string() };
    assert_eq!(
        fatal.message(),
        "git apply --check exited with code -1 without checking the result diff: x"
    );
    assert_eq!(git_failure(&fatal).exit_code(), 74);
}

#[test]
fn validation_messages_number_sub_hunks_from_one() {
    let e = ValidationError::CountMismatch {
        file: "f".to_string(),
        hunk_index: 0,
        side: Side::Old,
        header: 3,
        body: 2,
    };
    assert_eq!(e.message(), "f: sub-hunk 1: header declares 3 old lines, body has 2");
    let e = ValidationError::OverlappingHunks { file: "f".to_string(), hunk_index: 1 };
    assert_eq!(e.message(), "f: sub-hunk 2 overlaps the one before it");
    let e = ValidationError::EmptyHunk { file: "g".to_string(), hunk_index: 2 };
    assert_eq!(e.message(), "g: sub-hunk 3 has an empty body");
    let e = ValidationError::NoChangeHunk { file: "g".to_string(), hunk_index: 0 };
    assert_eq!(e.message(), "g: sub-hunk 1 has no added or deleted lines");
    let e = ValidationError::StaleNewStart {
        file: "h".to_string(),
        hunk_index: 0,
        header: 7,
        expected: 5,
    };
    assert_eq!(
        e.message(),
        "h: sub-hunk 1: header starts the new side at line 7, but the diff puts it at 5"
    );
}

#[test]
fn parse_messages_say_what_was_refused() {
    assert_eq!(
        ParseError::BadHunkHeader("@@ x".to_string()).message(),
        "malformed hunk header: @@ x"
    );
    assert_eq!(
        ParseError::Unexpected("y".to_string()).message(),
        "unexpected diff content: y"
    );
    assert_eq!(
        ParseError::Combined("diff --cc f".to_string()).message(),
        "combined (merge) diff is not supported, hunkpick reads two-sided unified diffs: diff --cc f"
    );
}

/// A hunk header that disagrees with its body is a defect of the input: a usage error in
/// prose, numbered as `list` numbers sub-hunks.
#[test]
fn inconsistent_input_header_is_a_usage_error() {
    let diff = "\
diff --git a/f b/f
--- a/f
+++ b/f
@@ -1,3 +1,3 @@
 a
-b
+B
";
    match load_and_parse(diff.as_bytes()) {
        Err(AppError::Usage(m)) => {
            assert!(m.contains("sub-hunk 1"), "{m}");
            assert!(!m.contains("hunk_index"), "{m}");
            assert!(!m.contains("CountMismatch"), "{m}");
        },
        other => panic!("expected a usage error, got {other:?}"),
    }
}
