use std::collections::BTreeSet;

use hunkpick::emit::emit;
use hunkpick::model::{FileContent, FileDiff, Hunk, Line, LineKind};
use hunkpick::parser::parse;
use hunkpick::select::{
    all_same_content, build_view, parse_selectors, select, IndexSet, SelectError, Selector,
    MAX_SELECTOR_INDICES,
};
use hunkpick::subhunk_id::subhunk_id;

/// Selector arguments as the raw bytes the command line hands over.
fn args<S: AsRef<str>>(v: &[S]) -> Vec<Vec<u8>> {
    v.iter().map(|s| s.as_ref().as_bytes().to_vec()).collect()
}

const TWO_CHANGES: &str = "\
diff --git a/f b/f
--- a/f
+++ b/f
@@ -1,5 +1,5 @@
 a
-b
+B
 c
-d
+D
 e
";

/// A minimal text `FileDiff` with both paths set, for unit tests that build hunks directly.
fn mk_file(path: &str) -> FileDiff {
    FileDiff {
        headers: Vec::new(),
        trailer: Vec::new(),
        old_path: Some(path.as_bytes().to_vec()),
        new_path: Some(path.as_bytes().to_vec()),
        content: FileContent::Text(Vec::new()),
    }
}

/// A hunk with the given (kind, text) lines and zeroed line-number metadata.
fn mk_hunk(lines: &[(LineKind, &str)]) -> Hunk {
    Hunk {
        old_start: 0,
        old_lines: 0,
        new_start: 0,
        new_lines: 0,
        section: Vec::new(),
        lines: lines
            .iter()
            .map(|&(kind, text)| Line {
                kind,
                text: text.as_bytes().to_vec(),
                no_newline: None,
            })
            .collect(),
    }
}

#[test]
fn parse_selector_bare_index_list() {
    let sels = parse_selectors(&args(&["1,2".to_string()])).unwrap();
    assert_eq!(sels.len(), 1);
    assert_eq!(
        sels[0],
        Selector::File {
            path: None,
            indices: IndexSet::List(vec![1, 2]),
        }
    );
}

/// The allowance belongs to the invocation, not to the selector. It used to be checked per
/// selector while their number is bounded only by the length of the command line, so 200
/// copies of `1-1048576` — 2.6 KB of argv against a four-sub-hunk diff — reached 1.6 GB of
/// RSS before a single index was compared against the diff.
#[test]
fn the_index_allowance_is_shared_by_every_selector() {
    let one = format!("1-{MAX_SELECTOR_INDICES}");
    // One selector may spend the whole allowance.
    assert!(parse_selectors(&args(std::slice::from_ref(&one))).is_ok());
    // Two may not, however they are spelled.
    assert!(parse_selectors(&args(&[one.clone(), one.clone()])).is_err());
    assert!(parse_selectors(&args(&[format!("f:{one}"), format!("g:{one}")])).is_err());
    // And the allowance is spent by `@L` line sets too, not only by whole-sub-hunk lists.
    assert!(parse_selectors(&args(&[format!("1@L1-{MAX_SELECTOR_INDICES}"), one])).is_err());
}

#[test]
fn parse_bare_star_is_all() {
    let sels = parse_selectors(&args(&["*".to_string()])).unwrap();
    assert_eq!(
        sels[0],
        Selector::File {
            path: None,
            indices: IndexSet::All,
        }
    );
}

#[test]
fn parse_path_star_is_all() {
    let sels = parse_selectors(&args(&["src/f:*".to_string()])).unwrap();
    assert_eq!(
        sels[0],
        Selector::File {
            path: Some(b"src/f".to_vec()),
            indices: IndexSet::All,
        }
    );
}

#[test]
fn parse_id_selector() {
    let sels = parse_selectors(&args(&["@a1b2c3d4e5f60718".to_string()])).unwrap();
    assert_eq!(sels[0], Selector::Id("a1b2c3d4e5f60718".to_string()));
}

#[test]
fn parse_at_prefixed_path_is_path_form_not_id() {
    // A file literally named "@foo" addressed as "@foo:1": the ':' + valid index list
    // makes this the path form, not an id.
    let sels = parse_selectors(&args(&["@foo:1".to_string()])).unwrap();
    assert_eq!(
        sels[0],
        Selector::File {
            path: Some(b"@foo".to_vec()),
            indices: IndexSet::List(vec![1]),
        }
    );
}

#[test]
fn parse_bare_at_is_error() {
    // "@" with no id is not a valid selector.
    assert!(parse_selectors(&args(&["@".to_string()])).is_err());
}

#[test]
fn parse_selector_path_with_range() {
    let sels = parse_selectors(&args(&["src/f:2-4".to_string()])).unwrap();
    assert_eq!(
        sels[0],
        Selector::File {
            path: Some(b"src/f".to_vec()),
            indices: IndexSet::List(vec![2, 3, 4]),
        }
    );
}

#[test]
fn select_first_subhunk_only() {
    let p = parse(TWO_CHANGES.as_bytes()).unwrap();
    let sels = parse_selectors(&args(&["1".to_string()])).unwrap();
    let out = select(&p, &sels).unwrap();
    let text = String::from_utf8(emit(&out)).unwrap();
    assert!(text.contains("+B"));
    assert!(!text.contains("+D")); // second change excluded
}

const TWO_FILES: &str = "\
diff --git a/x b/x
--- a/x
+++ b/x
@@ -1,3 +1,3 @@
 a
-b
+B
 c
diff --git a/y b/y
--- a/y
+++ b/y
@@ -1,3 +1,3 @@
 p
-q
+Q
 r
";

#[test]
fn select_across_two_files() {
    let p = parse(TWO_FILES.as_bytes()).unwrap();
    let sels = parse_selectors(&args(&["x:1".to_string(), "y:1".to_string()])).unwrap();
    let out = select(&p, &sels).unwrap();
    assert_eq!(out.files.len(), 2);
    let text = String::from_utf8(emit(&out)).unwrap();
    assert!(text.contains("+B"));
    assert!(text.contains("+Q"));
}

const SAME_TWICE: &str = "\
diff --git a/f b/f
--- a/f
+++ b/f
@@ -1,3 +1,3 @@
 a
-x
+y
 b
@@ -10,3 +10,3 @@
 a
-x
+y
 b
";

#[test]
fn select_bare_star_selects_every_subhunk() {
    let p = parse(TWO_CHANGES.as_bytes()).unwrap();
    let sels = parse_selectors(&args(&["*".to_string()])).unwrap();
    let out = select(&p, &sels).unwrap();
    let text = String::from_utf8(emit(&out)).unwrap();
    assert!(text.contains("+B"), "first change present: {text}");
    assert!(text.contains("+D"), "second change present: {text}");
}

#[test]
fn select_path_star_selects_named_file_only() {
    let p = parse(TWO_FILES.as_bytes()).unwrap();
    let sels = parse_selectors(&args(&["x:*".to_string()])).unwrap();
    let out = select(&p, &sels).unwrap();
    assert_eq!(out.files.len(), 1);
    let text = String::from_utf8(emit(&out)).unwrap();
    assert!(text.contains("+B"));
    assert!(!text.contains("+Q"), "file y must be excluded: {text}");
}

#[test]
fn select_by_id_picks_matching_subhunk() {
    let p = parse(TWO_CHANGES.as_bytes()).unwrap();
    let view = build_view(&p);
    let subs = &view[0];
    // Second sub-hunk: the d->D change.
    let id = subhunk_id(&p.files[0], &subs[1]);
    let sels = parse_selectors(&args(&[format!("@{id}")])).unwrap();
    let out = select(&p, &sels).unwrap();
    let text = String::from_utf8(emit(&out)).unwrap();
    assert!(text.contains("+D"), "addressed change present: {text}");
    assert!(!text.contains("+B"), "other change excluded: {text}");
}

/// Resolving `@id` selectors must stay linear in the size of the diff. Selecting by id is a
/// batch operation — read the ids from `list --json`, stage them in one invocation — and a
/// scan over every sub-hunk's hash per id makes that quadratic. Exercised here rather than
/// through the CLI because Windows caps a command line at 32 KiB, well below eight thousand
/// selectors.
#[test]
fn many_ids_resolve_without_quadratic_blowup() {
    const RUNS: usize = 8_000;
    let mut diff = format!(
        "diff --git a/f b/f\n--- a/f\n+++ b/f\n@@ -1,{n} +1,{n} @@\n",
        n = RUNS * 2
    );
    for i in 0..RUNS {
        diff.push_str(&format!(" ctx{i}\n-old{i}\n+new{i}\n"));
    }
    let p = parse(diff.as_bytes()).unwrap();
    let ids: Vec<String> = build_view(&p)[0]
        .iter()
        .map(|sub| format!("@{}", subhunk_id(&p.files[0], sub)))
        .collect();
    assert_eq!(ids.len(), RUNS, "one sub-hunk per change run");
    let sels = parse_selectors(&args(&ids)).unwrap();

    let started = std::time::Instant::now();
    let out = select(&p, &sels).unwrap();
    let elapsed = started.elapsed();

    assert_eq!(out.files[0].hunk_count(), RUNS, "every id is selected");
    // The nextest profile bounds a test's runtime, but the documented fallback
    // (`cargo test -- --test-threads=4`) does not: a quadratic regression would hang there
    // instead of failing. Linear resolution of this input is a fraction of a second even in
    // a debug build, so a minute is unreachable without a change in complexity.
    assert!(
        elapsed < std::time::Duration::from_secs(60),
        "resolving {RUNS} ids took {elapsed:?}"
    );
}

/// The other half of the same cost, which deduplicating the picks does not touch: the
/// collision check compares the changed lines of every match against the first, so an id
/// shared by M sub-hunks costs M comparisons per occurrence. Naming it once per sub-hunk —
/// what a script reading `list --json` produces — made that quadratic on its own: 8 000
/// identical changes took 389 s with the picks already deduplicated. Kept end-to-end rather
/// than structural because the work is inside the check, not in a countable result.
#[test]
fn a_shared_id_named_once_per_match_stays_linear() {
    const RUNS: usize = 8_000;
    let mut diff = format!(
        "diff --git a/f b/f\n--- a/f\n+++ b/f\n@@ -1,{n} +1,{n} @@\n",
        n = RUNS * 2
    );
    for i in 0..RUNS {
        diff.push_str(&format!(" ctx{i}\n-old\n+new\n"));
    }
    let p = parse(diff.as_bytes()).unwrap();
    let ids: Vec<String> = build_view(&p)[0]
        .iter()
        .map(|sub| format!("@{}", subhunk_id(&p.files[0], sub)))
        .collect();
    assert_eq!(
        ids.iter().collect::<BTreeSet<_>>().len(),
        1,
        "identical changes must share one id"
    );
    let sels = parse_selectors(&args(&ids)).unwrap();

    let started = std::time::Instant::now();
    let out = select(&p, &sels).unwrap();
    let elapsed = started.elapsed();

    assert_eq!(
        out.files[0].hunk_count(),
        RUNS,
        "every sub-hunk is selected"
    );
    // The nextest profile bounds a test's runtime, but the documented fallback
    // (`cargo test -- --test-threads=4`) does not: a quadratic regression would run for
    // minutes there instead of failing. Linear resolution of this input is a fraction of a
    // second even in a debug build.
    assert!(
        elapsed < std::time::Duration::from_secs(60),
        "resolving {RUNS} copies of one shared id took {elapsed:?}"
    );
}

#[test]
fn select_id_is_case_insensitive() {
    let p = parse(TWO_CHANGES.as_bytes()).unwrap();
    let view = build_view(&p);
    let id = subhunk_id(&p.files[0], &view[0][0]).to_uppercase();
    let sels = parse_selectors(&args(&[format!("@{id}")])).unwrap();
    assert!(select(&p, &sels).is_ok(), "uppercase id must still match");
}

#[test]
fn select_id_selects_all_identical_subhunks() {
    let p = parse(SAME_TWICE.as_bytes()).unwrap();
    let view = build_view(&p);
    let subs = &view[0];
    assert_eq!(subs.len(), 2);
    let id0 = subhunk_id(&p.files[0], &subs[0]);
    let id1 = subhunk_id(&p.files[0], &subs[1]);
    assert_eq!(id0, id1, "identical changes must share an id");

    let sels = parse_selectors(&args(&[format!("@{id0}")])).unwrap();
    let out = select(&p, &sels).unwrap();
    match &out.files[0].content {
        FileContent::Text(hunks) => {
            assert_eq!(hunks.len(), 2, "both identical sub-hunks must be selected")
        }
        _ => panic!("expected text content"),
    }
}

#[test]
fn select_unknown_id_errors() {
    let p = parse(TWO_CHANGES.as_bytes()).unwrap();
    let sels = parse_selectors(&args(&["@0000000000000000".to_string()])).unwrap();
    assert!(matches!(select(&p, &sels), Err(SelectError::UnknownId(_))));
}

#[test]
fn collision_check_distinguishes_distinct_content() {
    let p = parse(TWO_CHANGES.as_bytes()).unwrap();
    let view = build_view(&p);
    let subs = &view[0];
    let f = &p.files[0];
    assert!(
        all_same_content(&[(f, &subs[0]), (f, &subs[0])]),
        "identical sub-hunks are not a collision"
    );
    assert!(
        !all_same_content(&[(f, &subs[0]), (f, &subs[1])]),
        "distinct sub-hunks sharing an id is a collision"
    );
}

#[test]
fn collision_check_ignores_context_differences() {
    // Same changed (+/-) lines but different surrounding context is the same change made
    // in two places — a legitimate duplicate selected together, not a hash collision. The
    // content check must compare only the changed lines, matching the context-free id.
    let f = mk_file("src/a.rs");
    let a = mk_hunk(&[
        (LineKind::Context, "before-a"),
        (LineKind::Del, "x"),
        (LineKind::Add, "y"),
        (LineKind::Context, "after-a"),
    ]);
    let b = mk_hunk(&[
        (LineKind::Context, "totally-different"),
        (LineKind::Del, "x"),
        (LineKind::Add, "y"),
    ]);
    assert!(
        all_same_content(&[(&f, &a), (&f, &b)]),
        "identical changes in different context must not count as a collision"
    );
}

#[test]
fn collision_check_flags_different_changed_lines() {
    // Same context but different changed lines is a genuine collision and must be rejected.
    let f = mk_file("src/a.rs");
    let a = mk_hunk(&[(LineKind::Context, "ctx"), (LineKind::Add, "y")]);
    let b = mk_hunk(&[(LineKind::Context, "ctx"), (LineKind::Add, "z")]);
    assert!(
        !all_same_content(&[(&f, &a), (&f, &b)]),
        "distinct changed lines must count as a collision"
    );
}

#[test]
fn select_unknown_index_errors() {
    let p = parse(TWO_CHANGES.as_bytes()).unwrap();
    let sels = parse_selectors(&args(&["9".to_string()])).unwrap();
    assert!(matches!(select(&p, &sels), Err(SelectError::NoIndex(_))));
}

#[test]
fn select_empty_is_error() {
    let p = parse(TWO_CHANGES.as_bytes()).unwrap();
    assert_eq!(select(&p, &[]), Err(SelectError::EmptySelection));
}

#[test]
fn removed_range_form_reports_friendly_error() {
    // The old `@lo-hi` added-line range form was removed. Any `INDEX@<not L>` selector,
    // bare or path-qualified, must fail with a message that names the `@L` replacement so a
    // caller can self-correct — not a bare "bad selector".
    for sel in ["1@1-3", "1@91-", "1@-90", "2@5", "src/f:1@1-90"] {
        match parse_selectors(&args(&[sel.to_string()])) {
            Err(SelectError::RemovedRangeForm(s)) => {
                assert_eq!(s, sel);
                assert!(
                    SelectError::RemovedRangeForm(s).message().contains("@L"),
                    "message for {sel} must steer to @L"
                );
            }
            other => panic!("selector {sel}: expected RemovedRangeForm, got {other:?}"),
        }
    }
}

#[test]
fn bad_selector_reports_specific_reason() {
    // A bare selector that fails to parse must carry *why* it failed, not a bare
    // "bad selector": reversed range, zero bound, non-numeric bound.
    let cases = [
        ("2-1", "reversed range"),
        ("0", "1-based"),
        ("a", "not a number"),
    ];
    for (sel, needle) in cases {
        match parse_selectors(&args(&[sel.to_string()])) {
            Err(SelectError::BadSelector(msg)) => assert!(
                msg.contains(needle),
                "selector {sel}: message {msg:?} lacks {needle:?}"
            ),
            other => panic!("selector {sel}: expected BadSelector, got {other:?}"),
        }
    }
}

#[test]
fn path_form_reports_the_set_reason_not_the_whole_arg() {
    // In `path:set` a broken set used to be re-read as a bare set together with the path,
    // so `f:2-1` was reported as "not a number: f:2" instead of naming the real fault.
    let cases = [
        ("f:2-1", "reversed range"),
        ("f:0", "1-based"),
        ("f:1-99999999", "range too large"),
    ];
    for (sel, needle) in cases {
        match parse_selectors(&args(&[sel.to_string()])) {
            Err(SelectError::BadSelector(msg)) => assert!(
                msg.contains(needle),
                "selector {sel}: message {msg:?} lacks {needle:?}"
            ),
            other => panic!("selector {sel}: expected BadSelector, got {other:?}"),
        }
    }
    // A colon inside a path is still a path: the text after it is not set-shaped, so the
    // arg falls through to the path form rather than being reported as a broken set.
    let parsed = parse_selectors(&args(&["x:y:1".to_string()])).unwrap();
    assert!(
        matches!(&parsed[0], Selector::File { path: Some(p), .. } if p == b"x:y"),
        "expected path form for x:y:1, got {parsed:?}"
    );
}

const PURE_ADD_FILE: &str = "\
diff --git a/f b/f
new file mode 100644
--- /dev/null
+++ b/f
@@ -0,0 +1,4 @@
+l1
+l2
+l3
+l4
";

#[test]
fn select_line_set_first_two_changed_lines() {
    let p = parse(PURE_ADD_FILE.as_bytes()).unwrap();
    let sels = parse_selectors(&args(&["1@L1,2".to_string()])).unwrap();
    let out = select(&p, &sels).unwrap();
    let text = String::from_utf8(emit(&out)).unwrap();
    assert!(text.contains("+l1"));
    assert!(text.contains("+l2"));
    assert!(!text.contains("+l3"));
    assert!(!text.contains("+l4"));
}

/// A single-file replacement diff: file `a,b` -> `A,B` as one contiguous run.
/// Changed lines: 1=`-a`, 2=`-b`, 3=`+A`, 4=`+B`.
const REPLACEMENT: &str = "\
diff --git a/f b/f
--- a/f
+++ b/f
@@ -1,2 +1,2 @@
-a
-b
+A
+B
";

#[test]
fn parse_line_set_selector() {
    let sels = parse_selectors(&args(&["1@L1,3".to_string()])).unwrap();
    assert_eq!(
        sels[0],
        Selector::File {
            path: None,
            indices: IndexSet::LineSet {
                index: 1,
                lines: vec![1, 3],
            },
        }
    );
    // Ranges inside the set expand like an index list.
    let sels = parse_selectors(&args(&["2@L1-2,4".to_string()])).unwrap();
    assert_eq!(
        sels[0],
        Selector::File {
            path: None,
            indices: IndexSet::LineSet {
                index: 2,
                lines: vec![1, 2, 4],
            },
        }
    );
}

#[test]
fn parse_line_set_with_path() {
    let sels = parse_selectors(&args(&["src/f:2@L1".to_string()])).unwrap();
    assert_eq!(
        sels[0],
        Selector::File {
            path: Some(b"src/f".to_vec()),
            indices: IndexSet::LineSet {
                index: 2,
                lines: vec![1],
            },
        }
    );
    // A range inside the set expands the same way behind a path.
    let sels = parse_selectors(&args(&["src/f:2@L1-2,4".to_string()])).unwrap();
    assert_eq!(
        sels[0],
        Selector::File {
            path: Some(b"src/f".to_vec()),
            indices: IndexSet::LineSet {
                index: 2,
                lines: vec![1, 2, 4],
            },
        }
    );
}

#[test]
fn parse_line_set_rejects_malformed() {
    // Empty set, zero index bound, zero sub-hunk index, reversed range inside the set.
    assert!(parse_selectors(&args(&["1@L".to_string()])).is_err());
    assert!(parse_selectors(&args(&["1@L0".to_string()])).is_err());
    assert!(parse_selectors(&args(&["0@L1".to_string()])).is_err());
    assert!(parse_selectors(&args(&["1@L3-1".to_string()])).is_err());
    // '@id@Lset' is NOT supported: only a numeric index may precede '@'.
    assert!(parse_selectors(&args(&["@deadbeef@L1-2".to_string()])).is_err());
}

#[test]
fn select_line_set_out_of_range_errors() {
    let p = parse(REPLACEMENT.as_bytes()).unwrap(); // 4 changed lines
    let sels = parse_selectors(&args(&["1@L5".to_string()])).unwrap();
    assert!(matches!(select(&p, &sels), Err(SelectError::LineSelect(_))));
}

#[test]
fn select_line_set_unknown_index_errors() {
    let p = parse(REPLACEMENT.as_bytes()).unwrap();
    let sels = parse_selectors(&args(&["9@L1".to_string()])).unwrap();
    assert!(matches!(select(&p, &sels), Err(SelectError::NoIndex(_))));
}

#[test]
fn select_line_set_combined_with_whole_same_subhunk_rejected() {
    // `@L` of a sub-hunk plus the whole sub-hunk double-counts its lines: usage error.
    let p = parse(REPLACEMENT.as_bytes()).unwrap();
    let sels = parse_selectors(&args(&["1".to_string(), "1@L1".to_string()])).unwrap();
    assert!(matches!(select(&p, &sels), Err(SelectError::LineSelect(_))));
}

#[test]
fn select_two_line_sets_of_same_subhunk_rejected() {
    // Two `@L` selections of the same sub-hunk in one invocation would emit mutually
    // inconsistent pieces: usage error, use the re-diff loop instead.
    let p = parse(REPLACEMENT.as_bytes()).unwrap();
    let sels = parse_selectors(&args(&["1@L1,2".to_string(), "1@L3,4".to_string()])).unwrap();
    assert!(matches!(select(&p, &sels), Err(SelectError::LineSelect(_))));
}

#[test]
fn huge_range_is_rejected_without_allocating() {
    // An unbounded range from the command line is refused before any index is materialised.
    assert!(parse_selectors(&args(&["1-100000000"])).is_err());
}

#[test]
fn resolve_hunk_addresses_original_hunk() {
    let p = parse(TWO_CHANGES.as_bytes()).unwrap();
    assert_eq!(hunkpick::select::resolve_hunk(&p, b"1").unwrap(), (0, 0));
}

#[test]
fn selector_path_may_hold_invalid_utf8() {
    // A diff can name a file whose path is not valid UTF-8, so the selector must be able to
    // spell it: the path is kept as raw bytes, only the set after ':' is text.
    let sels = parse_selectors(&[b"bad\xffname.txt:1,3".to_vec()]).unwrap();
    assert_eq!(
        sels[0],
        Selector::File {
            path: Some(b"bad\xffname.txt".to_vec()),
            indices: IndexSet::List(vec![1, 3]),
        }
    );
    // Without a set there is nothing such an argument could be: report why.
    match parse_selectors(&[b"bad\xffname.txt".to_vec()]) {
        Err(SelectError::BadSelector(msg)) => {
            assert!(msg.contains("not valid UTF-8"), "message was {msg:?}")
        }
        other => panic!("expected BadSelector, got {other:?}"),
    }
    assert!(parse_selectors(&args(&["1@L3-1"])).is_err());
    // '@id@Lset' is not supported: only a numeric index may precede '@'.
    assert!(parse_selectors(&args(&["@deadbeef@L1-2"])).is_err());
}

/// Whether `diff` applies strictly to a file holding `content`: every hunk at the place its
/// header names, finding its old-side lines there, in one pass.
fn applies_to_file(diff: &[u8], content: &str) -> bool {
    let p = parse(diff).unwrap();
    let file: Vec<&str> = content.lines().collect();
    let hunks = match &p.files[0].content {
        FileContent::Text(hs) => hs,
        FileContent::Binary(_) => return false,
    };
    let mut cur = 0usize;
    for h in hunks {
        let old: Vec<&[u8]> = h
            .lines
            .iter()
            .filter(|l| l.kind != LineKind::Add)
            .map(|l| l.text.as_slice())
            .collect();
        let at = if h.old_lines == 0 { h.old_start as usize } else { h.old_start as usize - 1 };
        if at < cur || at + old.len() > file.len() {
            return false;
        }
        if file[at..at + old.len()].iter().map(|s| s.as_bytes()).ne(old.iter().copied()) {
            return false;
        }
        cur = at + old.len();
    }
    true
}

#[test]
fn select_line_set_separates_deletions_from_additions() {
    // Two invocations, each applying to the original file, stage the removals and the
    // insertions of a replacement independently.
    let p = parse(REPLACEMENT.as_bytes()).unwrap();

    let dels = select(&p, &parse_selectors(&args(&["1@L1,2"])).unwrap()).unwrap();
    let dels_text = String::from_utf8(emit(&dels)).unwrap();
    assert!(dels_text.contains("-a") && dels_text.contains("-b"));
    assert!(!dels_text.contains("+A") && !dels_text.contains("+B"));
    assert!(applies_to_file(&emit(&dels), "a\nb\n"), "deletion piece must apply");

    let adds = select(&p, &parse_selectors(&args(&["1@L3,4"])).unwrap()).unwrap();
    let adds_text = String::from_utf8(emit(&adds)).unwrap();
    assert!(adds_text.contains("+A") && adds_text.contains("+B"));
    assert!(!adds_text.contains("-a"), "deletions must be context, not `-`");
    assert!(applies_to_file(&emit(&adds), "a\nb\n"), "addition piece must apply");
}

#[test]
fn select_second_subhunk_applies_via_git() {
    let p = parse(TWO_CHANGES.as_bytes()).unwrap();
    // Only the second sub-hunk (the d->D change).
    let out = select(&p, &parse_selectors(&args(&["2"])).unwrap()).unwrap();
    let diff = emit(&out);
    assert!(
        applies_to_file(&diff, "a\nb\nc\nd\ne\n"),
        "second-only sub-hunk failed to apply:\n{}",
        String::from_utf8_lossy(&diff)
    );
}
