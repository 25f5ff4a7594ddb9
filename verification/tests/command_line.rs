//! End-to-end scenarios of the three commands, run through the same library calls the
//! `hunkpick` binary makes: read at most one byte past the limit, refuse or parse the input,
//! run the command, check the result, and report an error as `hunkpick: <message>` with its
//! exit code. Only argument parsing, the terminal and git itself are left out.

use hunkpick::command::{select_command, split_command, verified_result};
use hunkpick::error::AppError;
use hunkpick::input::{load_and_parse, read_limited};
use hunkpick::list::{list_entries, list_human, ListedFile};
use hunkpick::model::LineKind;
use hunkpick::renumber::bodies_in_bounds;
use hunkpick::select::patch_in_bounds;

/// What a run of the command answers.
struct Outcome {
    code: u8,
    stdout: Vec<u8>,
    stderr: String,
}

impl Outcome {
    fn text(&self) -> String {
        String::from_utf8_lossy(&self.stdout).into_owned()
    }
}

/// The options and operands of one command line, as the binary reads them.
struct Line<'a> {
    command: &'a str,
    operands: Vec<Vec<u8>>,
    at: Vec<u32>,
    max_input_bytes: u64,
    no_internal_check: bool,
}

fn parse_line<'a>(args: &[&'a str]) -> Line<'a> {
    let mut line = Line {
        command: args[0],
        operands: Vec::new(),
        at: Vec::new(),
        max_input_bytes: hunkpick::cli::DEFAULT_MAX_INPUT_BYTES,
        no_internal_check: false,
    };
    let mut i = 1;
    while i < args.len() {
        match args[i] {
            "--at" => {
                line.at = args[i + 1].split(',').map(|n| n.parse().unwrap()).collect();
                i += 1;
            }
            "--max-input-bytes" => {
                line.max_input_bytes = args[i + 1].parse().unwrap();
                i += 1;
            }
            "--input" | "-i" => {
                assert_eq!(args[i + 1], "-", "only stdin is read here");
                i += 1;
            }
            "--no-verify-result-diff-internal" => line.no_internal_check = true,
            other => line.operands.push(other.as_bytes().to_vec()),
        }
        i += 1;
    }
    line
}

fn execute(line: &Line, stdin: &[u8]) -> Result<Vec<u8>, AppError> {
    let taken = if line.max_input_bytes == 0 {
        stdin
    } else {
        let cap = line.max_input_bytes.saturating_add(1);
        &stdin[..stdin.len().min(cap as usize)]
    };
    let input = read_limited(taken, line.max_input_bytes)?;
    let Some(patch) = load_and_parse(&input)? else {
        return Ok(Vec::new());
    };
    let out = match line.command {
        "list" => {
            assert!(patch_in_bounds(&patch));
            let mut text = list_human(&patch, false);
            if !text.ends_with('\n') {
                text.push('\n');
            }
            return Ok(text.into_bytes());
        }
        "select" => {
            assert!(patch_in_bounds(&patch));
            select_command(&patch, &line.operands)?
        }
        "split" => split_command(patch, &line.operands[0], &line.at)?,
        other => panic!("no command {other}"),
    };
    assert!(bodies_in_bounds(&out));
    verified_result(&out, !line.no_internal_check)
}

/// Run `hunkpick ARGS` over `stdin`.
fn hunkpick(args: &[&str], stdin: impl AsRef<[u8]>) -> Outcome {
    outcome(&parse_line(args), stdin.as_ref())
}

/// Run `hunkpick COMMAND OPERANDS [--at AT]` with operands given as raw bytes, the way a
/// command line can hold a path that is not UTF-8.
fn hunkpick_raw(command: &str, operands: &[&[u8]], at: &[u32], stdin: &[u8]) -> Outcome {
    let line = Line {
        command,
        operands: operands.iter().map(|o| o.to_vec()).collect(),
        at: at.to_vec(),
        max_input_bytes: hunkpick::cli::DEFAULT_MAX_INPUT_BYTES,
        no_internal_check: false,
    };
    outcome(&line, stdin)
}

fn outcome(line: &Line, stdin: &[u8]) -> Outcome {
    match execute(line, stdin) {
        Ok(stdout) => Outcome {
            code: 0,
            stdout,
            stderr: String::new(),
        },
        Err(e) => Outcome {
            code: e.exit_code(),
            stdout: Vec::new(),
            stderr: format!("hunkpick: {}\n", e.message()),
        },
    }
}

/// Run `hunkpick ARGS` over `stdin`, which must succeed; its stdout.
fn run_ok(args: &[&str], stdin: impl AsRef<[u8]>) -> Vec<u8> {
    let out = hunkpick(args, stdin);
    assert_eq!(out.code, 0, "hunkpick {args:?} failed: {}", out.stderr);
    out.stdout
}

fn run_ok_text(args: &[&str], stdin: impl AsRef<[u8]>) -> String {
    String::from_utf8(run_ok(args, stdin)).unwrap()
}

/// The listing entries of `diff`, the data `list --json` prints.
fn listing(diff: &str) -> Vec<ListedFile> {
    let patch = load_and_parse(diff.as_bytes()).unwrap().expect("a diff");
    list_entries(&patch)
}

/// The `@@` header lines of a diff, in order.
fn headers(diff: &str) -> Vec<String> {
    diff.lines()
        .filter(|l| l.starts_with("@@"))
        .map(str::to_string)
        .collect()
}

/// A unified diff with two separate single-line changes in one hunk,
/// separated by a context line: two auto-split sub-hunks.
const TWO_CHANGES: &str = "\
diff --git a/f b/f
--- a/f
+++ b/f
@@ -1,5 +1,5 @@
 a
-b
+B
 c
-d
+D
 e
";

/// A file-creation diff: four added lines, one addition-only sub-hunk.
const NEW_FILE_DIFF: &str = "\
diff --git a/new.txt b/new.txt
new file mode 100644
--- /dev/null
+++ b/new.txt
@@ -0,0 +1,4 @@
+l1
+l2
+l3
+l4
";

#[test]
fn select_emits_chosen_subhunk_only() {
    let out = run_ok_text(&["select", "1"], TWO_CHANGES);
    assert!(out.contains("+B"), "{out}");
    assert!(!out.contains("+D"), "{out}");

    let out = run_ok_text(&["select", "2"], TWO_CHANGES);
    assert!(out.contains("+D"), "{out}");
    assert!(!out.contains("+B"), "{out}");
}

#[test]
fn select_range() {
    let out = run_ok_text(&["select", "1-2"], TWO_CHANGES);
    assert!(out.contains("+B"), "{out}");
    assert!(out.contains("+D"), "{out}");
}

#[test]
fn list_human_shows_indices() {
    let out = run_ok_text(&["list"], TWO_CHANGES);
    assert!(out.contains("[1]"), "{out}");
    assert!(out.contains("[2]"), "{out}");
    assert!(out.contains('f'), "{out}");
}

#[test]
fn list_json_is_valid() {
    let files = listing(TWO_CHANGES);
    assert_eq!(files.len(), 1, "expected one file entry");
    assert_eq!(files[0].path, "f");
    let hunks = &files[0].hunks;
    assert_eq!(hunks.len(), 2, "expected two sub-hunks for file f");
    assert_eq!(hunks[0].index, 1);
    assert_eq!(hunks[1].index, 2);
}

#[test]
fn split_replaces_hunk_with_pieces() {
    // New-file line 3 is the context line "c"; cutting there splits the hunk in two.
    let text = run_ok_text(&["split", "1", "--at", "3"], TWO_CHANGES);
    let hunk_lines: Vec<&str> = text.lines().filter(|l| l.starts_with("@@")).collect();
    assert_eq!(hunk_lines.len(), 2, "expected 2 @@ hunk header lines, got: {text}");
}

#[test]
fn bad_selector_exits_2() {
    assert_eq!(hunkpick(&["select", "nope:x"], TWO_CHANGES).code, 2);
}

#[test]
fn empty_selection_exits_2() {
    assert_eq!(hunkpick(&["select"], TWO_CHANGES).code, 2);
}

#[test]
fn out_of_range_index_exits_2() {
    assert_eq!(hunkpick(&["select", "9"], TWO_CHANGES).code, 2);
}

#[test]
fn no_verify_internal_flag_accepted() {
    let out = run_ok_text(&["select", "1", "--no-verify-result-diff-internal"], TWO_CHANGES);
    assert!(out.contains("+B"), "{out}");
}

#[test]
fn select_changed_lines_first_part() {
    let out = run_ok_text(&["select", "1@L1,2"], NEW_FILE_DIFF);
    assert!(out.contains("+l1"), "{out}");
    assert!(out.contains("+l2"), "{out}");
    assert!(!out.contains("+l3"), "{out}");
    assert!(!out.contains("+l4"), "{out}");
}

#[test]
fn select_changed_lines_out_of_range_is_usage_error() {
    let out = hunkpick(&["select", "1@L1-99"], NEW_FILE_DIFF);
    assert_ne!(out.code, 0);
    assert!(out.stderr.contains("out of range"), "{}", out.stderr);
}

#[test]
fn removed_lo_hi_range_form_is_friendly_usage_error() {
    let out = hunkpick(&["select", "1@1-2"], NEW_FILE_DIFF);
    assert_eq!(out.code, 2);
    assert!(out.stderr.contains("@lo-hi"), "{}", out.stderr);
    assert!(out.stderr.contains("@L"), "{}", out.stderr);
}

#[test]
fn select_whole_and_lineset_of_same_subhunk_exits_2() {
    let out = hunkpick(
        &["select", "--no-verify-result-diff-internal", "1", "1@L1,2"],
        NEW_FILE_DIFF,
    );
    assert_eq!(out.code, 2);
    assert!(out.stderr.contains("sub-hunk 1"), "{}", out.stderr);
}

/// Auto-splitting a hunk with many change runs stays linear in their number.
#[test]
fn many_change_runs_split_without_quadratic_blowup() {
    const RUNS: usize = 20_000;
    let mut diff = format!(
        "diff --git a/f b/f\n--- a/f\n+++ b/f\n@@ -1,{n} +1,{n} @@\n",
        n = RUNS * 2
    );
    for i in 0..RUNS {
        diff.push_str(&format!(" ctx{i}\n-old{i}\n+new{i}\n"));
    }

    let started = std::time::Instant::now();
    let files = listing(&diff);
    let elapsed = started.elapsed();
    let listed: usize = files.iter().map(|f| f.hunks.len()).sum();
    assert_eq!(listed, RUNS, "one sub-hunk per change run");
    assert!(
        elapsed < std::time::Duration::from_secs(60),
        "listing {RUNS} change runs took {elapsed:?}; the split is no longer linear"
    );
}

/// `split` and `select` treat new-side anchors the same way: both recompute them.
#[test]
fn split_recomputes_new_side_anchors_like_select() {
    let diff = "\
diff --git a/f b/f
--- a/f
+++ b/f
@@ -17,5 +18,5 @@
 a
-b
+B
 c
-d
+D
 e
";
    let out = run_ok_text(&["split", "1", "--at", "20"], diff);
    assert!(out.contains("@@ -17,3 +17,3 @@"), "{out}");
    assert!(!out.contains("+18,"), "{out}");

    let out = run_ok_text(&["select", "1"], diff);
    assert!(out.contains("@@ -17,3 +17,3 @@"), "{out}");
}

/// Re-emitting a diff whose every hunk is followed by a line stays linear in the number of
/// hunks: four times the input costs about four times as much.
#[test]
fn emitting_trailing_lines_stays_linear_in_the_number_of_hunks() {
    fn diff_with_separators(hunks: usize) -> String {
        let mut d = String::from("diff --git a/f b/f\n--- a/f\n+++ b/f\n");
        for i in 0..hunks {
            let base = i * 4 + 1;
            d.push_str(&format!(
                "@@ -{base},3 +{base},3 @@\n ctx{i}\n-old{i}\n+new{i}\n\n"
            ));
        }
        d
    }

    fn split_duration(hunks: usize) -> std::time::Duration {
        let diff = diff_with_separators(hunks);
        let started = std::time::Instant::now();
        let out = run_ok_text(&["split", "1", "--at", "1"], &diff);
        let elapsed = started.elapsed();
        assert_eq!(out.matches("@@ -").count(), hunks, "every hunk must survive the split");
        elapsed
    }

    const SMALL: usize = 8_000;
    let small = split_duration(SMALL);
    let large = split_duration(SMALL * 4);
    let ratio = large.as_secs_f64() / small.as_secs_f64().max(f64::MIN_POSITIVE);
    assert!(
        ratio < 8.0,
        "four times the hunks took {ratio:.1}x the time ({small:?} -> {large:?}); \
         linear emission costs about 4x, quadratic about 16x"
    );
}

/// A selection that does not end on the input's unterminated last line ends with a newline.
#[test]
fn a_selection_that_drops_the_last_line_still_ends_with_a_newline() {
    let diff = "diff --git a/f b/f\n--- a/f\n+++ b/f\n@@ -1,5 +1,5 @@\n a\n-b\n+B\n c\n d\n-e\n+E";

    let out = run_ok_text(&["select", "1"], diff);
    assert!(out.ends_with('\n'), "{out:?}");

    let out = run_ok_text(&["select", "2"], diff);
    assert!(!out.ends_with('\n'), "{out:?}");
}

/// A hunk header the model cannot represent is refused, not quietly rewritten.
#[test]
fn a_hunk_header_with_junk_is_a_parse_error() {
    for header in ["@@ -1,3,9 +1,3 @@", "@@ -1,3 +1,3 junk @@ sect"] {
        let diff = format!("diff --git a/f b/f\n--- a/f\n+++ b/f\n{header}\n a\n-b\n+B\n c\n",);
        let out = hunkpick(&["list"], diff);
        assert_eq!(out.code, 2);
        assert!(out.stderr.contains("hunk header"), "{}", out.stderr);
    }
}

/// A UTF-16LE diff with a BOM is named as an encoding problem, not as binary input.
#[test]
fn a_utf16_diff_is_diagnosed_as_an_encoding_problem() {
    let text = "diff --git a/f b/f\n--- a/f\n+++ b/f\n@@ -1 +1 @@\n-old\n+new\n";
    let mut utf16 = vec![0xFF, 0xFE];
    for unit in text.encode_utf16() {
        utf16.extend_from_slice(&unit.to_le_bytes());
    }
    let out = hunkpick(&["list"], utf16);
    assert_eq!(out.code, 2);
    assert!(out.stderr.contains("UTF-16"), "{}", out.stderr);
}

// ---------------------------------------------------------------------------
// Encodings and refused input
// ---------------------------------------------------------------------------

#[test]
fn non_utf8_content_round_trips() {
    let mut input = Vec::new();
    input.extend_from_slice(b"--- a/f\n+++ b/f\n@@ -1 +1 @@\n-caf");
    input.push(0xE9);
    input.push(b'\n');
    input.extend_from_slice(b"+CAF");
    input.push(0xE9);
    input.push(b'\n');

    let out = run_ok(&["select", "1"], input);
    assert_eq!(out.iter().filter(|&&b| b == 0xE9).count(), 2, "{out:?}");
}

/// What `hunkpick list` answers when handed `stream`: exit 2, and the diagnosis.
fn the_diagnosis_for(stream: impl AsRef<[u8]>) -> String {
    let out = hunkpick(&["list"], stream);
    assert_eq!(out.code, 2, "stderr: {}", out.stderr);
    out.stderr
}

#[test]
fn nul_byte_input_exits_2() {
    assert!(the_diagnosis_for(vec![0u8, 1, 2, b'h', b'i']).contains("NUL byte"));
}

#[test]
fn non_diff_text_exits_2() {
    assert!(the_diagnosis_for("hello world\nthis is not a diff\n").contains("no diff markers found"));
}

#[test]
fn empty_input_list_is_noop() {
    let out = hunkpick(&["list"], "");
    assert_eq!(out.code, 0);
    assert_eq!(out.stdout, b"");
}

#[test]
fn empty_input_select_is_noop() {
    let out = hunkpick(&["select", "1"], "");
    assert_eq!(out.code, 0);
    assert_eq!(out.stdout, b"");
}

#[test]
fn whitespace_only_input_is_noop() {
    let out = hunkpick(&["select", "1"], "  \n\t\n");
    assert_eq!(out.code, 0);
    assert_eq!(out.stdout, b"");
}

#[test]
fn a_non_ascii_space_in_the_hunk_header_exits_2() {
    let input = "diff --git a/f b/f\n--- a/f\n+++ b/f\n@@ -1,3\u{a0}+1,3 @@\n a\n-b\n+B\n c\n";
    let out = hunkpick(&["select", "*"], input);
    assert_eq!(out.code, 2);
    assert!(out.stderr.contains("malformed hunk header"), "{}", out.stderr);
}

/// A diff whose lines end with `ending`, as UTF-16 in the byte order `to_bytes` writes.
fn a_utf16_diff(ending: &str, to_bytes: fn(u16) -> [u8; 2]) -> Vec<u8> {
    let text = format!(
        "diff --git a/f b/f{ending}--- a/f{ending}+++ b/f{ending}\
         @@ -1 +1 @@{ending}-old{ending}+new{ending}"
    );
    text.encode_utf16().flat_map(to_bytes).collect()
}

#[test]
fn a_utf16_diff_without_a_bom_names_the_encoding() {
    assert!(the_diagnosis_for(a_utf16_diff("\n", u16::to_le_bytes)).contains("UTF-16LE"));
}

#[test]
fn a_utf16be_diff_without_a_bom_names_the_encoding() {
    assert!(the_diagnosis_for(a_utf16_diff("\n", u16::to_be_bytes)).contains("UTF-16BE"));
}

#[test]
fn a_utf16_diff_written_with_carriage_returns_names_the_encoding() {
    assert!(the_diagnosis_for(a_utf16_diff("\r\n", u16::to_le_bytes)).contains("UTF-16LE"));
}

#[test]
fn binary_input_is_still_reported_as_binary() {
    let stream = vec![
        0x89, 0x50, 0x4E, 0x47, 0x0D, 0x0A, 0x1A, 0x0A, 0x00, 0x00, 0x00, 0x0D,
    ];
    assert!(the_diagnosis_for(stream).contains("binary input"));
}

#[test]
fn a_quoted_path_round_trips_and_is_addressable_by_its_bytes() {
    let input = "diff --git \"a/\\303\\251.txt\" \"b/\\303\\251.txt\"\n--- \"a/\\303\\251.txt\"\n+++ \"b/\\303\\251.txt\"\n@@ -1,3 +1,3 @@\n one\n-two\n+TWO\n three\n";
    let out = run_ok(&["select", "\u{e9}.txt:1"], input);
    assert_eq!(String::from_utf8_lossy(&out), input);
}

// ---------------------------------------------------------------------------
// The input size limit
// ---------------------------------------------------------------------------

const SMALL_DIFF: &str = "\
diff --git a/f b/f
--- a/f
+++ b/f
@@ -1,3 +1,3 @@
 a
-b
+B
 c
";

#[test]
fn dash_input_means_stdin() {
    let out = run_ok_text(&["select", "1", "--input", "-"], SMALL_DIFF);
    assert!(out.contains("+B"), "{out}");
}

#[test]
fn exceeds_limit_exits_2() {
    let out = hunkpick(&["list", "--max-input-bytes", "10"], SMALL_DIFF);
    assert_eq!(out.code, 2);
    assert!(out.stderr.contains("exceeds limit"), "{}", out.stderr);
}

#[test]
fn zero_limit_is_unlimited() {
    let out = run_ok_text(&["list", "--max-input-bytes", "0"], SMALL_DIFF);
    assert!(out.contains("[1]"), "{out}");
}

#[test]
fn exactly_limit_is_accepted() {
    let limit = SMALL_DIFF.len().to_string();
    run_ok(&["list", "--max-input-bytes", &limit], SMALL_DIFF);
}

// ---------------------------------------------------------------------------
// Special diff forms
// ---------------------------------------------------------------------------

#[test]
fn crlf_preserved() {
    let diff: Vec<u8> = "diff --git a/f b/f\r\n--- a/f\r\n+++ b/f\r\n@@ -1,3 +1,3 @@\r\n a\r\n-b\r\n+B\r\n c\r\n"
    .bytes()
    .collect();
    let out = run_ok(&["select", "1"], diff);
    assert!(out.contains(&b'\r'), "output must preserve \\r bytes from CRLF input");
}

#[test]
fn plain_non_git_diff() {
    let diff = "\
--- old/f
+++ new/f
@@ -1,3 +1,3 @@
 a
-b
+B
 c
";
    let out = run_ok_text(&["select", "1"], diff);
    assert!(out.starts_with("--- "), "{out}");
}

/// The diff git writes for a change to a file whose name is not ASCII: quoted, C-escaped.
#[test]
fn quoted_non_ascii_path_is_addressable() {
    let diff = "diff --git \"a/\\303\\251.txt\" \"b/\\303\\251.txt\"\nindex 422c2b7..8d32a0d 100644\n--- \"a/\\303\\251.txt\"\n+++ \"b/\\303\\251.txt\"\n@@ -1,2 +1,2 @@\n a\n-b\n+B\n";
    assert!(diff.contains("\\303\\251"));

    let text = String::from_utf8_lossy(&run_ok(&["select", "é.txt:1"], diff)).into_owned();
    assert!(text.contains("\\303\\251"), "emitted diff keeps the original spelling: {text}");

    let out = run_ok_text(&["list"], diff);
    assert!(out.contains("é.txt"), "{out}");
}

#[test]
fn rename_only_entry_is_selectable_with_star() {
    let diff = "\
diff --git a/old b/new
similarity index 100%
rename from old
rename to new
";
    let out = run_ok_text(&["select", "*"], diff);
    assert!(out.contains("rename from old"), "{out}");
    assert!(out.contains("rename to new"), "{out}");
}

/// The diff git writes for `git rm` of a five-line file.
#[test]
fn a_partial_line_set_on_a_deleted_file_is_a_usage_error() {
    let diff = "\
diff --git a/f b/f
deleted file mode 100644
index 8b137d8..0000000
--- a/f
+++ /dev/null
@@ -1,5 +0,0 @@
-l1
-l2
-l3
-l4
-l5
";
    assert!(diff.contains("deleted file mode"));

    let out = hunkpick(&["select", "1@L1,2"], diff);
    assert_eq!(out.code, 2);
    assert!(out.stderr.contains("deletes the file as a whole"), "{}", out.stderr);

    run_ok(&["select", "1"], diff);
}

#[test]
fn a_combined_diff_is_rejected_as_a_usage_error() {
    let diff = "diff --cc f\nindex 1111111,2222222..3333333\n--- a/f\n+++ b/f\n@@@ -1,3 -1,3 +1,3 @@@\n  ctx\n--- removed in both\n++ added\n";
    for args in [vec!["list"], vec!["select", "f:*"]] {
        let out = hunkpick(&args, diff);
        assert_eq!(out.code, 2);
        assert!(out.stderr.contains("combined"), "{}", out.stderr);
    }
}

#[test]
fn a_combined_diff_without_file_markers_is_still_named_as_combined() {
    let diff = "diff --cc f\nindex 1111111,2222222..3333333\n@@@ -1,2 -1,2 +1,2 @@@\n  ctx\n++ added\n";
    let out = hunkpick(&["list"], diff);
    assert_eq!(out.code, 2);
    assert!(out.stderr.contains("combined"), "{}", out.stderr);
}

// ---------------------------------------------------------------------------
// New-side anchors, content ids, and several files, over the diffs git writes for them
// ---------------------------------------------------------------------------

/// `git diff` of a 30-line file with one line inserted after line 3 and line 20 replaced.
fn inserted_and_replaced() -> String {
    let mut d = String::from(
        "diff --git a/f.txt b/f.txt\nindex 1111111..2222222 100644\n--- a/f.txt\n+++ b/f.txt\n",
    );
    d.push_str("@@ -1,6 +1,7 @@\n line 1\n line 2\n line 3\n+inserted A\n line 4\n line 5\n line 6\n");
    d.push_str("@@ -17,7 +18,7 @@ line 16\n line 17\n line 18\n line 19\n-line 20\n+LINE 20\n");
    d.push_str(" line 21\n line 22\n line 23\n");
    d
}

#[test]
fn skipping_an_insertion_resets_the_next_hunks_new_start() {
    let diff = inserted_and_replaced();
    assert_eq!(
        headers(&diff),
        vec!["@@ -1,6 +1,7 @@", "@@ -17,7 +18,7 @@ line 16"],
        "input diff shape changed:\n{diff}"
    );
    let out = run_ok_text(&["select", "2"], &diff);
    assert_eq!(headers(&out), vec!["@@ -17,7 +17,7 @@ line 16"], "{out}");
}

#[test]
fn selecting_everything_keeps_the_input_anchors() {
    let diff = inserted_and_replaced();
    let out = run_ok_text(&["select", "*"], &diff);
    assert_eq!(
        headers(&out),
        vec!["@@ -1,6 +1,7 @@", "@@ -17,7 +18,7 @@ line 16"]
    );
}

#[test]
fn line_set_slice_gets_a_recomputed_anchor() {
    let diff = inserted_and_replaced();
    let out = run_ok_text(&["select", "2@L2"], &diff);
    assert_eq!(headers(&out), vec!["@@ -17,7 +17,8 @@ line 16"], "{out}");
}

/// The content ids of `diff`, across all files, in listing order.
fn ids(diff: &str) -> Vec<String> {
    listing(diff)
        .into_iter()
        .flat_map(|f| f.hunks.into_iter().map(|h| h.id))
        .collect()
}

/// The id of a change does not move with an unrelated edit above it.
#[test]
fn id_and_star_id_is_stable_across_line_number_shift() {
    // `git diff` of `a`..`j` with `i` changed to `I`.
    let diff_a = "\
diff --git a/f b/f
index 1111111..2222222 100644
--- a/f
+++ b/f
@@ -6,5 +6,5 @@ e
 f
 g
 h
-i
+I
 j
";
    let ids_a = ids(diff_a);
    assert_eq!(ids_a.len(), 1, "variant A has one sub-hunk");
    let id_lower = ids_a[0].clone();

    // The same change, with a new first line inserted above it.
    let diff_b = "\
diff --git a/f b/f
index 1111111..3333333 100644
--- a/f
+++ b/f
@@ -1,3 +1,4 @@
+X
 a
 b
 c
@@ -6,5 +7,5 @@ e
 f
 g
 h
-i
+I
 j
";
    let ids_b = ids(diff_b);
    assert_eq!(ids_b.len(), 2, "variant B has two sub-hunks");
    assert!(ids_b.contains(&id_lower), "{id_lower} not in {ids_b:?}");
}

/// `git diff` over two files: `src/a.rs` with lines 1 and 3 changed, `src/b.rs` with line 1.
#[test]
fn path_star_selects_one_file_of_many() {
    let diff = "\
diff --git a/src/a.rs b/src/a.rs
index 1111111..2222222 100644
--- a/src/a.rs
+++ b/src/a.rs
@@ -1,5 +1,5 @@
-a
+A
 b
-c
+C
 d
 e
diff --git a/src/b.rs b/src/b.rs
index 3333333..4444444 100644
--- a/src/b.rs
+++ b/src/b.rs
@@ -1,3 +1,3 @@
-p
+P
 q
 r
";
    let out = run_ok_text(&["select", "src/a.rs:*"], diff);
    assert!(out.contains("+A"), "{out}");
    assert!(out.contains("+C"), "{out}");
    assert!(!out.contains("src/b.rs"), "{out}");
}

/// A bare selector is ambiguous across a multi-file diff.
#[test]
fn bare_selector_on_multi_file_diff_is_rejected() {
    let diff = "\
diff --git a/a b/a
index 1111111..2222222 100644
--- a/a
+++ b/a
@@ -1,2 +1,2 @@
-a
+A
 b
diff --git a/b b/b
index 3333333..4444444 100644
--- a/b
+++ b/b
@@ -1,2 +1,2 @@
-p
+P
 q
";
    assert_eq!(hunkpick(&["select", "1"], diff).code, 2);
}

// ---------------------------------------------------------------------------
// Selecting every sub-hunk
// ---------------------------------------------------------------------------

/// The hunks of a diff's only text entry.
fn hunks_of(diff: &[u8]) -> Vec<hunkpick::model::Hunk> {
    let p = hunkpick::parser::parse(diff).unwrap();
    match &p.files[0].content {
        hunkpick::model::FileContent::Text(hs) => hs.clone(),
        hunkpick::model::FileContent::Binary(_) => panic!("a text entry was expected"),
    }
}

/// Apply `hunks` strictly to `file`: each at the place its header names, in one pass.
fn apply_strictly(file: &[&str], hunks: &[hunkpick::model::Hunk]) -> Option<Vec<String>> {
    let mut out = Vec::new();
    let mut cur = 0usize;
    for h in hunks {
        let old: Vec<&[u8]> = h
            .lines
            .iter()
            .filter(|l| l.kind != LineKind::Add)
            .map(|l| l.text.as_slice())
            .collect();
        let at = if h.old_lines == 0 { h.old_start as usize } else { h.old_start as usize - 1 };
        if at < cur || at + old.len() > file.len() {
            return None;
        }
        if file[at..at + old.len()].iter().map(|s| s.as_bytes()).ne(old.iter().copied()) {
            return None;
        }
        out.extend(file[cur..at].iter().map(|s| s.to_string()));
        for l in h.lines.iter().filter(|l| l.kind != LineKind::Del) {
            out.push(String::from_utf8(l.text.clone()).unwrap());
        }
        cur = at + old.len();
    }
    out.extend(file[cur..].iter().map(|s| s.to_string()));
    Some(out)
}

/// Selecting every sub-hunk splits the hunk into pieces that follow one another on the old side
/// and, applied to the file, do what the hunk does.
#[test]
fn selecting_every_sub_hunk_applies_like_the_hunk() {
    let out = run_ok(&["select", "*"], TWO_CHANGES);
    let pieces = hunks_of(&out);
    let whole = hunks_of(TWO_CHANGES.as_bytes());
    assert_eq!(pieces.len(), 2);
    assert_eq!((pieces[0].old_start, pieces[0].old_lines), (1, 3));
    assert_eq!((pieces[1].old_start, pieces[1].old_lines), (4, 2));

    let file = ["a", "b", "c", "d", "e"];
    let expected: Vec<String> = ["a", "B", "c", "D", "e"].iter().map(|s| s.to_string()).collect();
    assert_eq!(apply_strictly(&file, &whole), Some(expected.clone()));
    assert_eq!(apply_strictly(&file, &pieces), Some(expected));

    // Where the hunk does not apply, neither do its pieces.
    let other = ["a", "b", "c", "x", "e"];
    assert_eq!(apply_strictly(&other, &whole), None);
    assert_eq!(apply_strictly(&other, &pieces), None);
}

/// A hunk whose last change run is a bare insertion at its end splits into a last piece with no
/// old-side line, placed one line past the hunk's old range, as the header of such a piece is
/// written.
#[test]
fn a_trailing_bare_insertion_becomes_a_piece_past_the_old_range() {
    let diff = "--- a/f\n+++ b/f\n@@ -1,2 +1,2 @@\n-x\n c\n+y\n";
    let out = run_ok_text(&["select", "*", "--no-verify-result-diff-internal"], diff);
    assert!(out.contains("@@ -1,2 +1 @@\n-x\n c\n"), "{out}");
    assert!(out.contains("@@ -3,0 +3 @@\n+y\n"), "{out}");
}

/// The output of `select *` is a diff the tool reads again, and selecting everything from it
/// gives it back unchanged.
#[test]
fn selecting_everything_twice_changes_nothing() {
    let signed = "\
diff --git a/f b/f
--- a/f
+++ b/f
@@ -1,5 +1,5 @@
 a
-b
+B
 c
-d
+D
 e
@@ -20,2 +20,3 @@ g
 x
+y
 z
-- 
2.53.0
";
    for diff in [TWO_CHANGES, NEW_FILE_DIFF, signed] {
        let once = run_ok(&["select", "*"], diff);
        let listed = hunkpick(&["list"], &once);
        assert_eq!(listed.code, 0, "own output refused: {}", listed.stderr);
        let twice = run_ok(&["select", "*"], &once);
        assert_eq!(String::from_utf8_lossy(&twice), String::from_utf8_lossy(&once));
    }
}

// ---------------------------------------------------------------------------
// Results applied to the file they were made against
//
// The diffs below are the ones `git diff` writes for the edits named above each test; the
// result is applied to the old file with `apply_strictly`, which takes every hunk at the exact
// place its header names.
// ---------------------------------------------------------------------------

fn strings(lines: &[&str]) -> Vec<String> {
    lines.iter().map(|s| s.to_string()).collect()
}

/// `a b c d e` edited to `a B c D e`.
#[test]
fn select_subset_applies_to_old_state() {
    let diff = "\
diff --git a/f b/f
index 1111111..2222222 100644
--- a/f
+++ b/f
@@ -1,5 +1,5 @@
 a
-b
+B
 c
-d
+D
 e
";
    let old = ["a", "b", "c", "d", "e"];
    let one = run_ok(&["select", "1"], diff);
    assert_eq!(apply_strictly(&old, &hunks_of(&one)), Some(strings(&["a", "B", "c", "d", "e"])));
    let both = run_ok(&["select", "1-2"], diff);
    assert_eq!(apply_strictly(&old, &hunks_of(&both)), Some(strings(&["a", "B", "c", "D", "e"])));
}

/// `a b c d e f g` edited to `a B c D e F g`: three changes in one hunk.
#[test]
fn select_all_applies() {
    let diff = "\
diff --git a/f b/f
index 1111111..2222222 100644
--- a/f
+++ b/f
@@ -1,7 +1,7 @@
 a
-b
+B
 c
-d
+D
 e
-f
+F
 g
";
    let old = ["a", "b", "c", "d", "e", "f", "g"];
    let out = run_ok(&["select", "1-3"], diff);
    assert_eq!(hunks_of(&out).len(), 3);
    assert_eq!(
        apply_strictly(&old, &hunks_of(&out)),
        Some(strings(&["a", "B", "c", "D", "e", "F", "g"]))
    );
}

/// `a b c d <empty> x` edited to `a B c D <empty> X`, with the context line of the empty line
/// stripped of its space marker in transport.
#[test]
fn context_line_stripped_of_its_trailing_space_still_applies() {
    let diff = "\
diff --git a/f b/f
index 1111111..2222222 100644
--- a/f
+++ b/f
@@ -1,6 +1,6 @@
 a
-b
+B
 c
-d
+D
 
-x
+X
";
    let stripped = diff.replace("\n \n", "\n\n");
    assert_ne!(diff, stripped, "input must actually lose the space marker");

    let text = run_ok_text(&["select", "*"], &stripped);
    assert!(text.contains("-x\n+X\n"), "the change after the empty line must survive: {text}");
    let old = ["a", "b", "c", "d", "", "x"];
    assert_eq!(
        apply_strictly(&old, &hunks_of(text.as_bytes())),
        Some(strings(&["a", "B", "c", "D", "", "X"]))
    );

    let listed: usize = listing(&stripped).iter().map(|f| f.hunks.len()).sum();
    assert_eq!(listed, 3, "three sub-hunks expected");
}

/// Lines `l1`..`l30` with `l2` and `l25` changed, and a blank line pasted before the second
/// hunk.
#[test]
fn blank_line_between_hunks_does_not_break_the_result() {
    let diff = "\
diff --git a/f b/f
index 1111111..2222222 100644
--- a/f
+++ b/f
@@ -1,5 +1,5 @@
 l1
-l2
+CHANGED2
 l3
 l4
 l5
@@ -22,7 +22,7 @@ l21
 l22
 l23
 l24
-l25
+CHANGED25
 l26
 l27
 l28
";
    assert_eq!(diff.lines().filter(|l| l.starts_with("@@ ")).count(), 2, "two hunks expected");
    let cut = diff.rfind("@@ -").unwrap();
    let with_blank = format!("{}\n{}", &diff[..cut], &diff[cut..]);

    let out = run_ok(&["select", "*"], &with_blank);
    let old: Vec<String> = (1..=30).map(|i| format!("l{i}")).collect();
    let old: Vec<&str> = old.iter().map(|s| s.as_str()).collect();
    let new: Vec<String> = (1..=30)
        .map(|i| match i {
            2 => "CHANGED2".to_string(),
            25 => "CHANGED25".to_string(),
            _ => format!("l{i}"),
        })
        .collect();
    assert_eq!(apply_strictly(&old, &hunks_of(&out)), Some(new));
}

/// `a b c d e` edited to `a c`: the last sub-hunk deletes the tail of the file.
#[test]
fn a_trailing_deletion_does_not_read_as_an_overlap() {
    let diff = "\
diff --git a/f b/f
index 1111111..2222222 100644
--- a/f
+++ b/f
@@ -1,5 +1,2 @@
 a
-b
 c
-d
-e
";
    let out = run_ok(&["select", "*"], diff);
    assert_eq!(
        apply_strictly(&["a", "b", "c", "d", "e"], &hunks_of(&out)),
        Some(strings(&["a", "c"]))
    );
}

/// A `git format-patch` signature after the last hunk stays after the last piece of a split.
#[test]
fn split_keeps_trailing_lines_after_the_last_hunk() {
    let diff = "\
diff --git a/f b/f
--- a/f
+++ b/f
@@ -1,5 +1,5 @@
 a
-b
+B
 c
-d
+D
 e
-- 
2.53.0
";
    let out = run_ok_text(&["split", "1", "--at", "3"], diff);
    assert_eq!(out.matches("@@ -").count(), 2, "two pieces expected: {out}");
    let last_hunk = out.rfind("@@ -").expect("hunk header in output");
    let signature = out.find("\n-- \n").expect("signature in output");
    assert!(signature > last_hunk, "the signature must stay after the last piece: {out}");
    assert_eq!(
        apply_strictly(&["a", "b", "c", "d", "e"], &hunks_of(out.as_bytes())),
        Some(strings(&["a", "B", "c", "D", "e"]))
    );
}

/// The hunks of the entry of `diff` whose new path is `path`.
fn entry_hunks(diff: &[u8], path: &str) -> Vec<hunkpick::model::Hunk> {
    let p = hunkpick::parser::parse(diff).unwrap();
    let f = p
        .files
        .iter()
        .find(|f| f.new_path.as_deref() == Some(path.as_bytes()))
        .unwrap_or_else(|| panic!("no entry for {path}"));
    match &f.content {
        hunkpick::model::FileContent::Text(hs) => hs.clone(),
        hunkpick::model::FileContent::Binary(_) => panic!("a text entry was expected"),
    }
}

/// `line 1`..`line 20` with lines 5, 6 and 10 replaced by `NEW 5`, `NEW 6`, `NEW 10`.
#[test]
fn line_set_combined_with_a_later_subhunk_applies() {
    let diff = "\
diff --git a/f.txt b/f.txt
index 1111111..2222222 100644
--- a/f.txt
+++ b/f.txt
@@ -2,12 +2,12 @@ line 1
 line 2
 line 3
 line 4
-line 5
-line 6
+NEW 5
+NEW 6
 line 7
 line 8
 line 9
-line 10
+NEW 10
 line 11
 line 12
 line 13
";
    let out = run_ok_text(&["select", "1@L3,4", "2"], diff);
    assert_eq!(
        headers(&out),
        vec!["@@ -2,8 +2,10 @@ line 1", "@@ -10,4 +12,4 @@"],
        "the later sub-hunk must be shifted by the two lines the slice adds:\n{out}"
    );
    let old: Vec<String> = (1..=20).map(|i| format!("line {i}")).collect();
    let old: Vec<&str> = old.iter().map(|s| s.as_str()).collect();
    let staged = apply_strictly(&old, &hunks_of(out.as_bytes())).expect("the selection applies");
    assert!(staged.contains(&"NEW 5".to_string()), "{staged:?}");
    assert!(staged.contains(&"NEW 10".to_string()), "{staged:?}");
    assert!(staged.contains(&"line 5".to_string()), "{staged:?}");
}

/// A file where the same six-line block occurs twice, ten lines deleted before both copies and
/// a line changed inside the second copy. Selecting only that change must anchor it at the
/// second copy.
#[test]
fn stale_anchor_would_apply_to_the_wrong_copy_of_duplicated_context() {
    let mut diff = String::from(
        "diff --git a/f.txt b/f.txt\nindex 1111111..2222222 100644\n--- a/f.txt\n+++ b/f.txt\n",
    );
    diff.push_str("@@ -1,14 +1,4 @@\n head\n");
    for i in 1..=10 {
        diff.push_str(&format!("-d{i}\n"));
    }
    diff.push_str(" b\n c\n BLK1\n");
    diff.push_str("@@ -18,6 +8,6 @@ BLK4\n b\n c\n BLK1\n-BLK2\n+CHANGED\n BLK3\n BLK4\n");

    let out = run_ok_text(&["select", "2"], &diff);
    assert_eq!(
        headers(&out),
        vec!["@@ -18,6 +18,6 @@ BLK4"],
        "sub-hunk 1 (-10 lines) was dropped, so the anchor must not drift:\n{out}"
    );

    let block = ["b", "c", "BLK1", "BLK2", "BLK3", "BLK4"];
    let mut old: Vec<String> = vec!["head".to_string()];
    old.extend((1..=10).map(|i| format!("d{i}")));
    old.extend(block.iter().map(|s| s.to_string()));
    old.extend(block.iter().map(|s| s.to_string()));
    let old: Vec<&str> = old.iter().map(|s| s.as_str()).collect();
    let mut expected: Vec<String> = old.iter().map(|s| s.to_string()).collect();
    expected[20] = "CHANGED".to_string();
    assert_eq!(apply_strictly(&old, &hunks_of(out.as_bytes())), Some(expected));
}

/// `a`..`j` edited to `A b c d e f g h I j`: two hunks.
#[test]
fn select_by_id_round_trips_through_git() {
    let diff = "\
diff --git a/f b/f
index 1111111..2222222 100644
--- a/f
+++ b/f
@@ -1,4 +1,4 @@
-a
+A
 b
 c
 d
@@ -6,5 +6,5 @@ e
 f
 g
 h
-i
+I
 j
";
    let id_list = ids(diff);
    assert_eq!(id_list.len(), 2);
    let out = run_ok_text(&["select", &format!("@{}", id_list[1])], diff);
    assert!(out.contains("+I"), "{out}");
    assert!(!out.contains("+A"), "{out}");
    let old = ["a", "b", "c", "d", "e", "f", "g", "h", "i", "j"];
    assert_eq!(
        apply_strictly(&old, &hunks_of(out.as_bytes())),
        Some(strings(&["a", "b", "c", "d", "e", "f", "g", "h", "I", "j"]))
    );
}

/// `a b c d e f g` edited to `a B c D e F g`.
#[test]
fn star_selects_every_subhunk_and_applies() {
    let diff = "\
diff --git a/f b/f
index 1111111..2222222 100644
--- a/f
+++ b/f
@@ -1,7 +1,7 @@
 a
-b
+B
 c
-d
+D
 e
-f
+F
 g
";
    let out = run_ok_text(&["select", "*"], diff);
    assert!(out.contains("+B") && out.contains("+D") && out.contains("+F"), "{out}");
    assert_eq!(
        apply_strictly(&["a", "b", "c", "d", "e", "f", "g"], &hunks_of(out.as_bytes())),
        Some(strings(&["a", "B", "c", "D", "e", "F", "g"]))
    );
}

/// Two byte-identical changes (`x` to `y`) separated by distinct filler share an id, and the
/// id selects both.
#[test]
fn id_selects_all_identical_changes() {
    let diff = "\
diff --git a/f b/f
index 1111111..2222222 100644
--- a/f
+++ b/f
@@ -1,7 +1,7 @@
 k
 l
 m
-x
+y
 n
 o
 p
@@ -15,7 +15,7 @@ F7
 k
 l
 m
-x
+y
 n
 o
 p
";
    let id_list = ids(diff);
    assert_eq!(id_list.len(), 2, "two changes");
    assert_eq!(id_list[0], id_list[1], "identical changes must share an id: {id_list:?}");

    let text = run_ok_text(&["select", &format!("@{}", id_list[0])], diff);
    assert_eq!(text.matches("+y").count(), 2, "both identical changes selected:\n{text}");

    let base = "k l m x n o p F1 F2 F3 F4 F5 F6 F7 k l m x n o p";
    let old: Vec<&str> = base.split(' ').collect();
    let new: Vec<String> = old.iter().map(|s| if *s == "x" { "y".to_string() } else { s.to_string() }).collect();
    assert_eq!(apply_strictly(&old, &hunks_of(text.as_bytes())), Some(new));
}

/// `git diff` over three files, the first line of each changed.
fn three_files(a: &str, b: &str, c: &str) -> String {
    let mut d = String::new();
    for (path, old, new, rest) in
        [("src/a.rs", "a", a, " b\n c\n"), ("src/b.rs", "p", b, " q\n r\n"), ("src/c.rs", "x", c, " y\n z\n")]
    {
        d.push_str(&format!(
            "diff --git a/{path} b/{path}\nindex 1111111..2222222 100644\n--- a/{path}\n+++ b/{path}\n\
             @@ -1,3 +1,3 @@\n-{old}\n+{new}\n{rest}"
        ));
    }
    d
}

#[test]
fn select_across_three_files_picks_named_only_and_applies() {
    let diff = three_files("A", "P", "X");
    let out = run_ok_text(&["select", "src/a.rs:1", "src/c.rs:1"], &diff);
    assert!(out.contains("+A") && out.contains("+X"), "{out}");
    assert!(!out.contains("+P") && !out.contains("src/b.rs"), "{out}");
    assert_eq!(
        apply_strictly(&["a", "b", "c"], &entry_hunks(out.as_bytes(), "src/a.rs")),
        Some(strings(&["A", "b", "c"]))
    );
    assert_eq!(
        apply_strictly(&["x", "y", "z"], &entry_hunks(out.as_bytes(), "src/c.rs")),
        Some(strings(&["X", "y", "z"]))
    );
}

#[test]
fn select_by_id_addresses_its_own_file_in_multi_file_diff() {
    let diff = three_files("Z", "Z", "Z");
    let files = listing(&diff);
    let id_a = files.iter().find(|f| f.path == "src/a.rs").unwrap().hunks[0].id.clone();
    let id_c = files.iter().find(|f| f.path == "src/c.rs").unwrap().hunks[0].id.clone();
    assert_ne!(id_a, id_c, "the same edit in different files must get different ids");

    let out = run_ok_text(&["select", &format!("@{id_c}")], &diff);
    assert!(out.contains("src/c.rs"), "{out}");
    assert!(!out.contains("src/a.rs") && !out.contains("src/b.rs"), "{out}");
    assert_eq!(
        apply_strictly(&["x", "y", "z"], &entry_hunks(out.as_bytes(), "src/c.rs")),
        Some(strings(&["Z", "y", "z"]))
    );
}

// ---------------------------------------------------------------------------
// Extended headers and special entries, over the diffs git writes for them
// ---------------------------------------------------------------------------

/// `old.txt` renamed to `new.txt` with its last line changed, as `git diff --staged -M` writes it.
#[test]
fn rename_is_preserved() {
    let diff = "\
diff --git a/old.txt b/new.txt
similarity index 80%
rename from old.txt
rename to new.txt
index 1111111..2222222 100644
--- a/old.txt
+++ b/new.txt
@@ -2,4 +2,4 @@ line1
 line2
 line3
 line4
-line5
+line5_changed
";
    let text = run_ok_text(&["select", "1"], diff);
    assert!(text.contains("rename from"), "rename headers must appear in output: {text}");
    assert!(text.contains("rename to"), "{text}");
    run_ok(&["list"], diff);
}

/// `f.sh` made executable with a line changed.
#[test]
fn mode_change_passthrough() {
    let diff = "\
diff --git a/f.sh b/f.sh
old mode 100644
new mode 100755
index 1111111..2222222
--- a/f.sh
+++ b/f.sh
@@ -1,2 +1,2 @@
 line1
-line2
+line2_changed
";
    let text = run_ok_text(&["select", "1"], diff);
    assert!(text.contains("old mode"), "output must contain 'old mode'");
    assert!(text.contains("new mode"), "output must contain 'new mode'");
}

/// A new staged file of two lines.
#[test]
fn new_file() {
    let diff = "\
diff --git a/newf.txt b/newf.txt
new file mode 100644
index 0000000..1111111
--- /dev/null
+++ b/newf.txt
@@ -0,0 +1,2 @@
+line1
+line2
";
    run_ok(&["list"], diff);
    let text = run_ok_text(&["select", "1"], diff);
    assert!(text.contains("new file mode"), "output must contain 'new file mode'");
    assert!(text.contains("+line1"), "output must contain added lines");
}

/// A committed file of two lines deleted.
#[test]
fn deleted_file() {
    let diff = "\
diff --git a/f.txt b/f.txt
deleted file mode 100644
index 1111111..0000000
--- a/f.txt
+++ /dev/null
@@ -1,2 +0,0 @@
-line1
-line2
";
    run_ok(&["list"], diff);
    let text = run_ok_text(&["select", "1"], diff);
    assert!(text.contains("deleted file mode"), "output must contain 'deleted file mode'");
}

/// A binary file changed, without `--binary`.
#[test]
fn binary_file() {
    let diff = "\
diff --git a/f.bin b/f.bin
index 1111111..2222222 100644
Binary files a/f.bin and b/f.bin differ
";
    let files = listing(diff);
    assert_eq!(files.len(), 1);
    assert!(files[0].binary, "binary file must be marked binary");
    assert_eq!(files[0].hunks.len(), 0, "binary file must have zero sub-hunks");

    let text = run_ok_text(&["select", "1"], diff);
    assert!(text.contains("Binary files"), "{text}");
}

/// `gone.txt` deleted next to an untouched `kept.txt`.
#[test]
fn deleted_file_is_listed_under_its_old_name() {
    let diff = "\
diff --git a/gone.txt b/gone.txt
deleted file mode 100644
index 1111111..0000000
--- a/gone.txt
+++ /dev/null
@@ -1,2 +0,0 @@
-x
-y
";
    let listed = run_ok_text(&["list"], diff);
    assert!(listed.contains("gone.txt"), "{listed}");
    assert!(!listed.contains("/dev/null"), "{listed}");

    let text = run_ok_text(&["select", "gone.txt:1"], diff);
    assert!(text.contains("-x"), "{text}");
}

/// `git format-patch -1 --stdout` for a commit that changes `b` to `B`.
#[test]
fn format_patch_signature_survives() {
    let patch = "\
From 0123456789abcdef0123456789abcdef01234567 Mon Sep 17 00:00:00 2001
From: t <t@t>
Date: Thu, 1 Jan 2026 00:00:00 +0000
Subject: [PATCH] change

---
 f | 2 +-
 1 file changed, 1 insertion(+), 1 deletion(-)

diff --git a/f b/f
index 1111111..2222222 100644
--- a/f
+++ b/f
@@ -1,3 +1,3 @@
 a
-b
+B
 c
-- 
2.53.0

";
    assert!(patch.contains("\n-- \n"), "signature expected in patch");
    let text = run_ok_text(&["select", "*"], patch);
    let hunk_at = text.find("@@ ").expect("hunk in output");
    let sig_at = text.find("\n-- \n").expect("signature in output");
    assert!(sig_at > hunk_at, "signature must follow the hunk: {text}");
}

/// A binary `bin.dat` and a text `text.txt` changed together.
#[test]
fn binary_file_is_addressable_in_a_multi_file_diff() {
    let diff = "\
diff --git a/bin.dat b/bin.dat
index 1111111..2222222 100644
Binary files a/bin.dat and b/bin.dat differ
diff --git a/text.txt b/text.txt
index 3333333..4444444 100644
--- a/text.txt
+++ b/text.txt
@@ -1 +1 @@
-text
+TEXT
";
    let text = run_ok_text(&["select", "bin.dat:*", "text.txt:1"], diff);
    assert!(text.contains("Binary files"), "binary entry emitted: {text}");
    assert!(text.contains("+TEXT"), "text change emitted: {text}");

    let listed = run_ok_text(&["list"], diff);
    assert!(listed.contains("bin.dat"), "{listed}");
}

/// The diff over a file named `bad\xffname.txt`, with `core.quotePath=false`.
fn invalid_utf8_name_diff(body: &str) -> Vec<u8> {
    let name: &[u8] = b"bad\xffname.txt";
    let mut d = Vec::new();
    d.extend_from_slice(b"diff --git a/");
    d.extend_from_slice(name);
    d.extend_from_slice(b" b/");
    d.extend_from_slice(name);
    d.extend_from_slice(b"\nindex 1111111..2222222 100644\n--- a/");
    d.extend_from_slice(name);
    d.extend_from_slice(b"\n+++ b/");
    d.extend_from_slice(name);
    d.extend_from_slice(b"\n");
    d.extend_from_slice(body.as_bytes());
    d
}

#[test]
fn path_with_invalid_utf8_is_addressable() {
    let raw: &[u8] = b"bad\xffname.txt";
    let diff = invalid_utf8_name_diff("@@ -1,2 +1,2 @@\n a\n-b\n+B\n");
    let out = hunkpick_raw("select", &[b"bad\xffname.txt:1"], &[], &diff);
    assert_eq!(out.code, 0, "{}", out.stderr);
    assert!(out.stdout.windows(raw.len()).any(|w| w == raw), "emitted diff keeps the original path bytes");
    assert!(out.text().contains("+B"), "the addressed change is emitted");
}

#[test]
fn split_addresses_a_path_with_invalid_utf8() {
    let raw: &[u8] = b"bad\xffname.txt";
    let diff = invalid_utf8_name_diff("@@ -1,5 +1,5 @@\n a\n-b\n+B\n c\n-d\n+D\n e\n");
    let out = hunkpick_raw("split", &[b"bad\xffname.txt:1"], &[3], &diff);
    assert_eq!(out.code, 0, "{}", out.stderr);
    assert_eq!(out.text().matches("@@ -").count(), 2, "the hunk is cut in two");
    assert!(out.stdout.windows(raw.len()).any(|w| w == raw), "emitted diff keeps the original path bytes");
}

/// `git diff --binary` over a changed binary file: the payload follows the marker.
#[test]
fn full_binary_patch_comes_out_byte_for_byte() {
    let diff = "\
diff --git a/img.bin b/img.bin
index 1111111..2222222 100644
GIT binary patch
literal 8
Pc${NkVqjop&P^@=1XKZd

literal 6
NcmZQzWMXDwU;qO$03ZMW

";
    let out = run_ok(&["select", "img.bin:*"], diff);
    assert_eq!(
        String::from_utf8_lossy(&out),
        diff,
        "a binary entry must be emitted whole and unchanged"
    );
}

/// The id of a change survives staging a neighbouring change, which rewrites the change's
/// surrounding context: `a b c d e` edited to `a B c D e`, then `b` to `B` staged.
#[test]
fn id_is_stable_across_neighbour_staging() {
    let diff = "\
diff --git a/f b/f
index 1111111..2222222 100644
--- a/f
+++ b/f
@@ -1,5 +1,5 @@
 a
-b
+B
 c
-d
+D
 e
";
    let ids_before = ids(diff);
    assert_eq!(ids_before.len(), 2, "one hunk auto-splits into two sub-hunks");
    let id_second = ids_before[1].clone();

    // Stage only the first change: the index now holds `a B c d e`.
    let staged = run_ok(&["select", "1"], diff);
    let index = apply_strictly(&["a", "b", "c", "d", "e"], &hunks_of(&staged)).unwrap();
    assert_eq!(index, strings(&["a", "B", "c", "d", "e"]));

    // The re-diff of the index against the working tree.
    let rediff = "\
diff --git a/f b/f
index 3333333..2222222 100644
--- a/f
+++ b/f
@@ -1,5 +1,5 @@
 a
 B
 c
-d
+D
 e
";
    let ids_after = ids(rediff);
    assert!(ids_after.contains(&id_second), "{id_second} not in {ids_after:?}");
}

/// The first two lines of a new four-line file, staged on their own.
#[test]
fn changed_lines_split_new_file_first_part_stages_only_those_lines() {
    let diff = "\
diff --git a/new.txt b/new.txt
new file mode 100644
index 0000000..1111111
--- /dev/null
+++ b/new.txt
@@ -0,0 +1,4 @@
+l1
+l2
+l3
+l4
";
    let part1 = run_ok(&["select", "1@L1,2"], diff);
    let staged = apply_strictly(&[], &hunks_of(&part1)).expect("the first part applies");
    assert_eq!(staged, strings(&["l1", "l2"]));
}

/// Every choice of whole sub-hunks applies to the file the diff was made against, and changes
/// exactly the lines of the chosen sub-hunks.
#[test]
fn every_choice_of_sub_hunks_applies() {
    let diff = "\
diff --git a/f b/f
--- a/f
+++ b/f
@@ -1,7 +1,7 @@
 a
-b
+B
 c
-d
+D
 e
-f
+F
 g
";
    let old = ["a", "b", "c", "d", "e", "f", "g"];
    for mask in 1u32..8 {
        let chosen: Vec<String> = (1..=3).filter(|i| mask & (1 << (i - 1)) != 0).map(|i| i.to_string()).collect();
        let arg = chosen.join(",");
        let out = run_ok(&["select", &arg], diff);
        let mut expected = strings(&old);
        for (bit, (at, new)) in [(1, "B"), (3, "D"), (5, "F")].iter().enumerate() {
            if mask & (1 << bit) != 0 {
                expected[*at] = new.to_string();
            }
        }
        assert_eq!(apply_strictly(&old, &hunks_of(&out)), Some(expected), "select {arg}");
    }
}

/// A hunk cut by `split`, even where a piece of bare context is left out, applies where the
/// hunk did and makes the same file.
#[test]
fn split_pieces_apply_where_the_hunk_did() {
    let old = ["a", "b", "c", "d", "e"];
    let expected = strings(&["a", "B", "c", "D", "e"]);
    for at in ["1", "3", "1,3,5"] {
        let out = run_ok(&["split", "1", "--at", at], TWO_CHANGES);
        assert_eq!(apply_strictly(&old, &hunks_of(&out)), Some(expected.clone()), "--at {at}");
    }
}

/// A diff the internal check accepts is accepted by the input check too.
#[test]
fn a_diff_passing_the_internal_check_passes_the_input_check() {
    for diff in [TWO_CHANGES, NEW_FILE_DIFF] {
        let p = load_and_parse(diff.as_bytes()).unwrap().unwrap();
        assert!(hunkpick::validate::validate_internal(&p).is_ok());
        assert!(hunkpick::validate::validate_input(&p).is_ok());
    }
}

/// An id selects as many sub-hunks as the listing counts for it.
#[test]
fn an_id_selects_as_many_sub_hunks_as_its_count() {
    let diff = "\
diff --git a/f b/f
--- a/f
+++ b/f
@@ -1,5 +1,5 @@
 a
-x
+y
 b
-x
+y
 c
";
    let files = listing(diff);
    let h = &files[0].hunks[0];
    assert_eq!(h.id_count, 2);
    let out = run_ok(&["select", &format!("@{}", h.id.to_uppercase())], diff);
    assert_eq!(hunks_of(&out).len(), h.id_count);
}

/// Selecting everything adds and deletes as many lines as the input does.
#[test]
fn selecting_everything_keeps_the_change_counts() {
    let tally = |hs: &[hunkpick::model::Hunk], k: LineKind| -> usize {
        hs.iter().map(|h| h.lines.iter().filter(|l| l.kind == k).count()).sum()
    };
    for diff in [TWO_CHANGES, NEW_FILE_DIFF] {
        let out = run_ok(&["select", "*"], diff);
        let before = hunks_of(diff.as_bytes());
        let after = hunks_of(&out);
        assert_eq!(tally(&after, LineKind::Add), tally(&before, LineKind::Add));
        assert_eq!(tally(&after, LineKind::Del), tally(&before, LineKind::Del));
    }
}
