# hunkpick

A non-interactive hunk picker for unified diffs: it parses a diff, splits each hunk into
minimal sub-hunks (one change run each), addresses them by index, range, `@L` line set or
content id, and emits the chosen ones as a diff of their own. The library is written in Verus;
every function in `src/` carries a contract that Verus proves.

## Layout

- `src/model.rs`: the parsed diff (patch, file entries, hunks, body lines) and its views.
- `src/parser.rs`, `src/emit.rs`: bytes to model and back; `src/roundtrip.rs` and
  `src/parsed.rs` prove that emitting a parsed diff gives its bytes back and that parsed
  hunks stay within their headers.
- `src/split.rs`: automatic sub-hunks, explicit cuts and `@L` slices.
- `src/select.rs`: selector parsing, resolution and emission of a selection;
  `src/renumber.rs` recomputes new-side starts.
- `src/apply.rs`: a strict model of applying hunks to a file, with the proofs that sub-hunks
  apply as their hunk does and that any selection or split applies wherever the diff does.
- `src/reselect.rs`: selecting everything from a selection gives it back.
- `src/counts.rs`: an `@<id>` selects as many sub-hunks as its count, and selecting
  everything keeps the change counts.
- `src/validate.rs`, `src/input.rs`, `src/list.rs`, `src/subhunk_id.rs`, `src/command.rs`:
  consistency checks, input refusal, listings, content ids, and the commands' error mapping.
- `src/bytes.rs`, `src/text.rs`, `src/cli.rs`, `src/error.rs`, `src/gitenv.rs`: byte helpers,
  text for display, option decisions, error kinds and exit codes, and the environment git is
  run in.
- `app/main.rs`: the command line, file and terminal I/O, JSON output and the `git apply
  --check` run.
