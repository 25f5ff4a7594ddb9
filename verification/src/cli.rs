//! The options the command line hands the library, and the colour decision behind `--color`.

use vstd::prelude::*;

verus! {

/// Default maximum input size in bytes (64 MiB).
pub const DEFAULT_MAX_INPUT_BYTES: u64 = 67108864;

/// Verification options shared by `select` and `split` (both produce a result diff).
#[derive(Debug)]
pub struct VerifyOpts {
    /// Disable the default internal consistency check of the result diff.
    pub no_verify_result_diff_internal: bool,
    /// Additionally check the result with `git apply --check` against the working tree.
    pub verify_result_diff_git: bool,
    /// Working tree directory for the git verification (default: current dir), as the bytes
    /// of its path. Only meaningful together with `verify_result_diff_git`.
    pub dir: Option<Vec<u8>>,
}

/// Input source and size limit, shared by all subcommands.
#[derive(Debug)]
pub struct InputOpts {
    /// Read the diff from this file (the bytes of its path) instead of stdin; `-` means stdin.
    pub input: Option<Vec<u8>>,
    /// Maximum input size in bytes; 0 disables the limit.
    pub max_input_bytes: u64,
}

/// When to colorize the human-readable listing.
#[derive(Copy, Clone, Debug, PartialEq, Eq, Structural)]
pub enum ColorMode {
    /// Colorize when stdout is a terminal, honouring `NO_COLOR` and `CLICOLOR_FORCE`.
    Auto,
    /// Always colorize, even into a pipe.
    Always,
    /// Never colorize.
    Never,
}

/// Whether the listing is coloured: `always` and `never` decide alone; `auto` colours a
/// terminal, or anything when `CLICOLOR_FORCE` is set, unless `NO_COLOR` is set.
pub open spec fn color_spec(mode: ColorMode, is_tty: bool, no_color: bool, clicolor_force: bool) -> bool {
    match mode {
        ColorMode::Always => true,
        ColorMode::Never => false,
        ColorMode::Auto => (is_tty || clicolor_force) && !no_color,
    }
}

/// The colour decision, with the terminal state and the two environment flags passed in (an
/// environment variable counts as set only when its value is non-empty).
pub fn resolve_color_with(mode: ColorMode, is_tty: bool, no_color: bool, clicolor_force: bool) -> (r:
    bool)
    ensures
        r == color_spec(mode, is_tty, no_color, clicolor_force),
{
    match mode {
        ColorMode::Always => true,
        ColorMode::Never => false,
        // `CLICOLOR_FORCE` forces color on a non-tty (e.g. a pipe); `NO_COLOR` still wins so a
        // hard opt-out is always honoured.
        ColorMode::Auto => (is_tty || clicolor_force) && !no_color,
    }
}

/// `NO_COLOR` is a hard opt-out: in no mode but `always` does anything turn colour back on.
pub proof fn lemma_no_color_wins(mode: ColorMode, is_tty: bool, clicolor_force: bool)
    requires
        mode != ColorMode::Always,
    ensures
        !color_spec(mode, is_tty, true, clicolor_force),
{
}

} // verus!
