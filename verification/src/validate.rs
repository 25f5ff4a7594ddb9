//! Consistency checks for an input or result diff.

use crate::model::{
    count_of, display_bytes, sides_fit, ContentV, FileContent, FileV, Hunk, HunkV, LineKind,
    Patch, PatchV,
};
use crate::renumber::{anchor, anchor_spec, expected_new_start_spec, expected_new_start_wide};
use crate::text::lossy_utf8;
use vstd::prelude::*;
use vstd::string::{StrSliceExecFns, StringExecFns};

verus! {

/// Which side of a hunk header a count belongs to.
#[derive(Copy, Clone, Debug, PartialEq, Eq, Structural)]
pub enum Side {
    /// The `-` side: context and deleted lines.
    Old,
    /// The `+` side: context and added lines.
    New,
}

/// A diff that does not add up. `hunk_index` is 0-based.
#[derive(Debug, PartialEq, Eq)]
pub enum ValidationError {
    /// A hunk header declares a different number of old- or new-side lines than its body holds.
    CountMismatch { file: String, hunk_index: usize, side: Side, header: u32, body: u32 },
    /// A hunk starts before the end of the one before it in the same file, on either side.
    OverlappingHunks { file: String, hunk_index: usize },
    /// A hunk with no body lines at all.
    EmptyHunk { file: String, hunk_index: usize },
    /// A hunk whose body is all context.
    NoChangeHunk { file: String, hunk_index: usize },
    /// A hunk whose new-side start does not follow from the old-side start plus the net size
    /// of the hunks before it in the same file.
    StaleNewStart { file: String, hunk_index: usize, header: u32, expected: u32 },
}

/// Mathematical view of a [`ValidationError`].
pub enum VErr {
    CountMismatch { file: Seq<char>, hunk_index: usize, side: Side, header: u32, body: u32 },
    OverlappingHunks { file: Seq<char>, hunk_index: usize },
    EmptyHunk { file: Seq<char>, hunk_index: usize },
    NoChangeHunk { file: Seq<char>, hunk_index: usize },
    StaleNewStart { file: Seq<char>, hunk_index: usize, header: u32, expected: u32 },
}

impl View for ValidationError {
    type V = VErr;

    open spec fn view(&self) -> VErr {
        match self {
            ValidationError::CountMismatch { file, hunk_index, side, header, body } =>
                VErr::CountMismatch {
                file: file@,
                hunk_index: *hunk_index,
                side: *side,
                header: *header,
                body: *body,
            },
            ValidationError::OverlappingHunks { file, hunk_index } => VErr::OverlappingHunks {
                file: file@,
                hunk_index: *hunk_index,
            },
            ValidationError::EmptyHunk { file, hunk_index } => VErr::EmptyHunk {
                file: file@,
                hunk_index: *hunk_index,
            },
            ValidationError::NoChangeHunk { file, hunk_index } => VErr::NoChangeHunk {
                file: file@,
                hunk_index: *hunk_index,
            },
            ValidationError::StaleNewStart { file, hunk_index, header, expected } =>
                VErr::StaleNewStart {
                file: file@,
                hunk_index: *hunk_index,
                header: *header,
                expected: *expected,
            },
        }
    }
}

/// The word a message uses for a side.
pub open spec fn side_word(side: Side) -> Seq<char> {
    match side {
        Side::Old => "old"@,
        Side::New => "new"@,
    }
}

/// The start of every message: the file and the sub-hunk, numbered from one as `list` and the
/// selectors number it.
pub open spec fn msg_head(file: Seq<char>, hunk_index: usize) -> Seq<char> {
    file + ": sub-hunk "@ + crate::text::dec_chars(hunk_index as nat + 1)
}

/// The message a user is shown for a validation error.
pub open spec fn validation_msg(e: VErr) -> Seq<char> {
    match e {
        VErr::CountMismatch { file, hunk_index, side, header, body } => msg_head(file, hunk_index)
            + ": header declares "@ + crate::text::dec_chars(header as nat) + " "@ + side_word(
            side,
        ) + " lines, body has "@ + crate::text::dec_chars(body as nat),
        VErr::OverlappingHunks { file, hunk_index } => msg_head(file, hunk_index)
            + " overlaps the one before it"@,
        VErr::EmptyHunk { file, hunk_index } => msg_head(file, hunk_index) + " has an empty body"@,
        VErr::NoChangeHunk { file, hunk_index } => msg_head(file, hunk_index)
            + " has no added or deleted lines"@,
        VErr::StaleNewStart { file, hunk_index, header, expected } => msg_head(file, hunk_index)
            + ": header starts the new side at line "@ + crate::text::dec_chars(header as nat)
            + ", but the diff puts it at "@ + crate::text::dec_chars(expected as nat),
    }
}

impl Side {
    /// The word a message uses for the side.
    pub fn word(&self) -> (r: &'static str)
        ensures
            r@ == side_word(*self),
    {
        match self {
            Side::Old => {
                proof {
                    reveal_strlit("old");
                }
                "old"
            },
            Side::New => {
                proof {
                    reveal_strlit("new");
                }
                "new"
            },
        }
    }
}

/// `file: sub-hunk N`, with `N` the 1-based number of `hunk_index`.
fn push_head(file: &String, hunk_index: usize) -> (r: String)
    ensures
        r@ == msg_head(file@, hunk_index),
{
    let mut m = file.clone();
    m.append(": sub-hunk ");
    m.append(crate::text::ordinal_string(hunk_index).as_str());
    m
}

impl ValidationError {
    /// The message a user is shown for the error.
    pub fn message(&self) -> (r: String)
        ensures
            r@ == validation_msg(self@),
    {
        match self {
            ValidationError::CountMismatch { file, hunk_index, side, header, body } => {
                let mut m = push_head(file, *hunk_index);
                m.append(": header declares ");
                m.append(crate::text::dec_string(*header as u64).as_str());
                m.append(" ");
                m.append(side.word());
                m.append(" lines, body has ");
                m.append(crate::text::dec_string(*body as u64).as_str());
                m
            },
            ValidationError::OverlappingHunks { file, hunk_index } => {
                let mut m = push_head(file, *hunk_index);
                m.append(" overlaps the one before it");
                m
            },
            ValidationError::EmptyHunk { file, hunk_index } => {
                let mut m = push_head(file, *hunk_index);
                m.append(" has an empty body");
                m
            },
            ValidationError::NoChangeHunk { file, hunk_index } => {
                let mut m = push_head(file, *hunk_index);
                m.append(" has no added or deleted lines");
                m
            },
            ValidationError::StaleNewStart { file, hunk_index, header, expected } => {
                let mut m = push_head(file, *hunk_index);
                m.append(": header starts the new side at line ");
                m.append(crate::text::dec_string(*header as u64).as_str());
                m.append(", but the diff puts it at ");
                m.append(crate::text::dec_string(*expected as u64).as_str());
                m
            },
        }
    }
}

/// Everything checkable about one hunk on its own: a non-empty body with a change in it, header
/// counts that match it, and (when asked) the new-side start that `delta` implies. Gives the
/// hunk's added and deleted counts.
pub open spec fn check_one_spec(
    h: HunkV,
    path: Seq<char>,
    index: usize,
    check_new_start: bool,
    delta: int,
) -> Result<(nat, nat), VErr> {
    let ctx = count_of(h.lines, LineKind::Context);
    let add = count_of(h.lines, LineKind::Add);
    let del = count_of(h.lines, LineKind::Del);
    if h.lines.len() == 0 {
        Err(VErr::EmptyHunk { file: path, hunk_index: index })
    } else if add == 0 && del == 0 {
        Err(VErr::NoChangeHunk { file: path, hunk_index: index })
    } else if h.old_lines != ctx + del {
        Err(
            VErr::CountMismatch {
                file: path,
                hunk_index: index,
                side: Side::Old,
                header: h.old_lines,
                body: (ctx + del) as u32,
            },
        )
    } else if h.new_lines != ctx + add {
        Err(
            VErr::CountMismatch {
                file: path,
                hunk_index: index,
                side: Side::New,
                header: h.new_lines,
                body: (ctx + add) as u32,
            },
        )
    } else if check_new_start && h.new_start != expected_new_start_spec(h, delta) {
        Err(
            VErr::StaleNewStart {
                file: path,
                hunk_index: index,
                header: h.new_start,
                expected: expected_new_start_spec(h, delta),
            },
        )
    } else {
        Ok((add, del))
    }
}

/// The scan of a file's first `i` hunks: where the old and new sides of the last one end, and
/// the net change so far; or the first problem found.
pub open spec fn file_scan(hs: Seq<HunkV>, path: Seq<char>, check_new_start: bool, i: int) -> Result<
    (Option<int>, Option<int>, int),
    VErr,
>
    decreases i,
{
    if i <= 0 {
        Ok((None, None, 0))
    } else {
        match file_scan(hs, path, check_new_start, i - 1) {
            Err(e) => Err(e),
            Ok((po, pn, d)) => {
                let h = hs[i - 1];
                match check_one_spec(h, path, (i - 1) as usize, check_new_start, d) {
                    Err(e) => Err(e),
                    Ok((add, del)) => {
                        let oa = anchor_spec(h.old_start, h.old_lines);
                        let na = anchor_spec(h.new_start, h.new_lines);
                        if (po.is_some() && oa < po.unwrap()) || (pn.is_some() && na
                            < pn.unwrap()) {
                            Err(VErr::OverlappingHunks { file: path, hunk_index: (i - 1) as usize })
                        } else {
                            Ok((Some(oa + h.old_lines), Some(na + h.new_lines), d + add - del))
                        }
                    },
                }
            },
        }
    }
}

pub open spec fn check_file_spec(f: FileV, check_new_start: bool) -> Result<(), VErr> {
    match f.content {
        ContentV::Binary(_) => Ok(()),
        ContentV::Text(hs) => match file_scan(
            hs,
            lossy_utf8(display_bytes(f)),
            check_new_start,
            hs.len() as int,
        ) {
            Ok(_) => Ok(()),
            Err(e) => Err(e),
        },
    }
}

/// The first problem in the first `n` files, in file order.
pub open spec fn check_files(files: Seq<FileV>, check_new_start: bool, n: int) -> Result<(), VErr>
    decreases n,
{
    if n <= 0 {
        Ok(())
    } else {
        match check_files(files, check_new_start, n - 1) {
            Err(e) => Err(e),
            Ok(()) => check_file_spec(files[n - 1], check_new_start),
        }
    }
}

pub open spec fn check_patch(p: PatchV, check_new_start: bool) -> Result<(), VErr> {
    check_files(p.files, check_new_start, p.files.len() as int)
}

/// Every hunk body of the patch has counts that fit a header.
proof fn lemma_scan_internal_passes_input(hs: Seq<HunkV>, path: Seq<char>, i: int)
    requires
        file_scan(hs, path, true, i) is Ok,
    ensures
        file_scan(hs, path, false, i) == file_scan(hs, path, true, i),
    decreases i,
{
    if i > 0 {
        lemma_scan_internal_passes_input(hs, path, i - 1);
    }
}

proof fn lemma_files_internal_passes_input(files: Seq<FileV>, n: int)
    requires
        check_files(files, true, n) is Ok,
    ensures
        check_files(files, false, n) is Ok,
    decreases n,
{
    if n > 0 {
        lemma_files_internal_passes_input(files, n - 1);
        let f = files[n - 1];
        if let ContentV::Text(hs) = f.content {
            lemma_scan_internal_passes_input(hs, lossy_utf8(display_bytes(f)), hs.len() as int);
        }
    }
}

/// A diff that passes the internal check passes the input check: the input check asks the same
/// of every hunk, less the new-side start that the hunks before it imply.
pub proof fn lemma_internal_check_implies_input_check(p: PatchV)
    requires
        check_patch(p, true) is Ok,
    ensures
        check_patch(p, false) is Ok,
{
    lemma_files_internal_passes_input(p.files, p.files.len() as int);
}

pub open spec fn bodies_fit(p: PatchV) -> bool {
    crate::renumber::bodies_fit(p)
}

fn check_one_hunk(
    h: &Hunk,
    path: &String,
    index: usize,
    check_new_start: bool,
    delta: i128,
) -> (r: Result<(u32, u32), ValidationError>)
    requires
        sides_fit(h@.lines),
        -0x1_0000_0000_0000_0000_0000_0000 <= delta <= 0x1_0000_0000_0000_0000_0000_0000,
    ensures
        match check_one_spec(h@, path@, index, check_new_start, delta as int) {
            Ok((a, d)) => r matches Ok((x, y)) && x == a && y == d,
            Err(e) => r matches Err(x) && x@ == e,
        },
{
    if h.lines.len() == 0 {
        return Err(ValidationError::EmptyHunk { file: path.clone(), hunk_index: index });
    }
    let (ctx, add, del) = crate::model::count_kinds(h.lines.as_slice());
    if add == 0 && del == 0 {
        return Err(ValidationError::NoChangeHunk { file: path.clone(), hunk_index: index });
    }
    if h.old_lines != ctx + del {
        return Err(
            ValidationError::CountMismatch {
                file: path.clone(),
                hunk_index: index,
                side: Side::Old,
                header: h.old_lines,
                body: ctx + del,
            },
        );
    }
    if h.new_lines != ctx + add {
        return Err(
            ValidationError::CountMismatch {
                file: path.clone(),
                hunk_index: index,
                side: Side::New,
                header: h.new_lines,
                body: ctx + add,
            },
        );
    }
    let expected = expected_new_start_wide(h, delta);
    if check_new_start && h.new_start != expected {
        return Err(
            ValidationError::StaleNewStart {
                file: path.clone(),
                hunk_index: index,
                header: h.new_start,
                expected,
            },
        );
    }
    Ok((add, del))
}

fn check_hunks(patch: &Patch, check_new_start: bool) -> (r: Result<(), ValidationError>)
    requires
        bodies_fit(patch@),
    ensures
        match check_patch(patch@, check_new_start) {
            Ok(()) => r is Ok,
            Err(e) => r matches Err(x) && x@ == e,
        },
{
    let ghost fv = patch@.files;
    let mut fi: usize = 0;
    while fi < patch.files.len()
        invariant
            fv == patch@.files,
            bodies_fit(patch@),
            fi <= fv.len(),
            check_files(fv, check_new_start, fi as int) == Ok::<(), VErr>(()),
        decreases fv.len() - fi,
    {
        let f = &patch.files[fi];
        let path = f.display_path();
        proof {
            assert(fv[fi as int] == f@);
            if f@.content is Text {
                let hv = f@.content->Text_0;
                assert forall|j: int| 0 <= j < hv.len() implies sides_fit(#[trigger] hv[j].lines) by {
                    assert(fv[fi as int].content->Text_0[j] == hv[j]);
                }
            }
        }
        match &f.content {
            FileContent::Binary(_) => {},
            FileContent::Text(hunks) => {
                let ghost hv = f@.content->Text_0;
                let mut prev_old_end: Option<i128> = None;
                let mut prev_new_end: Option<i128> = None;
                let mut delta: i128 = 0;
                let mut i: usize = 0;
                while i < hunks.len()
                    invariant
                        fv == patch@.files,
                        fi < fv.len(),
                        fv[fi as int] == f@,
                        f@.content == ContentV::Text(hv),
                        path@ == lossy_utf8(display_bytes(f@)),
                        check_files(fv, check_new_start, fi as int) == Ok::<(), VErr>(()),
                        hv == crate::model::hunks_view(hunks@),
                        forall|j: int| 0 <= j < hv.len() ==> sides_fit(#[trigger] hv[j].lines),
                        i <= hv.len(),
                        -(i as int) * 0x1_0000_0000 <= delta <= (i as int) * 0x1_0000_0000,
                        file_scan(hv, path@, check_new_start, i as int) == Ok::<
                            (Option<int>, Option<int>, int),
                            VErr,
                        >(
                            (
                                match prev_old_end {
                                    Some(x) => Some(x as int),
                                    None => None,
                                },
                                match prev_new_end {
                                    Some(x) => Some(x as int),
                                    None => None,
                                },
                                delta as int,
                            ),
                        ),
                        prev_old_end.is_some() ==> 0 <= prev_old_end.unwrap() <= 0x3_0000_0000,
                        prev_new_end.is_some() ==> 0 <= prev_new_end.unwrap() <= 0x3_0000_0000,
                    decreases hv.len() - i,
                {
                    let h = &hunks[i];
                    proof {
                        assert(hv[i as int] == h@);
                        assert(sides_fit(hv[i as int].lines));
                        assert((i as int) * 0x1_0000_0000 <= 0x1_0000_0000_0000_0000_0000_0000)
                            by (nonlinear_arith)
                            requires
                                i <= usize::MAX,
                        ;
                    }
                    let (add, del) = match check_one_hunk(h, &path, i, check_new_start, delta) {
                        Ok(x) => x,
                        Err(e) => {
                            proof {
                                lemma_scan_err_prefix(hv, path@, check_new_start, i as int + 1);
                                lemma_files_err_prefix(fv, check_new_start, fi as int + 1);
                            }
                            return Err(e);
                        },
                    };
                    delta = delta + add as i128 - del as i128;
                    let old_at = anchor(h.old_start, h.old_lines) as i128;
                    let new_at = anchor(h.new_start, h.new_lines) as i128;
                    let overl = match prev_old_end {
                        Some(pe) => old_at < pe,
                        None => false,
                    } || match prev_new_end {
                        Some(pe) => new_at < pe,
                        None => false,
                    };
                    if overl {
                        proof {
                            lemma_scan_err_prefix(hv, path@, check_new_start, i as int + 1);
                            lemma_files_err_prefix(fv, check_new_start, fi as int + 1);
                        }
                        return Err(
                            ValidationError::OverlappingHunks { file: path, hunk_index: i },
                        );
                    }
                    prev_old_end = Some(old_at + h.old_lines as i128);
                    prev_new_end = Some(new_at + h.new_lines as i128);
                    i = i + 1;
                }
            },
        }
        fi = fi + 1;
    }
    Ok(())
}

proof fn lemma_scan_err_prefix(hs: Seq<HunkV>, path: Seq<char>, c: bool, m: int)
    requires
        0 <= m <= hs.len(),
        file_scan(hs, path, c, m) is Err,
    ensures
        file_scan(hs, path, c, hs.len() as int) == file_scan(hs, path, c, m),
    decreases hs.len() - m,
{
    if m < hs.len() {
        lemma_scan_err_prefix(hs, path, c, m + 1);
    }
}

proof fn lemma_files_err_prefix(fs: Seq<FileV>, c: bool, m: int)
    requires
        0 <= m <= fs.len(),
        check_files(fs, c, m) is Err,
    ensures
        check_files(fs, c, fs.len() as int) == check_files(fs, c, m),
    decreases fs.len() - m,
{
    if m < fs.len() {
        lemma_files_err_prefix(fs, c, m + 1);
    }
}

/// Consistency check of an input diff: non-empty hunks that change something, header counts
/// that match their bodies, and hunks in order without overlap. New-side starts are not
/// checked: a selection recomputes them.
pub fn validate_input(patch: &Patch) -> (r: Result<(), ValidationError>)
    requires
        bodies_fit(patch@),
    ensures
        match check_patch(patch@, false) {
            Ok(()) => r is Ok,
            Err(e) => r matches Err(x) && x@ == e,
        },
{
    check_hunks(patch, false)
}

/// Internal consistency check of a result diff: everything [`validate_input`] checks, and
/// every new-side start following from the hunks before it.
pub fn validate_internal(patch: &Patch) -> (r: Result<(), ValidationError>)
    requires
        bodies_fit(patch@),
    ensures
        match check_patch(patch@, true) {
            Ok(()) => r is Ok,
            Err(e) => r matches Err(x) && x@ == e,
        },
{
    check_hunks(patch, true)
}

} // verus!

verus! {

/// Why a `git apply --check` run did not end in a verdict of "applies". The distinction the
/// caller needs is between *the result diff is bad* and *the check could not be made*. The I/O
/// errors behind a variant are held as the text they display as.
#[derive(Debug, PartialEq, Eq)]
pub enum GitCheckError {
    /// `git` could not be started; carries what starting it reported and the directory it was
    /// to run in, as displayed.
    Spawn { source: String, dir: String },
    /// Feeding the diff to git, or collecting its output, failed.
    Io(String),
    /// The thread writing the diff to git's stdin panicked.
    WriterPanicked,
    /// git ran and refused the diff. Carries its stderr.
    Rejected(String),
    /// git stopped before judging the diff: it hit a fatal error, or a signal ended it (`code`
    /// is then `None`). This says nothing about the diff.
    Failed { code: Option<i32>, stderr: String },
}

/// How a run that reached no verdict ended, in words.
pub open spec fn failed_how(code: Option<i32>) -> Seq<char> {
    match code {
        Some(c) => "exited with code "@ + crate::text::int_chars(c as int),
        None => "was killed by a signal"@,
    }
}

/// The message a user is shown for a failed git check.
pub open spec fn git_msg(e: GitCheckError) -> Seq<char> {
    match e {
        GitCheckError::Spawn { source, dir } => "failed to run git in "@ + dir@ + ": "@ + source@,
        GitCheckError::Io(m) => "git check failed: "@ + m@,
        GitCheckError::WriterPanicked => "the thread feeding git panicked"@,
        GitCheckError::Rejected(m) => "git apply --check rejected the result diff: "@ + m@,
        GitCheckError::Failed { code, stderr } => if stderr@.len() == 0 {
            "git apply --check "@ + failed_how(code)
                + " without a diagnostic; the result diff was not checked"@
        } else {
            "git apply --check "@ + failed_how(code) + " without checking the result diff: "@
                + stderr@
        },
    }
}

impl GitCheckError {
    /// The message a user is shown for the error. An empty stderr is said so: "no verdict" with
    /// a blank reason would read as a verdict with a blank reason.
    pub fn message(&self) -> (r: String)
        ensures
            r@ == git_msg(*self),
    {
        match self {
            GitCheckError::Spawn { source, dir } => {
                let mut m = String::from_str("failed to run git in ");
                m.append(dir.as_str());
                m.append(": ");
                m.append(source.as_str());
                m
            },
            GitCheckError::Io(e) => {
                let mut m = String::from_str("git check failed: ");
                m.append(e.as_str());
                m
            },
            GitCheckError::WriterPanicked => String::from_str("the thread feeding git panicked"),
            GitCheckError::Rejected(e) => {
                let mut m = String::from_str("git apply --check rejected the result diff: ");
                m.append(e.as_str());
                m
            },
            GitCheckError::Failed { code, stderr } => {
                let mut m = String::from_str("git apply --check ");
                match code {
                    Some(c) => {
                        m.append("exited with code ");
                        m.append(crate::text::int_string(*c).as_str());
                    },
                    None => m.append("was killed by a signal"),
                }
                if stderr.as_str().unicode_len() == 0 {
                    m.append(" without a diagnostic; the result diff was not checked");
                } else {
                    m.append(" without checking the result diff: ");
                    m.append(stderr.as_str());
                }
                m
            },
        }
    }
}

/// What git's stderr says once decoded and trimmed.
pub open spec fn stderr_text(stderr: Seq<u8>) -> Seq<char> {
    crate::text::trimmed(lossy_utf8(stderr))
}

/// The verdict of a `git apply --check` run that ended with exit status `code` (`None` when a
/// signal ended it) and wrote `stderr`: status 0 applies, status 1, and only 1, is a rejection
/// of the diff, anything else is a run that never looked at it.
pub fn git_verdict(code: Option<i32>, stderr: &[u8]) -> (r: Result<(), GitCheckError>)
    ensures
        code == Some(0i32) ==> r is Ok,
        code == Some(1i32) ==> (r matches Err(GitCheckError::Rejected(s)) && s@ == stderr_text(
            stderr@,
        )),
        code != Some(0i32) && code != Some(1i32) ==> (r matches Err(
            GitCheckError::Failed { code: c, stderr: s },
        ) && c == code && s@ == stderr_text(stderr@)),
{
    let decoded = crate::text::lossy_string(stderr);
    let text = crate::text::trim_string(decoded.as_str());
    match code {
        Some(0) => Ok(()),
        Some(1) => Err(GitCheckError::Rejected(text)),
        _ => Err(GitCheckError::Failed { code, stderr: text }),
    }
}

} // verus!
