//! What `select` and `split` make of a parsed diff, and how the result diff is checked before it
//! is written: each step's error mapped to the kind of failure the process reports.

use crate::error::{AppErr, AppError};
use crate::model::{FileV, Patch, PatchV};
use crate::renumber::{bodies_fit, renumber_spec};
use crate::select::{parse_selectors_spec, patch_fits, resolve_hunk_spec, select_msg, select_spec, SelErr};
use crate::split::{split_at_error, split_at_valid, split_msg, split_patch_spec, SplitError};
use crate::validate::{check_patch, git_msg, validation_msg, GitCheckError};
use vstd::prelude::*;
use vstd::string::StringExecFns;

verus! {

/// What `select` makes of a diff and its selector arguments: the chosen sub-hunks as a diff of
/// their own, or the selector or selection error as a usage error.
pub open spec fn select_command_spec(p: PatchV, args: Seq<Seq<u8>>) -> Result<PatchV, AppErr> {
    match parse_selectors_spec(args) {
        Err(e) => Err(AppErr::Usage(select_msg(e))),
        Ok(sels) => match select_spec(p, sels) {
            Err(e) => Err(AppErr::Usage(select_msg(e))),
            Ok(out) => Ok(out),
        },
    }
}

/// Parse the selector arguments (raw bytes, so a path that is not UTF-8 can be spelled) and
/// emit the sub-hunks they choose.
pub fn select_command(patch: &Patch, args: &[Vec<u8>]) -> (r: Result<Patch, AppError>)
    requires
        patch_fits(patch@),
    ensures
        match r {
            Ok(out) => select_command_spec(patch@, args@.map_values(|a: Vec<u8>| a@)) == Ok::<
                PatchV,
                AppErr,
            >(out@),
            Err(e) => select_command_spec(patch@, args@.map_values(|a: Vec<u8>| a@)) == Err::<
                PatchV,
                AppErr,
            >(e@),
        },
        r matches Ok(out) ==> bodies_fit(out@),
{
    let sels = match crate::select::parse_selectors(args) {
        Ok(s) => s,
        Err(e) => return Err(AppError::Usage(e.message())),
    };
    match crate::select::select(patch, sels.as_slice()) {
        Ok(out) => Ok(out),
        Err(e) => Err(AppError::Usage(e.message())),
    }
}

/// The entry a split targets holds what the split bookkeeping relies on: its trailer lines are
/// anchored within its hunks, and its hunks and the target's body are few enough to count.
pub open spec fn split_ready(f: FileV, hi: int) -> bool {
    &&& forall|k: int| 0 <= k < f.trailer.len() ==> (#[trigger] f.trailer[k]).0 <= f.content->Text_0.len()
    &&& f.content->Text_0.len() + f.content->Text_0[hi].lines.len() < usize::MAX
}

/// The message for a split whose target entry, or result, breaks what the diff model keeps.
pub open spec fn split_internal_msg() -> Seq<char> {
    "internal error: the split hunk's entry does not hold together"@
}

fn split_internal_error() -> (e: AppError)
    ensures
        e@ == AppErr::Internal(split_internal_msg()),
{
    AppError::Internal(
        String::from_str("internal error: the split hunk's entry does not hold together"),
    )
}

fn split_ready_exec(patch: &Patch, fi: usize, hi: usize) -> (r: bool)
    requires
        fi < patch@.files.len(),
        patch@.files[fi as int].content is Text,
        hi < patch@.files[fi as int].content->Text_0.len(),
    ensures
        r == split_ready(patch@.files[fi as int], hi as int),
{
    let f = &patch.files[fi];
    let nh = match &f.content {
        crate::model::FileContent::Text(hs) => {
            let nl = hs[hi].lines.len();
            if nl >= usize::MAX - hs.len() {
                return false;
            }
            hs.len()
        },
        crate::model::FileContent::Binary(_) => 0,
    };
    let mut k: usize = 0;
    while k < f.trailer.len()
        invariant
            f@ == patch@.files[fi as int],
            nh == f@.content->Text_0.len(),
            k <= f@.trailer.len(),
            forall|j: int| 0 <= j < k ==> (#[trigger] f@.trailer[j]).0 <= nh,
        decreases f@.trailer.len() - k,
    {
        proof {
            assert(f@.trailer[k as int] == f.trailer@[k as int]@);
        }
        if f.trailer[k].0 > nh {
            return false;
        }
        k = k + 1;
    }
    true
}

/// Replace one original hunk, addressed as `path:N` or `N` (raw bytes), with the pieces a cut
/// at the new-file lines `at` makes, and recompute the new-side anchors of the result.
pub fn split_command(patch: Patch, addr: &[u8], at: &[u32]) -> (r: Result<Patch, AppError>)
    ensures
        match resolve_hunk_spec(patch@, addr@) {
            Err(e) => r matches Err(x) && x@ == AppErr::Usage(select_msg(e)),
            Ok((fi, hi)) => {
                let f = patch@.files[fi as int];
                let h = f.content->Text_0[hi as int];
                if !h.fits() {
                    r matches Err(x) && x@ == AppErr::Usage(crate::input::overflow_msg())
                } else if !split_ready(f, hi as int) {
                    r matches Err(x) && x@ == AppErr::Internal(split_internal_msg())
                } else if !split_at_valid(h, at@) {
                    r matches Err(x) && exists|e: SplitError|
                        split_at_error(h, at@, e) && x@ == AppErr::Usage(split_msg(e))
                } else if !bodies_fit(split_patch_spec(patch@, fi as int, hi as int, at@)) {
                    r matches Err(x) && x@ == AppErr::Internal(split_internal_msg())
                } else {
                    r matches Ok(out) && out@ == renumber_spec(
                        split_patch_spec(patch@, fi as int, hi as int, at@),
                    )
                }
            },
        },
        r matches Ok(out) ==> bodies_fit(out@),
{
    let (fi, hi) = match crate::select::resolve_hunk(&patch, addr) {
        Ok(x) => x,
        Err(e) => return Err(AppError::Usage(e.message())),
    };
    let fits = match &patch.files[fi].content {
        crate::model::FileContent::Text(hs) => crate::split::hunk_fits(&hs[hi]),
        crate::model::FileContent::Binary(_) => false,
    };
    if !fits {
        return Err(
            AppError::Usage(
                String::from_str(
                    "input diff: a hunk runs past the line numbers a hunk header can count",
                ),
            ),
        );
    }
    if !split_ready_exec(&patch, fi, hi) {
        return Err(split_internal_error());
    }
    let mut patch = patch;
    match crate::split::split_patch_hunk(&mut patch, fi, hi, at) {
        Ok(()) => {},
        Err(e) => return Err(AppError::Usage(e.message())),
    }
    if !crate::renumber::bodies_in_bounds(&patch) {
        return Err(split_internal_error());
    }
    let ghost before = patch@;
    crate::renumber::renumber_new_side(&mut patch);
    proof {
        crate::renumber::lemma_renumber_moves_only_new_starts(before);
    }
    Ok(patch)
}

/// What is left of a result diff once it is checked: its bytes, or, when the internal check is
/// asked for and fails, a verification failure naming what did not add up.
pub open spec fn verified_spec(p: PatchV, check_internal: bool) -> Result<Seq<u8>, AppErr> {
    if check_internal && check_patch(p, true) is Err {
        Err(
            AppErr::Verify(
                "internal consistency check failed: "@ + validation_msg(check_patch(p, true)->Err_0),
            ),
        )
    } else {
        Ok(crate::emit::patch_text(p))
    }
}

/// Check a result diff (unless `check_internal` is off) and render it. The check against git,
/// which needs the working tree, is the caller's.
pub fn verified_result(out: &Patch, check_internal: bool) -> (r: Result<Vec<u8>, AppError>)
    requires
        bodies_fit(out@),
    ensures
        match r {
            Ok(b) => verified_spec(out@, check_internal) == Ok::<Seq<u8>, AppErr>(b@),
            Err(e) => verified_spec(out@, check_internal) == Err::<Seq<u8>, AppErr>(e@),
        },
{
    if check_internal {
        match crate::validate::validate_internal(out) {
            Ok(()) => {},
            Err(e) => {
                let mut m = String::from_str("internal consistency check failed: ");
                m.append(e.message().as_str());
                return Err(AppError::Verify(m));
            },
        }
    }
    Ok(crate::emit::emit(out))
}

/// The failure a git check reports: only a verdict from git, a rejection, says anything about
/// the result diff (a verification failure); a writer that panicked is an internal error; a git
/// that would not start, a failure talking to it, or one that gave up on its own is an I/O
/// failure of the environment.
pub open spec fn git_failure_spec(e: GitCheckError) -> AppErr {
    match e {
        GitCheckError::Rejected(_) => AppErr::Verify(git_msg(e)),
        GitCheckError::WriterPanicked => AppErr::Internal(git_msg(e)),
        _ => AppErr::Io(git_msg(e)),
    }
}

/// Map a failed git check to the error the process reports.
pub fn git_failure(e: &GitCheckError) -> (r: AppError)
    ensures
        r@ == git_failure_spec(*e),
{
    let m = e.message();
    match e {
        GitCheckError::Rejected(_) => AppError::Verify(m),
        GitCheckError::WriterPanicked => AppError::Internal(m),
        _ => AppError::Io(m),
    }
}

} // verus!
