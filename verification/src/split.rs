//! Splitting a hunk into smaller hunks: automatically at the context between change runs,
//! explicitly at chosen new-file lines, or down to a chosen subset of its changed lines.

use vstd::prelude::*;
use vstd::string::StringExecFns;

use crate::model::{
    body_view, count_of, files_view, hunks_view, lemma_count_concat, lemma_count_prefix,
    lemma_count_split3, sides_fit, trailer_view, ContentV, FileContent, FileDiff, FileV, Hunk,
    HunkV, Line, LineKind, LineV, Patch, PatchV,
};

verus! {

/// Why a split request was refused.
#[derive(Debug, PartialEq, Eq, Structural)]
pub enum SplitError {
    /// The new-file line asked for as a cut is a change line, not a context line.
    NotAContextLine(u32),
    /// The new-file line asked for as a cut lies outside the hunk.
    OutOfRange(u32),
    /// A selected changed line lies outside `1..=changed` of the hunk: the offending 1-based
    /// index and the hunk's changed-line count.
    ChangedLineOutOfRange { index: usize, changed: usize },
    /// The selection names no changed line at all.
    NoChangedLinesSelected,
}

/// The message a user is shown for a split error.
pub open spec fn split_msg(e: SplitError) -> Seq<char> {
    match e {
        SplitError::NotAContextLine(n) => "new-file line "@ + crate::text::dec_chars(n as nat)
            + " is a change line, not a context line"@,
        SplitError::OutOfRange(n) => "new-file line "@ + crate::text::dec_chars(n as nat)
            + " is out of range"@,
        SplitError::ChangedLineOutOfRange { index, changed } => "changed-line index "@
            + crate::text::dec_chars(index as nat) + " is out of range (sub-hunk has "@
            + crate::text::dec_chars(changed as nat) + " changed line(s))"@,
        SplitError::NoChangedLinesSelected => "the selection references no changed lines"@,
    }
}

impl SplitError {
    /// The message a user is shown for the error.
    pub fn message(&self) -> (r: String)
        ensures
            r@ == split_msg(*self),
    {
        match self {
            SplitError::NotAContextLine(n) => {
                let mut s = String::from_str("new-file line ");
                s.append(crate::text::dec_string(*n as u64).as_str());
                s.append(" is a change line, not a context line");
                s
            },
            SplitError::OutOfRange(n) => {
                let mut s = String::from_str("new-file line ");
                s.append(crate::text::dec_string(*n as u64).as_str());
                s.append(" is out of range");
                s
            },
            SplitError::ChangedLineOutOfRange { index, changed } => {
                let mut s = String::from_str("changed-line index ");
                s.append(crate::text::dec_string(*index as u64).as_str());
                s.append(" is out of range (sub-hunk has ");
                s.append(crate::text::dec_string(*changed as u64).as_str());
                s.append(" changed line(s))");
                s
            },
            SplitError::NoChangedLinesSelected => String::from_str(
                "the selection references no changed lines",
            ),
        }
    }
}

/// Old-side lines before body index `i`.
pub open spec fn old_off(lines: Seq<LineV>, i: int) -> nat {
    count_of(lines.subrange(0, i), LineKind::Context) + count_of(
        lines.subrange(0, i),
        LineKind::Del,
    )
}

/// New-side lines before body index `i`.
pub open spec fn new_off(lines: Seq<LineV>, i: int) -> nat {
    count_of(lines.subrange(0, i), LineKind::Context) + count_of(
        lines.subrange(0, i),
        LineKind::Add,
    )
}

/// The hunk made of `h`'s body lines `from..to`, with its header recomputed: starts shifted
/// by what precedes the slice, counts taken from the slice, the section kept only by a piece
/// that starts where the hunk does.
pub open spec fn subhunk_spec(h: HunkV, from: int, to: int) -> HunkV {
    let s = h.lines.subrange(from, to);
    HunkV {
        old_start: (h.old_start + old_off(h.lines, from)) as u32,
        old_lines: (count_of(s, LineKind::Context) + count_of(s, LineKind::Del)) as u32,
        new_start: (h.new_start + new_off(h.lines, from)) as u32,
        new_lines: (count_of(s, LineKind::Context) + count_of(s, LineKind::Add)) as u32,
        section: if from == 0 {
            h.section
        } else {
            Seq::empty()
        },
        lines: s,
    }
}

/// Body index `i` opens a run of change lines.
pub open spec fn starts_run(lines: Seq<LineV>, i: int) -> bool {
    lines[i].kind != LineKind::Context && (i == 0 || lines[i - 1].kind == LineKind::Context)
}

/// The body indices at which the maximal runs of change lines start, in order.
pub open spec fn run_starts(lines: Seq<LineV>) -> Seq<int>
    decreases lines.len(),
{
    if lines.len() == 0 {
        Seq::empty()
    } else if starts_run(lines, lines.len() - 1) {
        run_starts(lines.drop_last()).push(lines.len() - 1)
    } else {
        run_starts(lines.drop_last())
    }
}

/// Where automatic piece `i` starts: the first piece at the top of the hunk, every other one
/// at its own change run.
pub open spec fn auto_from(rs: Seq<int>, i: int) -> int {
    if i == 0 {
        0
    } else {
        rs[i]
    }
}

/// Where automatic piece `i` ends: just before the next change run, or at the end of the body.
pub open spec fn auto_to(rs: Seq<int>, n: int, i: int) -> int {
    if i + 1 == rs.len() {
        n
    } else {
        rs[i + 1]
    }
}

/// The sub-hunks [`auto_split_hunk`] makes of `h`.
pub open spec fn auto_split_spec(h: HunkV) -> Seq<HunkV> {
    let rs = run_starts(h.lines);
    if rs.len() <= 1 {
        seq![h]
    } else {
        Seq::new(
            rs.len(),
            |i: int| subhunk_spec(h, auto_from(rs, i), auto_to(rs, h.lines.len() as int, i)),
        )
    }
}

pub open spec fn hunks_of(v: Seq<Hunk>) -> Seq<HunkV> {
    v.map_values(|h: Hunk| h@)
}

/// The run starts lie inside the body, in increasing order, and each does open a run.
pub proof fn lemma_run_starts(lines: Seq<LineV>)
    ensures
        forall|k: int|
            0 <= k < run_starts(lines).len() ==> 0 <= #[trigger] run_starts(lines)[k] < lines.len()
                && starts_run(lines, run_starts(lines)[k]),
        forall|j: int, k: int|
            0 <= j < k < run_starts(lines).len() ==> run_starts(lines)[j] < run_starts(lines)[k],
    decreases lines.len(),
{
    if lines.len() > 0 {
        let d = lines.drop_last();
        lemma_run_starts(d);
        assert forall|k: int| 0 <= k < run_starts(d).len() implies starts_run(
            lines,
            #[trigger] run_starts(d)[k],
        ) by {
            let x = run_starts(d)[k];
            assert(starts_run(d, x));
            assert(d[x] == lines[x]);
            if x > 0 {
                assert(d[x - 1] == lines[x - 1]);
            }
        }
    }
}

/// The header the slice `from..to` gets stays within `u32` when the whole hunk does.
proof fn lemma_slice_fits(h: HunkV, from: int, to: int)
    requires
        h.fits(),
        0 <= from <= to <= h.lines.len(),
    ensures
        h.old_start + old_off(h.lines, from) + count_of(
            h.lines.subrange(from, to),
            LineKind::Context,
        ) + count_of(h.lines.subrange(from, to), LineKind::Del) <= u32::MAX,
        h.new_start + new_off(h.lines, from) + count_of(
            h.lines.subrange(from, to),
            LineKind::Context,
        ) + count_of(h.lines.subrange(from, to), LineKind::Add) <= u32::MAX,
        sides_fit(h.lines.subrange(0, from)),
        sides_fit(h.lines.subrange(from, to)),
{
    lemma_count_split3(h.lines, from, to, LineKind::Context);
    lemma_count_split3(h.lines, from, to, LineKind::Add);
    lemma_count_split3(h.lines, from, to, LineKind::Del);
}

/// Build the hunk made of `h`'s body lines `from..to`, recomputing its header.
fn rebuild_subhunk(h: &Hunk, from: usize, to: usize) -> (r: Hunk)
    requires
        h@.fits(),
        from <= to <= h.lines@.len(),
    ensures
        r@ == subhunk_spec(h@, from as int, to as int),
{
    proof {
        lemma_slice_fits(h@, from as int, to as int);
        assert(body_view(h.lines@) == h@.lines);
    }
    let (pre_ctx, pre_add, pre_del) = crate::model::count_kinds_in(h.lines.as_slice(), 0, from);
    let (ctx, add, del) = crate::model::count_kinds_in(h.lines.as_slice(), from, to);
    let section = if from == 0 {
        crate::model::clone_bytes(&h.section)
    } else {
        Vec::new()
    };
    let r = Hunk {
        old_start: h.old_start + (pre_ctx + pre_del),
        old_lines: ctx + del,
        new_start: h.new_start + (pre_ctx + pre_add),
        new_lines: ctx + add,
        section,
        lines: crate::model::clone_range(h.lines.as_slice(), from, to),
    };
    proof {
        assert(r@.section == subhunk_spec(h@, from as int, to as int).section);
        assert(r@.lines == subhunk_spec(h@, from as int, to as int).lines);
    }
    r
}

/// The maximal runs of change lines of `h`'s body as `(start, end)` index pairs, in order.
fn change_runs(h: &Hunk) -> (r: Vec<(usize, usize)>)
    ensures
        r@.len() == run_starts(h@.lines).len(),
        forall|k: int|
            0 <= k < r@.len() ==> {
                &&& (#[trigger] r@[k]).0 == run_starts(h@.lines)[k]
                &&& r@[k].0 < r@[k].1 <= h@.lines.len()
                &&& forall|j: int|
                    r@[k].0 <= j < r@[k].1 ==> h@.lines[j].kind != LineKind::Context
                &&& r@[k].1 < h@.lines.len() ==> h@.lines[r@[k].1 as int].kind
                    == LineKind::Context
            },
{
    let ghost v = h@.lines;
    let n = h.lines.len();
    let mut r: Vec<(usize, usize)> = Vec::new();
    let mut i: usize = 0;
    while i < n
        invariant
            v == h@.lines,
            v == body_view(h.lines@),
            n == v.len(),
            i <= n,
            r@.len() == run_starts(v.subrange(0, i as int)).len(),
            forall|k: int|
                0 <= k < r@.len() ==> (#[trigger] r@[k]).0 == run_starts(v.subrange(0, i as int))[k],
            forall|k: int| 0 <= k < r@.len() ==> (#[trigger] r@[k]).0 < r@[k].1 <= i,
            forall|k: int, j: int|
                0 <= k < r@.len() && (#[trigger] r@[k]).0 <= j < r@[k].1 ==> #[trigger] v[j].kind
                    != LineKind::Context,
            forall|k: int|
                0 <= k < r@.len() && (#[trigger] r@[k]).1 < i ==> v[r@[k].1 as int].kind
                    == LineKind::Context,
            forall|j: int, k: int| 0 <= j < k < r@.len() ==> (#[trigger] r@[j]).1 < (#[trigger] r@[k]).0,
            i > 0 && v[i - 1].kind != LineKind::Context ==> r@.len() > 0 && r@[r@.len() - 1].1
                == i,
        decreases n - i,
    {
        let ghost pre = v.subrange(0, i as int);
        let ghost post = v.subrange(0, i + 1);
        proof {
            assert forall|k: int| 0 <= k < r@.len() && (#[trigger] r@[k]).1 == i implies v[i
                - 1].kind != LineKind::Context by {
                assert(v[r@[k].1 - 1].kind != LineKind::Context);
            }
            assert(post.drop_last() =~= pre);
            assert(post[i as int] == v[i as int]);
            if i > 0 {
                assert(post[i - 1] == v[i - 1]);
            }
        }
        if h.lines[i].kind != LineKind::Context {
            if i == 0 || h.lines[i - 1].kind == LineKind::Context {
                proof {
                    assert(starts_run(post, i as int));
                }
                r.push((i, i + 1));
            } else {
                proof {
                    assert(!starts_run(post, i as int));
                }
                let k = r.len() - 1;
                let s = r[k].0;
                r.set(k, (s, i + 1));
            }
        } else {
            proof {
                assert(!starts_run(post, i as int));
            }
        }
        i = i + 1;
    }
    proof {
        assert(v.subrange(0, n as int) =~= v);
    }
    r
}

/// A hunk can be auto-split: both sides of its body fit a header's counts, and where it has
/// more than one change run, so that later pieces start past its own starts, its body placed at
/// its starts stays within `u32`. A hunk of one run comes back as it is, whatever its starts.
pub open spec fn splits_fit(h: HunkV) -> bool {
    &&& sides_fit(h.lines)
    &&& (run_starts(h.lines).len() <= 1 || h.fits())
}

/// Whether `h` can be auto-split.
pub fn splits_in_bounds(h: &Hunk) -> (r: bool)
    ensures
        r == splits_fit(h@),
{
    proof {
        assert(body_view(h.lines@) == h@.lines);
    }
    if !crate::model::sides_in_bounds(h.lines.as_slice()) {
        return false;
    }
    let runs = change_runs(h);
    if runs.len() <= 1 {
        return true;
    }
    let (ctx, add, del) = crate::model::count_kinds(h.lines.as_slice());
    (h.old_start as u64) + (ctx as u64) + (del as u64) <= 0xffff_ffff && (h.new_start as u64)
        + (ctx as u64) + (add as u64) <= 0xffff_ffff
}

/// Whether `h`'s body, placed at its starts, stays within `u32` on both sides.
pub fn hunk_fits(h: &Hunk) -> (r: bool)
    ensures
        r == h@.fits(),
{
    proof {
        assert(body_view(h.lines@) == h@.lines);
    }
    if !crate::model::sides_in_bounds(h.lines.as_slice()) {
        return false;
    }
    let (ctx, add, del) = crate::model::count_kinds(h.lines.as_slice());
    (h.old_start as u64) + (ctx as u64) + (del as u64) <= 0xffff_ffff && (h.new_start as u64)
        + (ctx as u64) + (add as u64) <= 0xffff_ffff
}

/// Split a hunk into minimal sub-hunks at the context between its change runs. A hunk with
/// at most one change run comes back unchanged, as the only element.
///
/// The first sub-hunk keeps everything up to the second change run; every later one starts
/// at its own change run and runs up to the next, so the old-file ranges of the pieces do not
/// overlap and the pieces can be emitted together.
pub fn auto_split_hunk(h: &Hunk) -> (r: Vec<Hunk>)
    requires
        splits_fit(h@),
    ensures
        hunks_of(r@) == auto_split_spec(h@),
{
    let runs = change_runs(h);
    let ghost rs = run_starts(h@.lines);
    proof {
        lemma_run_starts(h@.lines);
    }
    if runs.len() <= 1 {
        let r = vec![h.clone_hunk()];
        proof {
            assert(hunks_of(r@) =~= auto_split_spec(h@));
        }
        return r;
    }
    let n = h.lines.len();
    let mut result: Vec<Hunk> = Vec::new();
    let mut ri: usize = 0;
    while ri < runs.len()
        invariant
            rs == run_starts(h@.lines),
            runs@.len() == rs.len(),
            rs.len() > 1,
            n == h@.lines.len(),
            h@.fits(),
            forall|k: int| 0 <= k < runs@.len() ==> (#[trigger] runs@[k]).0 == rs[k],
            forall|k: int| 0 <= k < rs.len() ==> 0 <= #[trigger] rs[k] < n,
            forall|j: int, k: int| 0 <= j < k < rs.len() ==> rs[j] < rs[k],
            ri <= runs@.len(),
            result@.len() == ri,
            forall|k: int|
                0 <= k < ri ==> (#[trigger] result@[k])@ == subhunk_spec(
                    h@,
                    auto_from(rs, k),
                    auto_to(rs, n as int, k),
                ),
        decreases runs@.len() - ri,
    {
        let lead_from = if ri == 0 {
            0
        } else {
            runs[ri].0
        };
        let trail_to = if ri + 1 == runs.len() {
            n
        } else {
            runs[ri + 1].0
        };
        proof {
            if ri > 0 && ri + 1 < runs@.len() {
                assert(rs[ri as int] < rs[ri + 1]);
            }
            if ri == 0 {
                assert(0 <= rs[1]);
            }
        }
        result.push(rebuild_subhunk(h, lead_from, trail_to));
        ri = ri + 1;
    }
    proof {
        assert(hunks_of(result@) =~= auto_split_spec(h@));
    }
    result
}

/// The new-file line number of body index `i` (meaningful for context and added lines).
pub open spec fn new_no(h: HunkV, i: int) -> int {
    h.new_start + new_off(h.lines, i)
}

/// `x` is one of the requested cuts.
pub open spec fn in_cuts(cuts: Seq<u32>, x: int) -> bool {
    exists|j: int| 0 <= j < cuts.len() && cuts[j] == x
}

/// Body index `i` is an added line whose new-file number was asked for as a cut.
pub open spec fn bad_cut(h: HunkV, cuts: Seq<u32>, i: int) -> bool {
    0 <= i < h.lines.len() && h.lines[i].kind == LineKind::Add && in_cuts(cuts, new_no(h, i))
}

/// New-file line `c` is not covered by the hunk.
pub open spec fn cut_out_of_range(h: HunkV, c: int) -> bool {
    c < h.new_start || c >= h.new_start + h.body_new()
}

/// The body indices, below `k`, of the context lines whose new-file numbers were asked for as
/// cuts, in order.
pub open spec fn cut_indices(h: HunkV, cuts: Seq<u32>, k: int) -> Seq<int>
    decreases k,
{
    if k <= 0 {
        Seq::empty()
    } else if h.lines[k - 1].kind == LineKind::Context && in_cuts(cuts, new_no(h, k - 1)) {
        cut_indices(h, cuts, k - 1).push(k - 1)
    } else {
        cut_indices(h, cuts, k - 1)
    }
}

/// Where piece `j` of a split at body indices `c` starts: just after the previous cut line.
pub open spec fn cut_from(c: Seq<int>, j: int) -> int {
    if j == 0 {
        0
    } else {
        c[j - 1] + 1
    }
}

/// Where piece `j` of a split at body indices `c` ends: just after its own cut line, which it
/// keeps as trailing context, or at the end of the body.
pub open spec fn cut_to(c: Seq<int>, n: int, j: int) -> int {
    if j == c.len() {
        n
    } else {
        c[j] + 1
    }
}

/// Piece `j` of a split at body indices `c` is kept.
pub open spec fn keeps_piece(h: HunkV, c: Seq<int>, j: int) -> bool {
    keeps_range(h, cut_from(c, j), cut_to(c, h.lines.len() as int, j))
}

/// The kept pieces among the first `m` pieces of a split at body indices `c`.
pub open spec fn pieces_upto(h: HunkV, c: Seq<int>, m: int) -> Seq<HunkV>
    decreases m,
{
    if m <= 0 {
        Seq::empty()
    } else if keeps_piece(h, c, m - 1) {
        pieces_upto(h, c, m - 1).push(
            subhunk_spec(h, cut_from(c, m - 1), cut_to(c, h.lines.len() as int, m - 1)),
        )
    } else {
        pieces_upto(h, c, m - 1)
    }
}

/// The hunks a split of `h` at the new-file lines `cuts` makes, when the request is valid.
pub open spec fn split_at_spec(h: HunkV, cuts: Seq<u32>) -> Seq<HunkV> {
    let c = cut_indices(h, cuts, h.lines.len() as int);
    if c.len() == 0 {
        seq![h]
    } else {
        pieces_upto(h, c, c.len() + 1int)
    }
}

pub(crate) proof fn lemma_cut_indices(h: HunkV, cuts: Seq<u32>, k: int)
    requires
        0 <= k <= h.lines.len(),
    ensures
        forall|j: int|
            0 <= j < cut_indices(h, cuts, k).len() ==> 0 <= #[trigger] cut_indices(h, cuts, k)[j]
                < k,
        forall|i: int, j: int|
            0 <= i < j < cut_indices(h, cuts, k).len() ==> cut_indices(h, cuts, k)[i]
                < cut_indices(h, cuts, k)[j],
    decreases k,
{
    if k > 0 {
        lemma_cut_indices(h, cuts, k - 1);
        let p = cut_indices(h, cuts, k - 1);
        let c = cut_indices(h, cuts, k);
        assert forall|j: int| 0 <= j < c.len() implies 0 <= #[trigger] c[j] < k by {
            if j < p.len() {
                assert(c[j] == p[j]);
            }
        }
        assert forall|i: int, j: int| 0 <= i < j < c.len() implies c[i] < c[j] by {
            assert(c[i] == p[i]);
            if j < p.len() {
                assert(c[j] == p[j]);
            }
        }
    }
}


/// The cuts of a split request are all acceptable: none falls on an added line or outside the
/// hunk.
pub open spec fn split_at_valid(h: HunkV, cuts: Seq<u32>) -> bool {
    &&& forall|i: int| !bad_cut(h, cuts, i)
    &&& forall|j: int| 0 <= j < cuts.len() ==> !cut_out_of_range(h, #[trigger] cuts[j] as int)
}

/// `e` is the error a split request answers: the first cut that falls on an added line, in
/// body order; failing that, the smallest cut outside the hunk.
pub open spec fn split_at_error(h: HunkV, cuts: Seq<u32>, e: SplitError) -> bool {
    match e {
        SplitError::NotAContextLine(x) => exists|i: int|
            #![trigger bad_cut(h, cuts, i)]
            bad_cut(h, cuts, i) && (forall|j: int| 0 <= j < i ==> !bad_cut(h, cuts, j)) && x
                == new_no(h, i),
        SplitError::OutOfRange(m) => {
            &&& forall|i: int| !bad_cut(h, cuts, i)
            &&& in_cuts(cuts, m as int)
            &&& cut_out_of_range(h, m as int)
            &&& forall|j: int|
                0 <= j < cuts.len() && cut_out_of_range(h, #[trigger] cuts[j] as int) ==> m
                    <= cuts[j]
        },
        _ => false,
    }
}

/// Whether `x` is one of `s`.
fn contains_u32(s: &[u32], x: u32) -> (r: bool)
    ensures
        r == in_cuts(s@, x as int),
{
    let mut i: usize = 0;
    while i < s.len()
        invariant
            i <= s@.len(),
            forall|j: int| 0 <= j < i ==> s@[j] != x,
        decreases s@.len() - i,
    {
        if s[i] == x {
            return true;
        }
        i = i + 1;
    }
    false
}

/// The piece `from..to` of `h` is kept: it is not empty and it carries a change.
pub open spec fn keeps_range(h: HunkV, from: int, to: int) -> bool {
    from < to && count_of(h.lines.subrange(from, to), LineKind::Add) + count_of(
        h.lines.subrange(from, to),
        LineKind::Del,
    ) > 0
}

/// Append the piece `from..to` of `h` to `out` when it is kept.
fn push_piece(h: &Hunk, from: usize, to: usize, out: &mut Vec<Hunk>)
    requires
        h@.fits(),
        from <= to <= h@.lines.len(),
    ensures
        hunks_of(final(out)@) == if keeps_range(h@, from as int, to as int) {
            hunks_of(old(out)@).push(subhunk_spec(h@, from as int, to as int))
        } else {
            hunks_of(old(out)@)
        },
{
    let ghost before = out@;
    if from < to {
        proof {
            lemma_slice_fits(h@, from as int, to as int);
            assert(body_view(h.lines@) == h@.lines);
        }
        let (_, add, del) = crate::model::count_kinds_in(h.lines.as_slice(), from, to);
        if add > 0 || del > 0 {
            let piece = rebuild_subhunk(h, from, to);
            out.push(piece);
            proof {
                assert(hunks_of(out@) =~= hunks_of(before).push(
                    subhunk_spec(h@, from as int, to as int),
                ));
            }
        }
    }
}

/// Build the kept pieces of a split of `h` at the (increasing) body indices `c`.
fn rebuild_pieces(h: &Hunk, c: &[usize]) -> (r: Vec<Hunk>)
    requires
        h@.fits(),
        forall|j: int| 0 <= j < c@.len() ==> #[trigger] c@[j] < h@.lines.len(),
        forall|i: int, j: int| 0 <= i < j < c@.len() ==> c@[i] < c@[j],
    ensures
        hunks_of(r@) == pieces_upto(h@, c@.map_values(|x: usize| x as int), c@.len() + 1int),
{
    let ghost ci = c@.map_values(|x: usize| x as int);
    let n = h.lines.len();
    let mut result: Vec<Hunk> = Vec::new();
    let mut j: usize = 0;
    while j < c.len()
        invariant
            ci == c@.map_values(|x: usize| x as int),
            n == h@.lines.len(),
            h@.fits(),
            forall|k: int| 0 <= k < c@.len() ==> #[trigger] c@[k] < n,
            forall|i: int, k: int| 0 <= i < k < c@.len() ==> c@[i] < c@[k],
            j <= c@.len(),
            hunks_of(result@) == pieces_upto(h@, ci, j as int),
        decreases c@.len() - j,
    {
        let from = if j == 0 {
            0
        } else {
            c[j - 1] + 1
        };
        let to = c[j] + 1;
        proof {
            if j > 0 {
                assert(c@[j - 1] < c@[j as int]);
            }
            assert(from == cut_from(ci, j as int));
            assert(to == cut_to(ci, n as int, j as int));
        }
        push_piece(h, from, to, &mut result);
        j = j + 1;
    }
    let from = if j == 0 {
        0
    } else {
        c[j - 1] + 1
    };
    proof {
        assert(from == cut_from(ci, j as int));
        assert(n == cut_to(ci, n as int, j as int));
    }
    push_piece(h, from, n, &mut result);
    result
}

/// Split a hunk at the given new-file line numbers, each of which must be a context line of
/// the hunk. Each piece ends just after its cut line, which it keeps as trailing context; the
/// next piece starts just after it. Pieces that come out empty or without any change are
/// dropped. A cut on an added line, or outside the hunk, is an error; without any cut the hunk
/// comes back unchanged.
pub fn split_hunk_at(h: &Hunk, new_line_cuts: &[u32]) -> (r: Result<Vec<Hunk>, SplitError>)
    requires
        h@.fits(),
    ensures
        match r {
            Ok(v) => split_at_valid(h@, new_line_cuts@) && hunks_of(v@) == split_at_spec(
                h@,
                new_line_cuts@,
            ),
            Err(e) => split_at_error(h@, new_line_cuts@, e),
        },
{
    let ghost hv = h@;
    let ghost cuts = new_line_cuts@;
    let ghost v = h@.lines;
    let n = h.lines.len();
    let mut new_no_now: u32 = h.new_start;
    let mut cut_at: Vec<usize> = Vec::new();
    let mut i: usize = 0;
    while i < n
        invariant
            hv == h@,
            cuts == new_line_cuts@,
            v == hv.lines,
            v == body_view(h.lines@),
            n == v.len(),
            hv.fits(),
            i <= n,
            new_no_now == new_no(hv, i as int),
            forall|j: int| 0 <= j < i ==> !bad_cut(hv, cuts, j),
            cut_at@.map_values(|x: usize| x as int) == cut_indices(hv, cuts, i as int),
        decreases n - i,
    {
        proof {
            assert(v.subrange(0, i + 1).drop_last() =~= v.subrange(0, i as int));
            assert(v.subrange(0, i + 1).last() == v[i as int]);
            lemma_count_prefix(v, i + 1, LineKind::Context);
            lemma_count_prefix(v, i + 1, LineKind::Add);
        }
        let kind = h.lines[i].kind;
        if kind != LineKind::Del {
            let here = new_no_now;
            new_no_now = new_no_now + 1;
            if contains_u32(new_line_cuts, here) {
                if kind != LineKind::Context {
                    proof {
                        assert(bad_cut(hv, cuts, i as int));
                    }
                    return Err(SplitError::NotAContextLine(here));
                }
                cut_at.push(i);
                proof {
                    assert(cut_at@.map_values(|x: usize| x as int) =~= cut_indices(
                        hv,
                        cuts,
                        i + 1,
                    ));
                }
            }
        }
        i = i + 1;
    }
    proof {
        assert(v.subrange(0, n as int) =~= v);
        assert forall|j: int| !bad_cut(hv, cuts, j) by {
            if 0 <= j < n {
            }
        }
    }
    let mut missing: Option<u32> = None;
    let mut j: usize = 0;
    while j < new_line_cuts.len()
        invariant
            hv == h@,
            cuts == new_line_cuts@,
            new_no_now == hv.new_start + hv.body_new(),
            j <= cuts.len(),
            match missing {
                None => forall|k: int| 0 <= k < j ==> !cut_out_of_range(hv, #[trigger] cuts[k] as int),
                Some(m) => {
                    &&& in_cuts(cuts, m as int)
                    &&& cut_out_of_range(hv, m as int)
                    &&& forall|k: int|
                        0 <= k < j && cut_out_of_range(hv, #[trigger] cuts[k] as int) ==> m
                            <= cuts[k]
                },
            },
        decreases cuts.len() - j,
    {
        let c = new_line_cuts[j];
        if c < h.new_start || c >= new_no_now {
            match missing {
                None => {
                    missing = Some(c);
                },
                Some(m) => {
                    if c < m {
                        missing = Some(c);
                    }
                },
            }
        }
        j = j + 1;
    }
    if let Some(m) = missing {
        return Err(SplitError::OutOfRange(m));
    }
    if cut_at.len() == 0 {
        let r = vec![h.clone_hunk()];
        proof {
            assert(hunks_of(r@) =~= split_at_spec(hv, cuts));
        }
        return Ok(r);
    }
    proof {
        lemma_cut_indices(hv, cuts, n as int);
        assert forall|k: int| 0 <= k < cut_at@.len() implies #[trigger] cut_at@[k] < n by {
            assert(cut_at@.map_values(|x: usize| x as int)[k] == cut_at@[k] as int);
        }
        assert forall|a: int, b: int| 0 <= a < b < cut_at@.len() implies cut_at@[a]
            < cut_at@[b] by {
            assert(cut_at@.map_values(|x: usize| x as int)[a] == cut_at@[a] as int);
            assert(cut_at@.map_values(|x: usize| x as int)[b] == cut_at@[b] as int);
        }
    }
    let pieces = rebuild_pieces(h, cut_at.as_slice());
    Ok(pieces)
}

/// `x` is one of the selected changed-line indices.
pub open spec fn sel_has(sel: Seq<usize>, x: int) -> bool {
    exists|j: int| 0 <= j < sel.len() && sel[j] == x
}

/// `m` is the largest selected index.
pub open spec fn sel_max(sel: Seq<usize>, m: int) -> bool {
    sel_has(sel, m) && forall|j: int| 0 <= j < sel.len() ==> sel[j] <= m
}

/// What body line `l`, the `ci`-th changed line when it is one, becomes in a piece that
/// realises only the selected changed lines: context stays; a selected change stays; an
/// unselected deletion becomes context; an unselected addition is left out.
pub open spec fn project_line(l: LineV, ci: int, sel: Seq<usize>) -> Seq<LineV> {
    match l.kind {
        LineKind::Context => seq![l],
        LineKind::Del => if sel_has(sel, ci) {
            seq![l]
        } else {
            seq![LineV { kind: LineKind::Context, text: l.text, no_newline: l.no_newline }]
        },
        LineKind::Add => if sel_has(sel, ci) {
            seq![l]
        } else {
            Seq::empty()
        },
    }
}

/// The body after every line has been rewritten by [`project_line`].
pub open spec fn project(lines: Seq<LineV>, sel: Seq<usize>) -> Seq<LineV>
    decreases lines.len(),
{
    if lines.len() == 0 {
        Seq::empty()
    } else {
        project(lines.drop_last(), sel) + project_line(
            lines.last(),
            crate::model::changed_of(lines).len() as int,
            sel,
        )
    }
}

/// A context line that carries a no-newline marker but is not the last line is written as the
/// deletion of that line and its re-addition with a newline.
pub open spec fn fix_line(l: LineV, last: bool) -> Seq<LineV> {
    if !last && l.kind == LineKind::Context && l.no_newline.is_some() {
        seq![
            LineV { kind: LineKind::Del, text: l.text, no_newline: l.no_newline },
            LineV { kind: LineKind::Add, text: l.text, no_newline: None },
        ]
    } else {
        seq![l]
    }
}

/// The first `k` lines of `lines` after [`fix_line`].
pub open spec fn fixup_upto(lines: Seq<LineV>, k: int) -> Seq<LineV>
    decreases k,
{
    if k <= 0 {
        Seq::empty()
    } else {
        fixup_upto(lines, k - 1) + fix_line(lines[k - 1], k == lines.len())
    }
}

/// The body of the piece of `h` that realises only the selected changed lines.
pub open spec fn slice_body(h: HunkV, sel: Seq<usize>) -> Seq<LineV> {
    let p = project(h.lines, sel);
    fixup_upto(p, p.len() as int)
}

/// The piece of `h` that realises only the selected changed lines: its old side is the
/// hunk's, its counts are those of its body.
pub open spec fn slice_spec(h: HunkV, sel: Seq<usize>) -> HunkV {
    let b = slice_body(h, sel);
    HunkV {
        old_start: h.old_start,
        old_lines: (count_of(b, LineKind::Context) + count_of(b, LineKind::Del)) as u32,
        new_start: h.new_start,
        new_lines: (count_of(b, LineKind::Context) + count_of(b, LineKind::Add)) as u32,
        section: h.section,
        lines: b,
    }
}

/// Old-side and new-side sizes of a body.
pub open spec fn old_side(b: Seq<LineV>) -> nat {
    count_of(b, LineKind::Context) + count_of(b, LineKind::Del)
}

pub open spec fn new_side(b: Seq<LineV>) -> nat {
    count_of(b, LineKind::Context) + count_of(b, LineKind::Add)
}

proof fn lemma_sides_push(a: Seq<LineV>, l: LineV)
    ensures
        old_side(a.push(l)) == old_side(a) + if l.kind != LineKind::Add { 1nat } else { 0nat },
        new_side(a.push(l)) == new_side(a) + if l.kind != LineKind::Del { 1nat } else { 0nat },
{
    assert(a.push(l).drop_last() =~= a);
}

proof fn lemma_sides_concat(a: Seq<LineV>, b: Seq<LineV>)
    ensures
        old_side(a + b) == old_side(a) + old_side(b),
        new_side(a + b) == new_side(a) + new_side(b),
{
    lemma_count_concat(a, b, LineKind::Context);
    lemma_count_concat(a, b, LineKind::Add);
    lemma_count_concat(a, b, LineKind::Del);
}


proof fn lemma_sides_one(l: LineV)
    ensures
        old_side(seq![l]) == if l.kind != LineKind::Add { 1nat } else { 0nat },
        new_side(seq![l]) == if l.kind != LineKind::Del { 1nat } else { 0nat },
{
    lemma_sides_push(Seq::empty(), l);
    assert(Seq::<LineV>::empty().push(l) =~= seq![l]);
}

proof fn lemma_project_line_sides(l: LineV, ci: int, sel: Seq<usize>)
    ensures
        old_side(project_line(l, ci, sel)) == old_side(seq![l]),
        new_side(project_line(l, ci, sel)) <= 1,
{
    lemma_sides_one(l);
    let p = project_line(l, ci, sel);
    if p.len() == 1 {
        lemma_sides_one(p[0]);
        assert(p =~= seq![p[0]]);
    } else {
        assert(p.len() == 0);
    }
}

proof fn lemma_fix_line_sides(l: LineV, last: bool)
    ensures
        old_side(fix_line(l, last)) == old_side(seq![l]),
        new_side(fix_line(l, last)) == new_side(seq![l]),
{
    lemma_sides_one(l);
    let f = fix_line(l, last);
    if f.len() == 2 {
        lemma_sides_one(f[0]);
        lemma_sides_push(seq![f[0]], f[1]);
        assert(seq![f[0]].push(f[1]) =~= f);
    } else {
        assert(f =~= seq![l]);
    }
}

/// A piece of `h` that realises only the selected changed lines. `selected` holds 1-based
/// indices over the hunk's changed lines in body order (the numbering of
/// [`Hunk::changed_lines`]); it is read as a set. Context stays context; a selected deletion
/// stays, an unselected one becomes context; a selected addition stays, an unselected one is
/// left out. The old side of the piece is that of the hunk. A retained deletion that carried
/// the no-newline marker and is followed by more lines is written as its deletion and
/// re-addition with a newline. An empty selection, or one past the hunk's changed lines, is an
/// error.
pub fn slice_changed_lines(h: &Hunk, selected: &[usize]) -> (r: Result<Hunk, SplitError>)
    requires
        sides_fit(h@.lines),
        h@.lines.len() <= u32::MAX,
    ensures
        match r {
            Err(SplitError::NoChangedLinesSelected) => selected@.len() == 0,
            Err(SplitError::ChangedLineOutOfRange { index, changed }) => {
                &&& selected@.len() > 0
                &&& changed == crate::model::changed_of(h@.lines).len()
                &&& sel_max(selected@, index as int)
                &&& index > changed
            },
            Ok(p) => {
                &&& selected@.len() > 0
                &&& forall|j: int|
                    0 <= j < selected@.len() ==> #[trigger] selected@[j]
                        <= crate::model::changed_of(h@.lines).len()
                &&& p@ == slice_spec(h@, selected@)
                &&& sides_fit(p@.lines)
            },
            _ => false,
        },
{
    let ghost sel = selected@;
    let ghost v = h@.lines;
    let changed = h.changed_lines().len();
    if selected.len() == 0 {
        return Err(SplitError::NoChangedLinesSelected);
    }
    let mut max: usize = selected[0];
    let mut k: usize = 1;
    while k < selected.len()
        invariant
            sel == selected@,
            1 <= k <= sel.len(),
            sel_has(sel, max as int),
            forall|j: int| 0 <= j < k ==> sel[j] <= max,
        decreases sel.len() - k,
    {
        if selected[k] > max {
            max = selected[k];
        }
        k = k + 1;
    }
    if max > changed {
        return Err(SplitError::ChangedLineOutOfRange { index: max, changed });
    }
    let n = h.lines.len();
    let mut lines: Vec<Line> = Vec::new();
    let mut ci: usize = 0;
    let mut i: usize = 0;
    while i < n
        invariant
            sel == selected@,
            v == h@.lines,
            v == body_view(h.lines@),
            n == v.len(),
            i <= n,
            ci == crate::model::changed_of(v.subrange(0, i as int)).len(),
            ci <= i,
            body_view(lines@) == project(v.subrange(0, i as int), sel),
            old_side(body_view(lines@)) == old_side(v.subrange(0, i as int)),
            new_side(body_view(lines@)) <= i,
        decreases n - i,
    {
        let ghost pre = v.subrange(0, i as int);
        let ghost post = v.subrange(0, i + 1);
        let ghost before = body_view(lines@);
        proof {
            assert(post.drop_last() =~= pre);
            assert(post.last() == v[i as int]);
            lemma_sides_push(pre, v[i as int]);
            assert(post =~= pre.push(v[i as int]));
        }
        let l = &h.lines[i];
        match l.kind {
            LineKind::Context => {
                lines.push(l.clone_line());
            },
            LineKind::Del => {
                ci = ci + 1;
                if contains_usize(selected, ci) {
                    lines.push(l.clone_line());
                } else {
                    lines.push(
                        Line {
                            kind: LineKind::Context,
                            text: crate::model::clone_bytes(&l.text),
                            no_newline: crate::model::clone_opt_bytes(&l.no_newline),
                        },
                    );
                }
            },
            LineKind::Add => {
                ci = ci + 1;
                if contains_usize(selected, ci) {
                    lines.push(l.clone_line());
                }
            },
        }
        proof {
            let added = project_line(v[i as int], ci as int, sel);
            assert(body_view(lines@) =~= before + added);
            lemma_sides_concat(before, added);
            lemma_project_line_sides(v[i as int], ci as int, sel);
            lemma_sides_concat(pre, seq![v[i as int]]);
            assert(pre + seq![v[i as int]] =~= post);
        }
        i = i + 1;
    }
    proof {
        assert(v.subrange(0, n as int) =~= v);
    }
    let ghost projected = body_view(lines@);
    let m = lines.len();
    let mut fixed: Vec<Line> = Vec::new();
    let mut j: usize = 0;
    while j < m
        invariant
            projected == body_view(lines@),
            m == projected.len(),
            j <= m,
            body_view(fixed@) == fixup_upto(projected, j as int),
            old_side(body_view(fixed@)) == old_side(projected.subrange(0, j as int)),
            new_side(body_view(fixed@)) == new_side(projected.subrange(0, j as int)),
        decreases m - j,
    {
        let ghost before = body_view(fixed@);
        let ghost pre = projected.subrange(0, j as int);
        proof {
            assert(projected.subrange(0, j + 1) =~= pre.push(projected[j as int]));
            lemma_sides_push(pre, projected[j as int]);
        }
        let l = &lines[j];
        if j + 1 < m && l.kind == LineKind::Context && l.no_newline.is_some() {
            fixed.push(
                Line {
                    kind: LineKind::Del,
                    text: crate::model::clone_bytes(&l.text),
                    no_newline: crate::model::clone_opt_bytes(&l.no_newline),
                },
            );
            fixed.push(
                Line { kind: LineKind::Add, text: crate::model::clone_bytes(&l.text), no_newline: None },
            );
        } else {
            fixed.push(l.clone_line());
        }
        proof {
            let added = fix_line(projected[j as int], j + 1 == m);
            assert(body_view(fixed@) =~= before + added);
            lemma_sides_concat(before, added);
            lemma_fix_line_sides(projected[j as int], j + 1 == m);
            lemma_sides_concat(pre, seq![projected[j as int]]);
            assert(pre + seq![projected[j as int]] =~= projected.subrange(0, j + 1));
        }
        j = j + 1;
    }
    proof {
        assert(projected.subrange(0, m as int) =~= projected);
        assert(new_side(projected) <= n);
        assert(sides_fit(body_view(fixed@)));
    }
    let (ctx, add, del) = crate::model::count_kinds(fixed.as_slice());
    Ok(
        Hunk {
            old_start: h.old_start,
            old_lines: ctx + del,
            new_start: h.new_start,
            new_lines: ctx + add,
            section: crate::model::clone_bytes(&h.section),
            lines: fixed,
        },
    )
}

/// Whether `x` is one of `s`.
fn contains_usize(s: &[usize], x: usize) -> (r: bool)
    ensures
        r == sel_has(s@, x as int),
{
    let mut i: usize = 0;
    while i < s.len()
        invariant
            i <= s@.len(),
            forall|j: int| 0 <= j < i ==> s@[j] != x,
        decreases s@.len() - i,
    {
        if s[i] == x {
            return true;
        }
        i = i + 1;
    }
    false
}

/// The bodies of `pieces`, one after the other.
pub open spec fn concat_bodies(pieces: Seq<HunkV>) -> Seq<LineV>
    decreases pieces.len(),
{
    if pieces.len() == 0 {
        Seq::empty()
    } else {
        concat_bodies(pieces.drop_last()) + pieces.last().lines
    }
}

/// Every automatic piece is a well-formed stretch of the body.
pub open spec fn auto_ranges_ok(h: HunkV) -> bool {
    forall|i: int|
        0 <= i < run_starts(h.lines).len() ==> 0 <= auto_from(run_starts(h.lines), i)
            <= #[trigger] auto_to(run_starts(h.lines), h.lines.len() as int, i) <= h.lines.len()
}

proof fn lemma_auto_ranges(h: HunkV)
    ensures
        auto_ranges_ok(h),
        forall|i: int|
            0 < i < run_starts(h.lines).len() ==> auto_to(
                run_starts(h.lines),
                h.lines.len() as int,
                i - 1,
            ) == #[trigger] auto_from(run_starts(h.lines), i),
{
    let rs = run_starts(h.lines);
    let n = h.lines.len() as int;
    lemma_run_starts(h.lines);
    assert forall|i: int| 0 <= i < rs.len() implies 0 <= auto_from(rs, i) <= #[trigger] auto_to(
        rs,
        n,
        i,
    ) <= n by {
        if i + 1 < rs.len() {
            assert(rs[i] < rs[i + 1]);
        }
        if i == 0 && rs.len() > 1 {
            assert(0 <= rs[1]);
        }
    }
}

proof fn lemma_auto_concat(h: HunkV, m: int)
    requires
        run_starts(h.lines).len() > 1,
        1 <= m <= run_starts(h.lines).len(),
        auto_ranges_ok(h),
        forall|i: int|
            0 < i < run_starts(h.lines).len() ==> auto_to(
                run_starts(h.lines),
                h.lines.len() as int,
                i - 1,
            ) == #[trigger] auto_from(run_starts(h.lines), i),
    ensures
        concat_bodies(auto_split_spec(h).subrange(0, m)) == h.lines.subrange(
            0,
            auto_to(run_starts(h.lines), h.lines.len() as int, m - 1),
        ),
    decreases m,
{
    let rs = run_starts(h.lines);
    let n = h.lines.len() as int;
    let ps = auto_split_spec(h);
    let sub = ps.subrange(0, m);
    assert(sub.drop_last() =~= ps.subrange(0, m - 1));
    let to = auto_to(rs, n, m - 1);
    let from = auto_from(rs, m - 1);
    assert(0 <= from <= to <= n);
    assert(sub.last() == ps[m - 1]);
    assert(ps[m - 1].lines == h.lines.subrange(from, to));
    if m == 1 {
        assert(ps.subrange(0, 0) =~= Seq::<HunkV>::empty());
        assert(concat_bodies(Seq::<HunkV>::empty()) == Seq::<LineV>::empty());
        assert(concat_bodies(sub) =~= h.lines.subrange(0, to));
    } else {
        lemma_auto_concat(h, m - 1);
        assert(auto_to(rs, n, m - 2) == from);
        assert(concat_bodies(sub) =~= h.lines.subrange(0, from) + h.lines.subrange(from, to));
        assert(h.lines.subrange(0, from) + h.lines.subrange(from, to) =~= h.lines.subrange(0, to));
    }
}

/// Automatic splitting loses and repeats nothing: the bodies of the sub-hunks, one after the
/// other, are the hunk's body, and the first sub-hunk starts where the hunk starts.
pub proof fn lemma_auto_split_covers(h: HunkV)
    requires
        splits_fit(h),
    ensures
        concat_bodies(auto_split_spec(h)) == h.lines,
        auto_split_spec(h)[0].old_start == h.old_start,
        auto_split_spec(h)[0].new_start == h.new_start,
{
    let rs = run_starts(h.lines);
    let n = h.lines.len() as int;
    let ps = auto_split_spec(h);
    if rs.len() <= 1 {
        assert(ps.drop_last() =~= Seq::<HunkV>::empty());
        assert(concat_bodies(Seq::<HunkV>::empty()) == Seq::<LineV>::empty());
        assert(ps.last() == h);
        assert(concat_bodies(ps) =~= h.lines);
    } else {
        lemma_auto_ranges(h);
        lemma_auto_concat(h, rs.len() as int);
        assert(ps.subrange(0, rs.len() as int) =~= ps);
        assert(h.lines.subrange(0, n) =~= h.lines);
        assert(h.lines.subrange(0, 0) =~= Seq::<LineV>::empty());
        assert(ps[0] == subhunk_spec(h, 0, auto_to(rs, n, 0)));
    }
}

/// Each automatic sub-hunk's header counts are those of its own body, and each sub-hunk
/// starts, on both sides, where the one before it ends: their old-file ranges follow one
/// another without overlap.
pub proof fn lemma_auto_split_adjacent(h: HunkV)
    requires
        h.fits(),
        run_starts(h.lines).len() > 1,
    ensures
        forall|i: int|
            0 <= i < auto_split_spec(h).len() ==> {
                &&& (#[trigger] auto_split_spec(h)[i]).old_lines == old_side(
                    auto_split_spec(h)[i].lines,
                )
                &&& auto_split_spec(h)[i].new_lines == new_side(auto_split_spec(h)[i].lines)
            },
        forall|i: int|
            0 <= i < auto_split_spec(h).len() - 1 ==> {
                &&& (#[trigger] auto_split_spec(h)[i + 1]).old_start == auto_split_spec(h)[i].old_start
                    + auto_split_spec(h)[i].old_lines
                &&& auto_split_spec(h)[i + 1].new_start == auto_split_spec(h)[i].new_start
                    + auto_split_spec(h)[i].new_lines
            },
{
    let rs = run_starts(h.lines);
    let n = h.lines.len() as int;
    let ps = auto_split_spec(h);
    lemma_auto_ranges(h);
    assert forall|i: int| 0 <= i < ps.len() implies {
        &&& (#[trigger] ps[i]).old_lines == old_side(ps[i].lines)
        &&& ps[i].new_lines == new_side(ps[i].lines)
    } by {
        assert(0 <= auto_from(rs, i) <= auto_to(rs, n, i) <= n);
        lemma_slice_fits(h, auto_from(rs, i), auto_to(rs, n, i));
    }
    assert forall|i: int| 0 <= i < ps.len() - 1 implies {
        &&& (#[trigger] ps[i + 1]).old_start == ps[i].old_start + ps[i].old_lines
        &&& ps[i + 1].new_start == ps[i].new_start + ps[i].new_lines
    } by {
        let a = auto_from(rs, i);
        let b = auto_to(rs, n, i);
        assert(0 <= a <= b <= n);
        assert(auto_from(rs, i + 1) == b);
        assert(0 <= b <= auto_to(rs, n, i + 1) <= n);
        lemma_slice_fits(h, a, b);
        lemma_slice_fits(h, b, auto_to(rs, n, i + 1));
        lemma_count_split3(h.lines, a, b, LineKind::Context);
        lemma_count_split3(h.lines, a, b, LineKind::Add);
        lemma_count_split3(h.lines, a, b, LineKind::Del);
    }
}

proof fn lemma_project_old_side(lines: Seq<LineV>, sel: Seq<usize>)
    ensures
        old_side(project(lines, sel)) == old_side(lines),
    decreases lines.len(),
{
    if lines.len() > 0 {
        let d = lines.drop_last();
        lemma_project_old_side(d, sel);
        let ci = crate::model::changed_of(lines).len() as int;
        lemma_project_line_sides(lines.last(), ci, sel);
        lemma_sides_concat(project(d, sel), project_line(lines.last(), ci, sel));
        lemma_sides_concat(d, seq![lines.last()]);
        assert(d + seq![lines.last()] =~= lines);
    }
}

proof fn lemma_fixup_old_side(lines: Seq<LineV>, k: int)
    requires
        0 <= k <= lines.len(),
    ensures
        old_side(fixup_upto(lines, k)) == old_side(lines.subrange(0, k)),
    decreases k,
{
    if k > 0 {
        lemma_fixup_old_side(lines, k - 1);
        lemma_fix_line_sides(lines[k - 1], k == lines.len());
        lemma_sides_concat(fixup_upto(lines, k - 1), fix_line(lines[k - 1], k == lines.len()));
        lemma_sides_concat(lines.subrange(0, k - 1), seq![lines[k - 1]]);
        assert(lines.subrange(0, k - 1) + seq![lines[k - 1]] =~= lines.subrange(0, k));
    } else {
        assert(lines.subrange(0, 0) =~= Seq::<LineV>::empty());
    }
}

/// Slicing keeps the hunk's old-side footprint: the piece starts where the hunk starts on the
/// old side, and its body covers as many old-side lines as the hunk's body, whatever is
/// selected — every context line and deletion stays on the old side, as a deletion or as
/// context.
pub proof fn lemma_slice_keeps_old_side(h: HunkV, sel: Seq<usize>)
    ensures
        slice_spec(h, sel).old_start == h.old_start,
        old_side(slice_body(h, sel)) == old_side(h.lines),
{
    let p = project(h.lines, sel);
    lemma_project_old_side(h.lines, sel);
    lemma_fixup_old_side(p, p.len() as int);
    assert(p.subrange(0, p.len() as int) =~= p);
}

/// No context line but the last of `lines` carries a no-newline marker.
pub open spec fn no_stray_marker(lines: Seq<LineV>) -> bool {
    forall|i: int|
        0 <= i < lines.len() - 1 && (#[trigger] lines[i]).kind == LineKind::Context ==> lines[i].no_newline
            is None
}

proof fn lemma_project_all(lines: Seq<LineV>, sel: Seq<usize>)
    requires
        forall|c: int| 1 <= c <= crate::model::changed_of(lines).len() ==> sel_has(sel, c),
    ensures
        project(lines, sel) == lines,
    decreases lines.len(),
{
    if lines.len() > 0 {
        let d = lines.drop_last();
        let ci = crate::model::changed_of(lines).len() as int;
        assert(crate::model::changed_of(d).len() <= ci);
        lemma_project_all(d, sel);
        if lines.last().kind != LineKind::Context {
            assert(ci == crate::model::changed_of(d).len() + 1);
            assert(sel_has(sel, ci));
        }
        assert(project_line(lines.last(), ci, sel) =~= seq![lines.last()]);
        assert(d + seq![lines.last()] =~= lines);
    }
}

proof fn lemma_fixup_identity(lines: Seq<LineV>, k: int)
    requires
        0 <= k <= lines.len(),
        no_stray_marker(lines),
    ensures
        fixup_upto(lines, k) == lines.subrange(0, k),
    decreases k,
{
    if k > 0 {
        lemma_fixup_identity(lines, k - 1);
        if k < lines.len() && lines[k - 1].kind == LineKind::Context {
            assert(lines[k - 1].no_newline is None);
        }
        assert(fix_line(lines[k - 1], k == lines.len()) =~= seq![lines[k - 1]]);
        assert(lines.subrange(0, k - 1) + seq![lines[k - 1]] =~= lines.subrange(0, k));
    } else {
        assert(lines.subrange(0, 0) =~= Seq::<LineV>::empty());
    }
}

/// Selecting every changed line of a hunk reproduces its body, for a body in which no context
/// line but the last carries a no-newline marker (as in every body a diff can hold).
pub proof fn lemma_slice_full_selection(h: HunkV, sel: Seq<usize>)
    requires
        forall|c: int| 1 <= c <= crate::model::changed_of(h.lines).len() ==> sel_has(sel, c),
        no_stray_marker(h.lines),
    ensures
        slice_body(h, sel) == h.lines,
{
    lemma_project_all(h.lines, sel);
    lemma_fixup_identity(h.lines, h.lines.len() as int);
    assert(h.lines.subrange(0, h.lines.len() as int) =~= h.lines);
}

/// Where a trailer line recorded after `pos` hunks stands once hunk `hi` has become `pieces`
/// hunks.
pub open spec fn shift_pos(pos: int, hi: int, pieces: int) -> int {
    if pos > hi {
        pos + pieces - 1
    } else {
        pos
    }
}

/// A split of `h` at `cuts` still emits the hunk's last body line.
pub open spec fn keeps_last_line(h: HunkV, cuts: Seq<u32>) -> bool {
    let c = cut_indices(h, cuts, h.lines.len() as int);
    c.len() == 0 || c.last() == h.lines.len() - 1 || keeps_piece(h, c, c.len() as int)
}

/// File entry `f` with its hunk `hi` replaced by `pieces`, its trailer lines kept in place.
pub open spec fn split_file_spec(f: FileV, hi: int, pieces: Seq<HunkV>) -> FileV {
    let hs = f.content->Text_0;
    FileV {
        headers: f.headers,
        trailer: f.trailer.map_values(
            |e: (usize, Seq<u8>)| (shift_pos(e.0 as int, hi, pieces.len() as int) as usize, e.1),
        ),
        old_path: f.old_path,
        new_path: f.new_path,
        content: ContentV::Text(hs.subrange(0, hi) + pieces + hs.subrange(hi + 1, hs.len() as int)),
    }
}

/// The diff still ends on the input's last line after hunk `hi` of file `fi` was split at
/// `cuts`: that is so unless the hunk ends the diff and its last body line was dropped.
pub open spec fn split_ends_on_last_line(p: PatchV, fi: int, hi: int, cuts: Seq<u32>) -> bool {
    let f = p.files[fi];
    let hs = f.content->Text_0;
    !(fi == p.files.len() - 1 && hi == hs.len() - 1 && !(exists|k: int|
        0 <= k < f.trailer.len() && f.trailer[k].0 == hs.len()) && !keeps_last_line(hs[hi], cuts))
}

/// The diff `p` after hunk `hi` of file `fi` was split at `cuts`.
pub open spec fn split_patch_spec(p: PatchV, fi: int, hi: int, cuts: Seq<u32>) -> PatchV {
    let f = p.files[fi];
    let h = f.content->Text_0[hi];
    PatchV {
        preamble: p.preamble,
        files: p.files.update(fi, split_file_spec(f, hi, split_at_spec(h, cuts))),
        no_trailing_newline: p.no_trailing_newline && split_ends_on_last_line(p, fi, hi, cuts),
    }
}

proof fn lemma_pieces_len(h: HunkV, c: Seq<int>, m: int)
    requires
        m >= 0,
    ensures
        pieces_upto(h, c, m).len() <= m,
    decreases m,
{
    if m > 0 {
        lemma_pieces_len(h, c, m - 1);
    }
}

proof fn lemma_split_len(h: HunkV, cuts: Seq<u32>)
    ensures
        split_at_spec(h, cuts).len() <= h.lines.len() + 1,
{
    lemma_cut_len(h, cuts, h.lines.len() as int);
    let c = cut_indices(h, cuts, h.lines.len() as int);
    lemma_pieces_len(h, c, c.len() + 1int);
}

proof fn lemma_cut_len(h: HunkV, cuts: Seq<u32>, k: int)
    requires
        k >= 0,
    ensures
        cut_indices(h, cuts, k).len() <= k,
    decreases k,
{
    if k > 0 {
        lemma_cut_len(h, cuts, k - 1);
    }
}

/// The body indices of the context lines of `h` that `cuts` names.
fn cut_indices_exec(h: &Hunk, cuts: &[u32]) -> (r: Vec<usize>)
    requires
        h@.fits(),
    ensures
        r@.map_values(|x: usize| x as int) == cut_indices(h@, cuts@, h@.lines.len() as int),
{
    let ghost hv = h@;
    let ghost v = h@.lines;
    let n = h.lines.len();
    let mut new_no_now: u32 = h.new_start;
    let mut cut_at: Vec<usize> = Vec::new();
    let mut i: usize = 0;
    while i < n
        invariant
            hv == h@,
            v == hv.lines,
            v == body_view(h.lines@),
            n == v.len(),
            hv.fits(),
            i <= n,
            new_no_now == new_no(hv, i as int),
            cut_at@.map_values(|x: usize| x as int) == cut_indices(hv, cuts@, i as int),
        decreases n - i,
    {
        proof {
            assert(v.subrange(0, i + 1).drop_last() =~= v.subrange(0, i as int));
            assert(v.subrange(0, i + 1).last() == v[i as int]);
            lemma_count_prefix(v, i + 1, LineKind::Context);
            lemma_count_prefix(v, i + 1, LineKind::Add);
        }
        let kind = h.lines[i].kind;
        if kind != LineKind::Del {
            let here = new_no_now;
            new_no_now = new_no_now + 1;
            if kind == LineKind::Context && contains_u32(cuts, here) {
                cut_at.push(i);
                proof {
                    assert(cut_at@.map_values(|x: usize| x as int) =~= cut_indices(
                        hv,
                        cuts@,
                        i + 1,
                    ));
                }
            }
        }
        i = i + 1;
    }
    cut_at
}

/// Whether a split of `h` at `cuts` still emits the hunk's last body line.
fn last_line_survives(h: &Hunk, cuts: &[u32]) -> (r: bool)
    requires
        h@.fits(),
    ensures
        r == keeps_last_line(h@, cuts@),
{
    let c = cut_indices_exec(h, cuts);
    let ghost ci = c@.map_values(|x: usize| x as int);
    let n = h.lines.len();
    if c.len() == 0 {
        return true;
    }
    proof {
        lemma_cut_indices(h@, cuts@, n as int);
        assert(ci[c@.len() - 1] == c@[c@.len() - 1] as int);
    }
    let last = c[c.len() - 1];
    if last + 1 == n {
        return true;
    }
    proof {
        assert(ci.last() == last);
        assert(cut_from(ci, ci.len() as int) == last + 1);
        assert(cut_to(ci, n as int, ci.len() as int) == n);
        lemma_slice_fits(h@, last + 1, n as int);
        assert(body_view(h.lines@) == h@.lines);
    }
    let (_, add, del) = crate::model::count_kinds_in(h.lines.as_slice(), last + 1, n);
    add > 0 || del > 0
}

fn blank_file() -> (r: FileDiff)
    ensures
        r@ == (FileV {
            headers: Seq::empty(),
            trailer: Seq::empty(),
            old_path: None,
            new_path: None,
            content: ContentV::Binary(Seq::empty()),
        }),
{
    let r = FileDiff {
        headers: Vec::new(),
        trailer: Vec::new(),
        old_path: None,
        new_path: None,
        content: FileContent::Binary(Vec::new()),
    };
    proof {
        assert(r@.headers =~= Seq::<Seq<u8>>::empty());
        assert(r@.trailer =~= Seq::<(usize, Seq<u8>)>::empty());
        assert(r@.content->Binary_0 =~= Seq::<Seq<u8>>::empty());
    }
    r
}

/// Split hunk `hi` of the text file entry `fi` of `patch` at the new-file lines `at`, in place:
/// the hunk is replaced by its pieces, the lines recorded after it keep their place behind the
/// pieces, and the diff keeps ending without a newline only where it still ends on the input's
/// last line. On a refused split the patch is left as it was.
pub fn split_patch_hunk(patch: &mut Patch, fi: usize, hi: usize, at: &[u32]) -> (r: Result<(), SplitError>)
    requires
        fi < old(patch)@.files.len(),
        old(patch)@.files[fi as int].content is Text,
        hi < old(patch)@.files[fi as int].content->Text_0.len(),
        old(patch)@.files[fi as int].content->Text_0[hi as int].fits(),
        old(patch)@.files[fi as int].content->Text_0.len() + old(patch)@.files[fi as int].content->Text_0[hi as int].lines.len() < usize::MAX,
        forall|k: int|
            0 <= k < old(patch)@.files[fi as int].trailer.len() ==> (#[trigger] old(patch)@.files[fi as int].trailer[k]).0
                <= old(patch)@.files[fi as int].content->Text_0.len(),
    ensures
        match r {
            Ok(()) => split_at_valid(old(patch)@.files[fi as int].content->Text_0[hi as int], at@)
                && final(patch)@ == split_patch_spec(old(patch)@, fi as int, hi as int, at@),
            Err(e) => split_at_error(old(patch)@.files[fi as int].content->Text_0[hi as int], at@, e)
                && final(patch)@ == old(patch)@,
        },
{
    let ghost pv = patch@;
    let ghost fv = pv.files[fi as int];
    let nfiles = patch.files.len();
    let mut f = blank_file();
    patch.files.set_and_swap(fi, &mut f);
    proof {
        assert(f@ == fv);
    }
    let mut hunks: Vec<Hunk> = match f.content {
        FileContent::Text(h) => h,
        FileContent::Binary(b) => Vec::new(),
    };
    let ghost hsv = fv.content->Text_0;
    proof {
        assert(hunks_view(hunks@) == hsv);
        assert(hunks@[hi as int]@ == hsv[hi as int]);
    }
    let result = split_hunk_at(&hunks[hi], at);
    match result {
        Err(e) => {
            f.content = FileContent::Text(hunks);
            proof {
                assert(f@ == fv);
            }
            patch.files.set_and_swap(fi, &mut f);
            proof {
                assert(files_view(patch.files@) =~= pv.files);
            }
            Err(e)
        },
        Ok(pieces) => {
            let ghost ps = hunks_of(pieces@);
            let survives = last_line_survives(&hunks[hi], at);
            let nh = hunks.len();
            let np = pieces.len();
            proof {
                lemma_split_len(hsv[hi as int], at@);
            }
            // The new hunk list: the hunks before, the pieces, the hunks after.
            let mut out: Vec<Hunk> = Vec::new();
            let mut k: usize = 0;
            while k < hi
                invariant
                    hunks_view(hunks@) == hsv,
                    hi < hsv.len(),
                    k <= hi,
                    hunks_view(out@) == hsv.subrange(0, k as int),
                decreases hi - k,
            {
                proof {
                    assert(hunks@[k as int]@ == hsv[k as int]);
                }
                let c = hunks[k].clone_hunk();
                proof {
                    crate::model::lemma_hunks_view_push(out@, c);
                }
                out.push(c);
                proof {
                    assert(hunks_view(out@) =~= hsv.subrange(0, k + 1));
                }
                k = k + 1;
            }
            let mut pieces = pieces;
            let ghost before = hunks_view(out@);
            out.append(&mut pieces);
            proof {
                assert(hunks_view(out@) =~= hsv.subrange(0, hi as int) + ps);
            }
            let mut k: usize = hi + 1;
            while k < nh
                invariant
                    hunks_view(hunks@) == hsv,
                    nh == hsv.len(),
                    hi < k <= nh,
                    hunks_view(out@) == hsv.subrange(0, hi as int) + ps + hsv.subrange(hi + 1, k as int),
                decreases nh - k,
            {
                proof {
                    assert(hunks@[k as int]@ == hsv[k as int]);
                }
                let c = hunks[k].clone_hunk();
                proof {
                    crate::model::lemma_hunks_view_push(out@, c);
                }
                out.push(c);
                proof {
                    assert(hunks_view(out@) =~= hsv.subrange(0, hi as int) + ps + hsv.subrange(
                        hi + 1,
                        k + 1,
                    ));
                }
                k = k + 1;
            }
            // Trailer lines after the split hunk move behind its pieces.
            let ghost tv = fv.trailer;
            let mut tail_after_last = false;
            let mut trailer: Vec<(usize, Vec<u8>)> = Vec::new();
            let mut t: usize = 0;
            while t < f.trailer.len()
                invariant
                    tv == fv.trailer,
                    trailer_view(f.trailer@) == tv,
                    nh == hsv.len(),
                    hi < nh,
                    np == ps.len(),
                    np <= hsv[hi as int].lines.len() + 1,
                    nh + hsv[hi as int].lines.len() < usize::MAX,
                    forall|j: int| 0 <= j < tv.len() ==> (#[trigger] tv[j]).0 <= nh,
                    t <= tv.len(),
                    trailer@.len() == t,
                    forall|j: int|
                        0 <= j < t ==> (#[trigger] trailer@[j]).0 == shift_pos(
                            tv[j].0 as int,
                            hi as int,
                            np as int,
                        ) && trailer@[j].1@ == tv[j].1,
                    tail_after_last == exists|j: int| 0 <= j < t && tv[j].0 == nh,
                decreases tv.len() - t,
            {
                let pos = f.trailer[t].0;
                proof {
                    assert(tv[t as int].0 == pos);
                }
                if pos == nh {
                    tail_after_last = true;
                }
                let new_pos = if pos > hi {
                    (pos - 1) + np
                } else {
                    pos
                };
                trailer.push((new_pos, crate::model::clone_bytes(&f.trailer[t].1)));
                t = t + 1;
            }
            proof {
                assert(trailer_view(trailer@) =~= tv.map_values(
                    |e: (usize, Seq<u8>)| (shift_pos(e.0 as int, hi as int, np as int) as usize, e.1),
                ));
            }
            f.content = FileContent::Text(out);
            f.trailer = trailer;
            proof {
                assert(f@ == split_file_spec(fv, hi as int, ps));
            }
            patch.files.set_and_swap(fi, &mut f);
            let ends_here = !(fi + 1 == nfiles && hi + 1 == nh && !tail_after_last && !survives);
            patch.no_trailing_newline = patch.no_trailing_newline && ends_here;
            proof {
                assert(files_view(patch.files@) =~= pv.files.update(
                    fi as int,
                    split_file_spec(fv, hi as int, ps),
                ));
            }
            Ok(())
        },
    }
}

/// Split points are all the context lines asked for: a body index below `k` is among the cut
/// indices exactly when it holds a context line whose new-file number is one of the cuts, so
/// every such cut ends a piece, the second and later ones as much as the first.
pub proof fn lemma_every_requested_cut_ends_a_piece(h: HunkV, cuts: Seq<u32>, k: int)
    requires
        0 <= k <= h.lines.len(),
    ensures
        forall|i: int|
            0 <= i < k ==> ((h.lines[i].kind == LineKind::Context && in_cuts(cuts, new_no(h, i)))
                <==> #[trigger] cut_indices(h, cuts, k).contains(i)),
    decreases k,
{
    if k > 0 {
        lemma_every_requested_cut_ends_a_piece(h, cuts, k - 1);
        let prev = cut_indices(h, cuts, k - 1);
        let cur = cut_indices(h, cuts, k);
        lemma_cut_indices(h, cuts, k - 1);
        assert forall|i: int| 0 <= i < k implies ((h.lines[i].kind == LineKind::Context && in_cuts(
            cuts,
            new_no(h, i),
        )) <==> #[trigger] cur.contains(i)) by {
            if h.lines[k - 1].kind == LineKind::Context && in_cuts(cuts, new_no(h, k - 1)) {
                assert(cur == prev.push(k - 1));
                if i < k - 1 {
                    if prev.contains(i) {
                        let j = choose|j: int| 0 <= j < prev.len() && prev[j] == i;
                        assert(cur[j] == i);
                    }
                    if cur.contains(i) {
                        let j = choose|j: int| 0 <= j < cur.len() && cur[j] == i;
                        if j < prev.len() {
                            assert(cur[j] == prev[j]);
                        }
                    }
                } else {
                    assert(cur[prev.len() as int] == k - 1);
                }
            } else {
                assert(cur == prev);
                if i == k - 1 && cur.contains(i) {
                    let j = choose|j: int| 0 <= j < cur.len() && cur[j] == i;
                    assert(prev[j] < k - 1);
                }
            }
        }
    }
}

} // verus!
