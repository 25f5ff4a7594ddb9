//! What applying hunks to a file does: splitting a hunk into its sub-hunks changes nothing of
//! that, any choice of sub-hunks, whole or cut down by `@L`, applies wherever the diff does,
//! and so does a diff whose hunk `split` cut into pieces.
//!
//! The model is strict: a hunk applies only where its header places it, and only if the file
//! holds exactly its old-side lines there. Hunks apply in order, each past the one before it,
//! in one pass over the file, as one `git apply` of a combined diff does.

use crate::model::{count_of, ContentV, FileV, HunkV, LineKind, LineV, PatchV};
use crate::renumber::{lemma_renumber_moves_only_new_starts, renumber_spec};
use crate::reselect::{
    every_pick, lemma_no_slices_no_conflict, lemma_pick_every, lemma_select_all_shape, select_all,
};
use crate::select::{
    emit_file_spec, file_subs_spec, pick_hunks, resolve_path_spec, select_spec, sub_count, subs_upto,
    PicksV,
};
use crate::split::{
    auto_from, auto_split_spec, auto_to, concat_bodies, lemma_auto_split_adjacent,
    cut_from, cut_indices, cut_to, fix_line, fixup_upto, keeps_piece, lemma_auto_split_covers,
    lemma_run_starts, old_off, old_side, pieces_upto, project, project_line, run_starts,
    slice_spec, split_at_spec, splits_fit, starts_run, subhunk_spec,
};
use vstd::prelude::*;

verus! {

/// The file line a body line stands for: its text, and whether a newline ends it.
pub open spec fn file_line(l: LineV) -> (Seq<u8>, bool) {
    (l.text, l.no_newline is None)
}

/// The lines a body expects to find in the file: its context lines and deletions, in order.
pub open spec fn old_image(ls: Seq<LineV>) -> Seq<(Seq<u8>, bool)>
    decreases ls.len(),
{
    if ls.len() == 0 {
        Seq::empty()
    } else if ls.last().kind == LineKind::Add {
        old_image(ls.drop_last())
    } else {
        old_image(ls.drop_last()).push(file_line(ls.last()))
    }
}

/// The lines a body leaves in the file: its context lines and additions, in order.
pub open spec fn new_image(ls: Seq<LineV>) -> Seq<(Seq<u8>, bool)>
    decreases ls.len(),
{
    if ls.len() == 0 {
        Seq::empty()
    } else if ls.last().kind == LineKind::Del {
        new_image(ls.drop_last())
    } else {
        new_image(ls.drop_last()).push(file_line(ls.last()))
    }
}

/// Where a hunk's old-side lines begin in the file, counted from 0. A hunk with no old-side
/// line names the line after which its lines go.
pub open spec fn place(h: HunkV) -> int {
    if h.old_lines == 0 {
        h.old_start as int
    } else {
        h.old_start - 1
    }
}

/// The hunks `hs` applied in order to `file` from position `cur` on: each must find its old
/// image at its place, no earlier than where the one before it ended; the lines between them
/// are kept. `None` when one does not apply.
pub open spec fn apply_from(file: Seq<(Seq<u8>, bool)>, hs: Seq<HunkV>, cur: int) -> Option<
    Seq<(Seq<u8>, bool)>,
>
    decreases hs.len(),
{
    if hs.len() == 0 {
        if 0 <= cur <= file.len() {
            Some(file.subrange(cur, file.len() as int))
        } else {
            None
        }
    } else {
        let h = hs[0];
        let at = place(h);
        let end = at + old_image(h.lines).len();
        if 0 <= cur <= at && end <= file.len() && file.subrange(at, end) == old_image(h.lines) {
            match apply_from(file, hs.drop_first(), end) {
                Some(rest) => Some(file.subrange(cur, at) + new_image(h.lines) + rest),
                None => None,
            }
        } else {
            None
        }
    }
}

/// The file that applying `hs` to `file` makes, or `None` when a hunk does not apply.
pub open spec fn apply_hunks(file: Seq<(Seq<u8>, bool)>, hs: Seq<HunkV>) -> Option<
    Seq<(Seq<u8>, bool)>,
> {
    apply_from(file, hs, 0)
}

/// What applying a stretch of body `body` at position `at`, then `rest`, makes of `file` from
/// position `cur` on.
pub open spec fn apply_block(
    file: Seq<(Seq<u8>, bool)>,
    at: int,
    body: Seq<LineV>,
    rest: Seq<HunkV>,
    cur: int,
) -> Option<Seq<(Seq<u8>, bool)>> {
    let end = at + old_image(body).len();
    if 0 <= cur <= at && end <= file.len() && file.subrange(at, end) == old_image(body) {
        match apply_from(file, rest, end) {
            Some(r) => Some(file.subrange(cur, at) + new_image(body) + r),
            None => None,
        }
    } else {
        None
    }
}

proof fn lemma_images_concat(a: Seq<LineV>, b: Seq<LineV>)
    ensures
        old_image(a + b) == old_image(a) + old_image(b),
        new_image(a + b) == new_image(a) + new_image(b),
    decreases b.len(),
{
    if b.len() == 0 {
        assert(a + b =~= a);
        assert(old_image(a) + old_image(b) =~= old_image(a));
        assert(new_image(a) + new_image(b) =~= new_image(a));
    } else {
        lemma_images_concat(a, b.drop_last());
        assert((a + b).drop_last() =~= a + b.drop_last());
        assert((a + b).last() == b.last());
        assert(old_image(a) + old_image(b) =~= if b.last().kind == LineKind::Add {
            old_image(a) + old_image(b.drop_last())
        } else {
            (old_image(a) + old_image(b.drop_last())).push(file_line(b.last()))
        });
        assert(new_image(a) + new_image(b) =~= if b.last().kind == LineKind::Del {
            new_image(a) + new_image(b.drop_last())
        } else {
            (new_image(a) + new_image(b.drop_last())).push(file_line(b.last()))
        });
    }
}

proof fn lemma_old_image_len(ls: Seq<LineV>)
    ensures
        old_image(ls).len() == old_side(ls),
    decreases ls.len(),
{
    if ls.len() > 0 {
        lemma_old_image_len(ls.drop_last());
    }
}

proof fn lemma_concat_front(x: HunkV, s: Seq<HunkV>)
    ensures
        concat_bodies(seq![x] + s) == x.lines + concat_bodies(s),
    decreases s.len(),
{
    if s.len() == 0 {
        assert(seq![x] + s =~= seq![x]);
        assert(seq![x].drop_last() =~= Seq::<HunkV>::empty());
        assert(concat_bodies(Seq::<HunkV>::empty()) == Seq::<LineV>::empty());
        assert(concat_bodies(s) == Seq::<LineV>::empty());
        assert(seq![x].last() == x);
        assert(concat_bodies(seq![x]) == concat_bodies(seq![x].drop_last()) + x.lines);
        assert(x.lines + concat_bodies(s) =~= x.lines);
        assert(Seq::<LineV>::empty() + x.lines =~= x.lines);
    } else {
        lemma_concat_front(x, s.drop_last());
        assert((seq![x] + s).drop_last() =~= seq![x] + s.drop_last());
        assert((seq![x] + s).last() == s.last());
        assert(x.lines + concat_bodies(s) =~= (x.lines + concat_bodies(s.drop_last())) + s.last().lines);
    }
}

/// Hunks that follow one another on the old side without a gap, the first at `at`.
pub open spec fn contiguous(qs: Seq<HunkV>, at: int) -> bool {
    &&& qs.len() > 0
    &&& place(qs[0]) == at
    &&& forall|j: int|
        0 <= j < qs.len() - 1 ==> place(#[trigger] qs[j + 1]) == place(qs[j]) + old_image(
            qs[j].lines,
        ).len()
}

/// A stretch of old-side lines matches where it stands exactly when its two halves do.
#[verifier::spinoff_prover]
proof fn lemma_match_split(
    file: Seq<(Seq<u8>, bool)>,
    at: int,
    x: Seq<(Seq<u8>, bool)>,
    y: Seq<(Seq<u8>, bool)>,
)
    requires
        0 <= at,
    ensures
        (at + (x + y).len() <= file.len() && file.subrange(at, at + (x + y).len()) == x + y) == (
        at + x.len() <= file.len() && file.subrange(at, at + x.len()) == x && at + x.len() + y.len()
            <= file.len() && file.subrange(at + x.len(), at + x.len() + y.len()) == y),
{
    let m = at + x.len();
    let e = m + y.len();
    assert((x + y).len() == x.len() + y.len());
    if e <= file.len() {
        if file.subrange(at, e) == x + y {
            assert(file.subrange(at, m) =~= (x + y).subrange(0, x.len() as int));
            assert((x + y).subrange(0, x.len() as int) =~= x);
            assert(file.subrange(m, e) =~= (x + y).subrange(x.len() as int, (x + y).len() as int));
            assert((x + y).subrange(x.len() as int, (x + y).len() as int) =~= y);
        }
        if file.subrange(at, m) == x && file.subrange(m, e) == y {
            assert(file.subrange(at, e) =~= file.subrange(at, m) + file.subrange(m, e));
        }
    }
}

/// A single hunk applies as its own body.
proof fn lemma_one_block(file: Seq<(Seq<u8>, bool)>, q: HunkV, rest: Seq<HunkV>, cur: int)
    ensures
        apply_from(file, seq![q] + rest, cur) == apply_block(file, place(q), q.lines, rest, cur),
{
    let all = seq![q] + rest;
    assert(all[0] == q);
    assert(all.drop_first() =~= rest);
}

/// Applying a hunk, then a stretch right after it, is applying the two bodies as one stretch.
#[verifier::rlimit(40)]
#[verifier::spinoff_prover]
proof fn lemma_two_blocks(
    file: Seq<(Seq<u8>, bool)>,
    at: int,
    b0: Seq<LineV>,
    b1: Seq<LineV>,
    rest: Seq<HunkV>,
    cur: int,
    mid: Option<Seq<(Seq<u8>, bool)>>,
)
    requires
        mid == apply_block(file, at + old_image(b0).len(), b1, rest, at + old_image(b0).len()),
    ensures
        ({
            let end0 = at + old_image(b0).len();
            if 0 <= cur <= at && end0 <= file.len() && file.subrange(at, end0) == old_image(b0) {
                match mid {
                    Some(r) => Some(file.subrange(cur, at) + new_image(b0) + r),
                    None => None,
                }
            } else {
                None
            }
        }) == apply_block(file, at, b0 + b1, rest, cur),
{
    lemma_images_concat(b0, b1);
    let o0 = old_image(b0);
    let ot = old_image(b1);
    let n0 = new_image(b0);
    let nt = new_image(b1);
    let end0 = at + o0.len();
    let end = end0 + ot.len();
    assert(old_image(b0 + b1) == o0 + ot);
    assert(new_image(b0 + b1) == n0 + nt);
    assert((o0 + ot).len() == o0.len() + ot.len());
    if 0 <= cur <= at {
        lemma_match_split(file, at, o0, ot);
        if end0 <= file.len() && file.subrange(at, end0) == o0 && end <= file.len()
            && file.subrange(end0, end) == ot {
            assert(file.subrange(end0, end0) =~= Seq::<(Seq<u8>, bool)>::empty());
            match apply_from(file, rest, end) {
                Some(r) => {
                    assert(file.subrange(end0, end0) + nt + r =~= nt + r);
                    assert(file.subrange(cur, at) + n0 + (nt + r) =~= file.subrange(cur, at) + (n0
                        + nt) + r);
                },
                None => {},
            }
        }
    }
}

proof fn lemma_contiguous_tail(qs: Seq<HunkV>, at: int)
    requires
        contiguous(qs, at),
        qs.len() > 1,
    ensures
        contiguous(qs.drop_first(), at + old_image(qs[0].lines).len()),
{
    let tail = qs.drop_first();
    assert(place(tail[0]) == place(qs[1]));
    assert forall|j: int| 0 <= j < tail.len() - 1 implies place(#[trigger] tail[j + 1]) == place(
        tail[j],
    ) + old_image(tail[j].lines).len() by {
        assert(tail[j + 1] == qs[j + 2]);
        assert(tail[j] == qs[j + 1]);
    }
}

/// Applying hunks that follow one another without a gap is applying their bodies, one after the
/// other, as one stretch.
#[verifier::spinoff_prover]
proof fn lemma_contiguous_block(
    file: Seq<(Seq<u8>, bool)>,
    qs: Seq<HunkV>,
    at: int,
    rest: Seq<HunkV>,
    cur: int,
)
    requires
        contiguous(qs, at),
    ensures
        apply_from(file, qs + rest, cur) == apply_block(file, at, concat_bodies(qs), rest, cur),
    decreases qs.len(),
{
    let q = qs[0];
    let tail = qs.drop_first();
    assert(qs =~= seq![q] + tail);
    lemma_concat_front(q, tail);
    if tail.len() == 0 {
        assert(qs + rest =~= seq![q] + rest);
        lemma_one_block(file, q, rest, cur);
        assert(concat_bodies(tail) == Seq::<LineV>::empty());
        assert(q.lines + concat_bodies(tail) =~= q.lines);
    } else {
        let end0 = at + old_image(q.lines).len();
        lemma_contiguous_tail(qs, at);
        lemma_contiguous_block(file, tail, end0, rest, end0);
        let all = qs + rest;
        assert(all[0] == q);
        assert(all.drop_first() =~= tail + rest);
        lemma_two_blocks(
            file,
            at,
            q.lines,
            concat_bodies(tail),
            rest,
            cur,
            apply_from(file, tail + rest, end0),
        );
    }
}

/// The sub-hunks of the hunks `hs`: those of the first, then those of the others.
proof fn lemma_subs_front(hs: Seq<HunkV>, n: int)
    requires
        1 <= n <= hs.len(),
    ensures
        subs_upto(hs, n) == auto_split_spec(hs[0]) + subs_upto(hs.drop_first(), n - 1),
    decreases n,
{
    if n == 1 {
        assert(subs_upto(hs, 0) == Seq::<HunkV>::empty());
        assert(subs_upto(hs.drop_first(), 0) == Seq::<HunkV>::empty());
        assert(subs_upto(hs, 1) =~= auto_split_spec(hs[0]));
        assert(auto_split_spec(hs[0]) + Seq::<HunkV>::empty() =~= auto_split_spec(hs[0]));
    } else {
        lemma_subs_front(hs, n - 1);
        assert(hs.drop_first()[n - 2] == hs[n - 1]);
        assert(subs_upto(hs, n) =~= auto_split_spec(hs[0]) + subs_upto(hs.drop_first(), n - 1));
    }
}

proof fn lemma_count_has(s: Seq<LineV>, j: int, k: LineKind)
    requires
        0 <= j < s.len(),
        s[j].kind == k,
    ensures
        count_of(s, k) >= 1,
    decreases s.len(),
{
    if j < s.len() - 1 {
        lemma_count_has(s.drop_last(), j, k);
    }
}

/// A hunk's header agrees with its body on the old side, and it can be auto-split; where it
/// splits, its last piece covers at least one old-side line.
pub open spec fn splits_in_place(h: HunkV) -> bool {
    &&& h.old_lines == old_side(h.lines)
    &&& splits_fit(h)
    &&& (run_starts(h.lines).len() > 1 ==> auto_split_spec(h).last().old_lines > 0)
}

/// Every automatic piece but the last ends on the context line before the next change run, so
/// it covers at least one old-side line.
proof fn lemma_inner_piece_has_old(h: HunkV, i: int)
    requires
        run_starts(h.lines).len() > 1,
        0 <= i < run_starts(h.lines).len() - 1,
    ensures
        old_side(auto_split_spec(h)[i].lines) > 0,
        h.lines[run_starts(h.lines)[1] - 1].kind == LineKind::Context,
        0 < run_starts(h.lines)[1] <= h.lines.len(),
{
    let rs = run_starts(h.lines);
    let n = h.lines.len() as int;
    lemma_run_starts(h.lines);
    let from = auto_from(rs, i);
    let to = auto_to(rs, n, i);
    assert(to == rs[i + 1]);
    assert(rs[i] < rs[i + 1]);
    assert(rs[0] < rs[1]);
    assert(from <= rs[i]);
    assert(starts_run(h.lines, rs[i + 1]));
    assert(starts_run(h.lines, rs[1]));
    assert(h.lines[to - 1].kind == LineKind::Context);
    let s = h.lines.subrange(from, to);
    assert(s[to - 1 - from] == h.lines[to - 1]);
    lemma_count_has(s, to - 1 - from, LineKind::Context);
    assert(auto_split_spec(h)[i].lines == s);
}

/// The automatic pieces of `h` follow one another without a gap from where `h` is placed.
#[verifier::rlimit(40)]
#[verifier::spinoff_prover]
proof fn lemma_pieces_contiguous(h: HunkV)
    requires
        splits_in_place(h),
    ensures
        contiguous(auto_split_spec(h), place(h)),
        concat_bodies(auto_split_spec(h)) == h.lines,
{
    let rs = run_starts(h.lines);
    let ps = auto_split_spec(h);
    lemma_auto_split_covers(h);
    if rs.len() <= 1 {
        assert(ps =~= seq![h]);
    } else {
        lemma_auto_split_adjacent(h);
        assert forall|i: int| 0 <= i < ps.len() implies place(#[trigger] ps[i]) == ps[i].old_start
            - 1 by {
            if i < ps.len() - 1 {
                lemma_inner_piece_has_old(h, i);
            } else {
                assert(ps[i] == ps.last());
            }
        }
        assert(h.old_lines > 0) by {
            lemma_inner_piece_has_old(h, 0);
            lemma_count_has(h.lines, rs[1] - 1, LineKind::Context);
        }
        assert forall|j: int| 0 <= j < ps.len() - 1 implies place(#[trigger] ps[j + 1]) == place(
            ps[j],
        ) + old_image(ps[j].lines).len() by {
            lemma_old_image_len(ps[j].lines);
            assert(place(ps[j + 1]) == ps[j + 1].old_start - 1);
            assert(place(ps[j]) == ps[j].old_start - 1);
        }
    }
}

/// Applying the sub-hunks of `hs`, then `rest`, is applying `hs`, then `rest`.
#[verifier::spinoff_prover]
#[verifier::rlimit(40)]
proof fn lemma_subs_apply_from(
    file: Seq<(Seq<u8>, bool)>,
    hs: Seq<HunkV>,
    rest: Seq<HunkV>,
    cur: int,
)
    requires
        forall|j: int| 0 <= j < hs.len() ==> splits_in_place(#[trigger] hs[j]),
    ensures
        apply_from(file, subs_upto(hs, hs.len() as int) + rest, cur) == apply_from(
            file,
            hs + rest,
            cur,
        ),
    decreases hs.len(),
{
    if hs.len() == 0 {
        assert(subs_upto(hs, 0) + rest =~= rest);
        assert(hs + rest =~= rest);
    } else {
        let h = hs[0];
        let tl = hs.drop_first();
        lemma_subs_front(hs, hs.len() as int);
        let ps = auto_split_spec(h);
        let st = subs_upto(tl, tl.len() as int);
        assert(subs_upto(hs, hs.len() as int) + rest =~= ps + (st + rest));
        assert(hs + rest =~= seq![h] + (tl + rest));
        lemma_pieces_contiguous(h);
        lemma_contiguous_block(file, ps, place(h), st + rest, cur);
        assert(contiguous(seq![h], place(h)));
        lemma_contiguous_block(file, seq![h], place(h), tl + rest, cur);
        assert(concat_bodies(seq![h]) == h.lines) by {
            lemma_concat_front(h, Seq::<HunkV>::empty());
            assert(seq![h] + Seq::<HunkV>::empty() =~= seq![h]);
            assert(h.lines + concat_bodies(Seq::<HunkV>::empty()) =~= h.lines);
        }
        assert forall|j: int| 0 <= j < tl.len() implies splits_in_place(#[trigger] tl[j]) by {
            assert(tl[j] == hs[j + 1]);
        }
        let end = place(h) + old_image(h.lines).len();
        lemma_subs_apply_from(file, tl, rest, end);
    }
}

/// Auto-splitting changes nothing of what a file entry's hunks do: applying its sub-hunks, the
/// ones `list` numbers and selectors address, to any file gives the same result as applying
/// its hunks, and fails where that fails. Shown for hunks whose header agrees with their body
/// and whose last sub-hunk, where they split, keeps an old-side line.
pub proof fn lemma_sub_hunks_apply_like_hunks(file: Seq<(Seq<u8>, bool)>, f: FileV)
    requires
        f.content is Text,
        forall|j: int|
            0 <= j < f.content->Text_0.len() ==> splits_in_place(#[trigger] f.content->Text_0[j]),
    ensures
        apply_hunks(file, file_subs_spec(f)) == apply_hunks(file, f.content->Text_0),
{
    let hs = f.content->Text_0;
    lemma_subs_apply_from(file, hs, Seq::empty(), 0);
    assert(subs_upto(hs, hs.len() as int) + Seq::<HunkV>::empty() =~= subs_upto(
        hs,
        hs.len() as int,
    ));
    assert(hs + Seq::<HunkV>::empty() =~= hs);
}

/// Hunks that agree on their old side and body apply alike, whatever their new-side numbers.
proof fn lemma_apply_ignores_new_side(
    file: Seq<(Seq<u8>, bool)>,
    a: Seq<HunkV>,
    b: Seq<HunkV>,
    cur: int,
)
    requires
        a.len() == b.len(),
        forall|i: int|
            0 <= i < a.len() ==> (#[trigger] a[i]).old_start == b[i].old_start && a[i].old_lines
                == b[i].old_lines && a[i].lines == b[i].lines,
    ensures
        apply_from(file, a, cur) == apply_from(file, b, cur),
    decreases a.len(),
{
    if a.len() > 0 {
        assert(a[0].old_start == b[0].old_start && a[0].old_lines == b[0].old_lines);
        let end = place(a[0]) + old_image(a[0].lines).len();
        assert forall|i: int| 0 <= i < a.len() - 1 implies (#[trigger] a.drop_first()[i]).old_start
            == b.drop_first()[i].old_start && a.drop_first()[i].old_lines
            == b.drop_first()[i].old_lines && a.drop_first()[i].lines == b.drop_first()[i].lines by {
            assert(a.drop_first()[i] == a[i + 1]);
            assert(b.drop_first()[i] == b[i + 1]);
        }
        lemma_apply_ignores_new_side(file, a.drop_first(), b.drop_first(), end);
    }
}

/// Selecting every sub-hunk of a file entry, with `path:*` (or a bare `*` on a single-file
/// diff), gives a diff whose one entry applies to any file exactly as the entry's own hunks do:
/// the result is not the input byte for byte, one hunk becoming several, but what it does to the
/// file is the same. Shown for entries whose hunks' headers agree with their bodies and whose
/// last sub-hunks, where a hunk splits, keep an old-side line.
#[verifier::spinoff_prover]
pub proof fn lemma_select_all_applies_like_the_entry(
    p: PatchV,
    path: Option<Seq<u8>>,
    file: Seq<(Seq<u8>, bool)>,
)
    requires
        select_spec(p, select_all(path)) is Ok,
        p.files[resolve_path_spec(p, path)->Ok_0 as int].content is Text,
        forall|j: int|
            0 <= j < p.files[resolve_path_spec(p, path)->Ok_0 as int].content->Text_0.len()
                ==> splits_in_place(
                #[trigger] p.files[resolve_path_spec(p, path)->Ok_0 as int].content->Text_0[j],
            ),
    ensures
        ({
            let out = select_spec(p, select_all(path))->Ok_0;
            let f = p.files[resolve_path_spec(p, path)->Ok_0 as int];
            &&& out.files.len() == 1
            &&& out.files[0].content is Text
            &&& apply_hunks(file, out.files[0].content->Text_0) == apply_hunks(
                file,
                f.content->Text_0,
            )
        }),
{
    lemma_select_all_shape(p, path);
    let fi = resolve_path_spec(p, path)->Ok_0 as int;
    let f = p.files[fi];
    let subs = file_subs_spec(f);
    let n = subs.len();
    let pk = every_pick(sub_count(p, fi));
    lemma_no_slices_no_conflict(pk, n as int);
    lemma_pick_every(subs, pk, n as int);
    assert(subs.subrange(0, n as int) =~= subs);
    let fe = emit_file_spec(p, fi, pk)->Ok_0;
    assert(fe.0.content == ContentV::Text(subs));
    let emitted = PatchV {
        preamble: p.preamble,
        files: seq![fe.0],
        no_trailing_newline: p.no_trailing_newline && fi == p.files.len() - 1 && fe.1,
    };
    lemma_renumber_moves_only_new_starts(emitted);
    let out = renumber_spec(emitted);
    assert(emitted.files[0] == fe.0);
    let rs = out.files[0].content->Text_0;
    lemma_apply_ignores_new_side(file, rs, subs, 0);
    lemma_sub_hunks_apply_like_hunks(file, f);
}

/// Where a hunk's old-side lines end in the file.
pub open spec fn old_end(h: HunkV) -> int {
    place(h) + old_image(h.lines).len()
}

/// The hunk finds its old-side lines at its place in `file`.
pub open spec fn matches_at(file: Seq<(Seq<u8>, bool)>, h: HunkV) -> bool {
    &&& 0 <= place(h)
    &&& old_end(h) <= file.len()
    &&& file.subrange(place(h), old_end(h)) == old_image(h.lines)
}

/// Each hunk starts no earlier than where every hunk before it ends.
pub open spec fn in_order(hs: Seq<HunkV>) -> bool {
    forall|i: int, j: int| 0 <= i < j < hs.len() ==> old_end(#[trigger] hs[i]) <= place(#[trigger] hs[j])
}

/// When hunks apply from position `cur`, spelled out: each matches at its place, they come in
/// order, and the first starts at `cur` or later.
pub open spec fn applies_from(file: Seq<(Seq<u8>, bool)>, hs: Seq<HunkV>, cur: int) -> bool {
    &&& 0 <= cur <= file.len()
    &&& hs.len() > 0 ==> cur <= place(hs[0])
    &&& forall|i: int| 0 <= i < hs.len() ==> matches_at(file, #[trigger] hs[i])
    &&& in_order(hs)
}

#[verifier::spinoff_prover]
proof fn lemma_applies_from(file: Seq<(Seq<u8>, bool)>, hs: Seq<HunkV>, cur: int)
    ensures
        apply_from(file, hs, cur) is Some <==> applies_from(file, hs, cur),
    decreases hs.len(),
{
    if hs.len() > 0 {
        let h = hs[0];
        let tl = hs.drop_first();
        let end = old_end(h);
        lemma_applies_from(file, tl, end);
        if apply_from(file, hs, cur) is Some {
            assert(applies_from(file, tl, end));
            assert forall|i: int| 0 <= i < hs.len() implies matches_at(file, #[trigger] hs[i]) by {
                if i > 0 {
                    assert(hs[i] == tl[i - 1]);
                }
            }
            assert forall|i: int, j: int| 0 <= i < j < hs.len() implies old_end(#[trigger] hs[i])
                <= place(#[trigger] hs[j]) by {
                assert(hs[j] == tl[j - 1]);
                if i > 0 {
                    assert(hs[i] == tl[i - 1]);
                } else if j > 1 {
                    assert(old_end(tl[0]) <= place(tl[j - 1]));
                    assert(place(tl[0]) <= old_end(tl[0]));
                }
            }
        }
        if applies_from(file, hs, cur) {
            assert(matches_at(file, hs[0]));
            assert forall|i: int| 0 <= i < tl.len() implies matches_at(file, #[trigger] tl[i]) by {
                assert(tl[i] == hs[i + 1]);
            }
            assert forall|i: int, j: int| 0 <= i < j < tl.len() implies old_end(#[trigger] tl[i])
                <= place(#[trigger] tl[j]) by {
                assert(tl[i] == hs[i + 1]);
                assert(tl[j] == hs[j + 1]);
            }
            if tl.len() > 0 {
                assert(tl[0] == hs[1]);
                assert(old_end(hs[0]) <= place(hs[1]));
            }
            assert(0 <= end <= file.len());
        }
    }
}

/// Turning unselected deletions into context and leaving out unselected additions keeps the
/// lines a body expects in the file.
#[verifier::spinoff_prover]
proof fn lemma_old_image_project(lines: Seq<LineV>, sel: Seq<usize>)
    ensures
        old_image(project(lines, sel)) == old_image(lines),
    decreases lines.len(),
{
    if lines.len() > 0 {
        let d = lines.drop_last();
        let l = lines.last();
        lemma_old_image_project(d, sel);
        let pl = project_line(l, crate::model::changed_of(lines).len() as int, sel);
        lemma_images_concat(project(d, sel), pl);
        assert(old_image(pl) == old_image(seq![l])) by {
            assert(seq![l].drop_last() =~= Seq::<LineV>::empty());
            if pl.len() == 1 {
                assert(pl.drop_last() =~= Seq::<LineV>::empty());
            }
        }
        lemma_images_concat(d, seq![l]);
        assert(d + seq![l] =~= lines);
    }
}

/// Writing a marked context line as its deletion and re-addition keeps the lines the body
/// expects in the file.
#[verifier::spinoff_prover]
proof fn lemma_old_image_fixup(lines: Seq<LineV>, k: int)
    requires
        0 <= k <= lines.len(),
    ensures
        old_image(fixup_upto(lines, k)) == old_image(lines.subrange(0, k)),
    decreases k,
{
    if k > 0 {
        lemma_old_image_fixup(lines, k - 1);
        let l = lines[k - 1];
        let fl = fix_line(l, k == lines.len());
        lemma_images_concat(fixup_upto(lines, k - 1), fl);
        assert(old_image(fl) == old_image(seq![l])) by {
            let e = Seq::<LineV>::empty();
            assert(seq![l].drop_last() =~= e);
            assert(seq![l].last() == l);
            if !(k == lines.len()) && l.kind == LineKind::Context && l.no_newline.is_some() {
                let d = LineV { kind: LineKind::Del, text: l.text, no_newline: l.no_newline };
                let a = LineV { kind: LineKind::Add, text: l.text, no_newline: None };
                assert(fl == seq![d, a]);
                assert(fl.last() == a);
                assert(fl.drop_last() =~= seq![d]);
                assert(seq![d].drop_last() =~= e);
                assert(seq![d].last() == d);
                assert(old_image(seq![d]) == old_image(e).push(file_line(d)));
                assert(old_image(seq![l]) == old_image(e).push(file_line(l)));
                assert(file_line(d) == file_line(l));
            } else {
                assert(fl =~= seq![l]);
            }
        }
        lemma_images_concat(lines.subrange(0, k - 1), seq![l]);
        assert(lines.subrange(0, k - 1) + seq![l] =~= lines.subrange(0, k));
    } else {
        assert(lines.subrange(0, 0) =~= Seq::<LineV>::empty());
    }
}

/// An `@L` slice of a sub-hunk whose header agrees with its body stands where the sub-hunk
/// stands and expects the same lines there.
proof fn lemma_slice_in_place(q: HunkV, sel: Seq<usize>)
    requires
        q.old_lines == old_side(q.lines),
        crate::model::sides_fit(q.lines),
    ensures
        old_image(slice_spec(q, sel).lines) == old_image(q.lines),
        place(slice_spec(q, sel)) == place(q),
{
    let p = project(q.lines, sel);
    lemma_old_image_project(q.lines, sel);
    lemma_old_image_fixup(p, p.len() as int);
    assert(p.subrange(0, p.len() as int) =~= p);
    crate::split::lemma_slice_keeps_old_side(q, sel);
}

/// What the picks of an entry make of its sub-hunks, when these apply: every piece matches
/// where its sub-hunk does, the pieces stay in order, and each ends before any later sub-hunk
/// starts.
#[verifier::spinoff_prover]
proof fn lemma_picked_applies(
    file: Seq<(Seq<u8>, bool)>,
    subs: Seq<HunkV>,
    pk: PicksV,
    k: int,
    hs: Seq<HunkV>,
)
    requires
        0 <= k <= subs.len(),
        pick_hunks(subs, pk, k) == Ok::<Seq<HunkV>, crate::select::SelErr>(hs),
        forall|i: int|
            0 <= i < subs.len() ==> matches_at(file, #[trigger] subs[i]) && subs[i].old_lines
                == old_side(subs[i].lines) && crate::model::sides_fit(subs[i].lines),
        in_order(subs),
    ensures
        forall|a: int, j: int|
            0 <= a < hs.len() && k <= j < subs.len() ==> old_end(#[trigger] hs[a]) <= place(
                #[trigger] subs[j],
            ),
        forall|a: int| 0 <= a < hs.len() ==> matches_at(file, #[trigger] hs[a]),
        in_order(hs),
    decreases k,
{
    if k > 0 {
        let prev = pick_hunks(subs, pk, k - 1)->Ok_0;
        lemma_picked_applies(file, subs, pk, k - 1, prev);
        let q = subs[k - 1];
        let added = if pk.whole.contains(k) {
            Some(q)
        } else {
            match crate::select::slice_sel(pk.lines, k) {
                None => None,
                Some(sel) => Some(slice_spec(q, sel)),
            }
        };
        if let Some(x) = added {
            assert(hs == prev.push(x));
            assert(matches_at(file, x) && place(x) == place(q) && old_end(x) == old_end(q)) by {
                if !pk.whole.contains(k) {
                    let sel = crate::select::slice_sel(pk.lines, k)->Some_0;
                    lemma_slice_in_place(q, sel);
                }
            }
            assert forall|a: int, j: int| 0 <= a < hs.len() && k <= j < subs.len() implies old_end(
                #[trigger] hs[a],
            ) <= place(#[trigger] subs[j]) by {
                if a < prev.len() {
                    assert(hs[a] == prev[a]);
                    assert(old_end(prev[a]) <= place(subs[j]));
                } else {
                    assert(hs[a] == x);
                    assert(old_end(subs[k - 1]) <= place(subs[j]));
                }
            }
            assert forall|a: int| 0 <= a < hs.len() implies matches_at(file, #[trigger] hs[a]) by {
                if a < prev.len() {
                    assert(hs[a] == prev[a]);
                }
            }
            assert forall|a: int, b: int| 0 <= a < b < hs.len() implies old_end(#[trigger] hs[a])
                <= place(#[trigger] hs[b]) by {
                assert(hs[a] == prev[a]);
                if b < prev.len() {
                    assert(hs[b] == prev[b]);
                } else {
                    assert(hs[b] == x);
                    assert(old_end(prev[a]) <= place(subs[k - 1]));
                }
            }
        } else {
            assert(hs == prev);
            assert forall|a: int, j: int| 0 <= a < hs.len() && k <= j < subs.len() implies old_end(
                #[trigger] hs[a],
            ) <= place(#[trigger] subs[j]) by {
                assert(old_end(prev[a]) <= place(subs[j]));
            }
        }
    }
}

/// Every sub-hunk of hunks whose headers agree with their bodies has a header that agrees with
/// its body.
proof fn lemma_subs_headers(hs: Seq<HunkV>, k: int)
    requires
        0 <= k <= hs.len(),
        forall|j: int| 0 <= j < hs.len() ==> splits_in_place(#[trigger] hs[j]),
    ensures
        forall|j: int|
            0 <= j < subs_upto(hs, k).len() ==> (#[trigger] subs_upto(hs, k)[j]).old_lines
                == old_side(subs_upto(hs, k)[j].lines),
    decreases k,
{
    if k > 0 {
        lemma_subs_headers(hs, k - 1);
        let a = subs_upto(hs, k - 1);
        let h = hs[k - 1];
        let b = auto_split_spec(h);
        assert(splits_in_place(h));
        if run_starts(h.lines).len() > 1 {
            lemma_auto_split_adjacent(h);
        }
        assert forall|j: int| 0 <= j < subs_upto(hs, k).len() implies (#[trigger] subs_upto(hs, k)[
            j
        ]).old_lines == old_side(subs_upto(hs, k)[j].lines) by {
            if j < a.len() {
                assert(subs_upto(hs, k)[j] == a[j]);
            } else {
                assert(subs_upto(hs, k)[j] == b[j - a.len()]);
            }
        }
    }
}

/// Any choice of sub-hunks of a text entry, whole or cut down by `@L`, emitted as `select`
/// emits it and with its new-side starts recomputed, applies to every file the entry's hunks
/// apply to: each piece stands where its sub-hunk stands and expects the same lines there,
/// and the sub-hunks' old-side ranges follow one another without overlap, so leaving some out
/// never stops the others from applying. Shown for entries whose hunks' headers agree with
/// their bodies and whose last sub-hunks, where a hunk splits, keep an old-side line.
#[verifier::spinoff_prover]
pub proof fn lemma_chosen_sub_hunks_apply(
    file: Seq<(Seq<u8>, bool)>,
    p: PatchV,
    fi: int,
    pk: PicksV,
)
    requires
        0 <= fi < p.files.len(),
        p.files[fi].content is Text,
        forall|j: int|
            0 <= j < p.files[fi].content->Text_0.len() ==> splits_in_place(
                #[trigger] p.files[fi].content->Text_0[j],
            ),
        emit_file_spec(p, fi, pk) is Ok,
        apply_hunks(file, p.files[fi].content->Text_0) is Some,
    ensures
        emit_file_spec(p, fi, pk)->Ok_0.0.content is Text,
        apply_hunks(
            file,
            crate::renumber::renumber_hunks(emit_file_spec(p, fi, pk)->Ok_0.0.content->Text_0),
        ) is Some,
{
    let f = p.files[fi];
    let hs0 = f.content->Text_0;
    let subs = file_subs_spec(f);
    let n = subs.len() as int;
    lemma_sub_hunks_apply_like_hunks(file, f);
    lemma_applies_from(file, subs, 0);
    lemma_subs_headers(hs0, hs0.len() as int);
    assert(crate::select::file_fits(f));
    crate::select::lemma_subs_sides_fit(f);
    let ks = pick_hunks(subs, pk, n)->Ok_0;
    assert(emit_file_spec(p, fi, pk)->Ok_0.0.content == ContentV::Text(ks));
    lemma_picked_applies(file, subs, pk, n, ks);
    let rh = crate::renumber::renumber_hunks(ks);
    assert forall|i: int| 0 <= i < rh.len() implies (#[trigger] rh[i]).old_start == ks[i].old_start
        && rh[i].old_lines == ks[i].old_lines && rh[i].lines == ks[i].lines by {}
    lemma_apply_ignores_new_side(file, rh, ks, 0);
    if ks.len() > 0 {
        assert(matches_at(file, ks[0]));
    }
    lemma_applies_from(file, ks, 0);
}

/// Old-side lines before a later body index are no fewer, and never more than the whole body's.
proof fn lemma_old_off_mono(lines: Seq<LineV>, a: int, b: int)
    requires
        0 <= a <= b <= lines.len(),
    ensures
        old_off(lines, a) + old_side(lines.subrange(a, b)) == old_off(lines, b),
        old_off(lines, b) <= old_side(lines),
{
    crate::model::lemma_count_split3(lines, a, b, LineKind::Context);
    crate::model::lemma_count_split3(lines, a, b, LineKind::Del);
}

/// The lines a body expects, cut where a stretch of it begins and ends.
proof fn lemma_image_in_three(lines: Seq<LineV>, a: int, b: int)
    requires
        0 <= a <= b <= lines.len(),
    ensures
        old_image(lines) == old_image(lines.subrange(0, a)) + old_image(lines.subrange(a, b))
            + old_image(lines.subrange(b, lines.len() as int)),
        old_image(lines.subrange(0, a)).len() == old_off(lines, a),
        old_image(lines.subrange(a, b)).len() == old_side(lines.subrange(a, b)),
        old_image(lines).len() == old_side(lines),
{
    let x = lines.subrange(0, a);
    let y = lines.subrange(a, b);
    let z = lines.subrange(b, lines.len() as int);
    lemma_images_concat(x, y);
    lemma_images_concat(x + y, z);
    assert(x + y + z =~= lines);
    lemma_old_image_len(x);
    lemma_old_image_len(y);
    lemma_old_image_len(lines);
}

/// A stretch of the file that holds three stretches of lines holds the middle one where it
/// falls.
proof fn lemma_middle_match(
    file: Seq<(Seq<u8>, bool)>,
    at: int,
    x: Seq<(Seq<u8>, bool)>,
    y: Seq<(Seq<u8>, bool)>,
    z: Seq<(Seq<u8>, bool)>,
)
    requires
        0 <= at,
        at + (x + y + z).len() <= file.len(),
        file.subrange(at, at + (x + y + z).len()) == x + y + z,
    ensures
        file.subrange(at + x.len(), at + x.len() + y.len()) == y,
{
    lemma_match_split(file, at, x + y, z);
    lemma_match_split(file, at, x, y);
}

/// The piece `from..to` of a hunk that matches in `file`, when it keeps an old-side line,
/// matches where its lines fall within the hunk.
#[verifier::spinoff_prover]
proof fn lemma_piece_matches(file: Seq<(Seq<u8>, bool)>, h: HunkV, from: int, to: int)
    requires
        0 <= from <= to <= h.lines.len(),
        matches_at(file, h),
        h.old_lines == old_side(h.lines),
        h.fits(),
        crate::model::sides_fit(h.lines),
        subhunk_spec(h, from, to).old_lines > 0,
    ensures
        matches_at(file, subhunk_spec(h, from, to)),
        place(subhunk_spec(h, from, to)) == place(h) + old_off(h.lines, from),
        old_end(subhunk_spec(h, from, to)) == place(h) + old_off(h.lines, to),
{
    let q = subhunk_spec(h, from, to);
    let sub = h.lines.subrange(from, to);
    lemma_old_off_mono(h.lines, from, to);
    lemma_old_off_mono(h.lines, to, h.lines.len() as int);
    lemma_image_in_three(h.lines, from, to);
    assert(q.lines == sub);
    assert(q.old_lines == old_side(sub));
    assert(h.old_lines > 0);
    assert(place(h) == h.old_start - 1);
    assert(q.old_start == h.old_start + old_off(h.lines, from));
    assert(place(q) == q.old_start - 1);
    lemma_middle_match(
        file,
        place(h),
        old_image(h.lines.subrange(0, from)),
        old_image(sub),
        old_image(h.lines.subrange(to, h.lines.len() as int)),
    );
}

/// Where the kept pieces among the first `m` of a cut may end: the old-side lines before the
/// end of piece `m - 1`.
pub open spec fn cut_bound(h: HunkV, c: Seq<int>, m: int) -> int {
    if m <= 0 {
        0
    } else {
        old_off(h.lines, cut_to(c, h.lines.len() as int, m - 1)) as int
    }
}

/// The kept pieces of a cut hunk that matches in `file` each match, come in order, and lie
/// within the hunk's old-side range.
#[verifier::spinoff_prover]
proof fn lemma_cut_pieces_apply(file: Seq<(Seq<u8>, bool)>, h: HunkV, c: Seq<int>, m: int)
    requires
        0 <= m <= c.len() + 1,
        forall|j: int| 0 <= j < c.len() ==> 0 <= #[trigger] c[j] < h.lines.len(),
        forall|i: int, j: int| 0 <= i < j < c.len() ==> c[i] < c[j],
        matches_at(file, h),
        h.old_lines == old_side(h.lines),
        h.fits(),
        crate::model::sides_fit(h.lines),
        forall|j: int|
            0 <= j <= c.len() && #[trigger] keeps_piece(h, c, j) ==> subhunk_spec(
                h,
                cut_from(c, j),
                cut_to(c, h.lines.len() as int, j),
            ).old_lines > 0,
    ensures
        forall|a: int| 0 <= a < pieces_upto(h, c, m).len() ==> matches_at(file, #[trigger] pieces_upto(h, c, m)[a]),
        forall|a: int|
            0 <= a < pieces_upto(h, c, m).len() ==> place(h) <= place(#[trigger] pieces_upto(h, c, m)[a])
                && old_end(pieces_upto(h, c, m)[a]) <= place(h) + cut_bound(h, c, m),
        in_order(pieces_upto(h, c, m)),
    decreases m,
{
    let n = h.lines.len() as int;
    if m > 0 {
        lemma_cut_pieces_apply(file, h, c, m - 1);
        let prev = pieces_upto(h, c, m - 1);
        let cur = pieces_upto(h, c, m);
        let from = cut_from(c, m - 1);
        let to = cut_to(c, n, m - 1);
        assert(0 <= from <= to <= n) by {
            if m - 1 > 0 && m - 1 < c.len() {
                assert(c[m - 2] < c[m - 1]);
            }
        }
        assert(from == 0 || from == cut_to(c, n, m - 2));
        assert(cut_bound(h, c, m - 1) == old_off(h.lines, from)) by {
            if m - 1 == 0 {
                assert(h.lines.subrange(0, 0) =~= Seq::<LineV>::empty());
            }
        }
        lemma_old_off_mono(h.lines, from, to);
        assert(cut_bound(h, c, m - 1) <= cut_bound(h, c, m));
        if keeps_piece(h, c, m - 1) {
            let x = subhunk_spec(h, from, to);
            lemma_piece_matches(file, h, from, to);
            assert(cur == prev.push(x));
            assert forall|a: int| 0 <= a < cur.len() implies matches_at(file, #[trigger] cur[a]) by {
                if a < prev.len() {
                    assert(cur[a] == prev[a]);
                }
            }
            assert forall|a: int| 0 <= a < cur.len() implies place(h) <= place(#[trigger] cur[a])
                && old_end(cur[a]) <= place(h) + cut_bound(h, c, m) by {
                if a < prev.len() {
                    assert(cur[a] == prev[a]);
                }
            }
            assert forall|a: int, b: int| 0 <= a < b < cur.len() implies old_end(#[trigger] cur[a])
                <= place(#[trigger] cur[b]) by {
                assert(cur[a] == prev[a]);
                if b < prev.len() {
                    assert(cur[b] == prev[b]);
                } else {
                    assert(cur[b] == x);
                }
            }
        } else {
            assert(cur == prev);
        }
    }
}

/// Cutting a hunk with `split` leaves an entry that applies to every file the entry applied to
/// before: the pieces lie within the hunk's old-side range, each where its lines fall, so the
/// hunks around them keep their order. Shown for a hunk whose header agrees with its body and
/// whose lines fit a header's numbers, and where, if it is cut at all, no kept piece is a bare
/// insertion.
#[verifier::spinoff_prover]
pub proof fn lemma_split_pieces_apply(
    file: Seq<(Seq<u8>, bool)>,
    hs: Seq<HunkV>,
    hi: int,
    cuts: Seq<u32>,
)
    requires
        0 <= hi < hs.len(),
        hs[hi].old_lines == old_side(hs[hi].lines),
        hs[hi].fits(),
        crate::model::sides_fit(hs[hi].lines),
        cut_indices(hs[hi], cuts, hs[hi].lines.len() as int).len() > 0 ==> forall|j: int|
            0 <= j <= cut_indices(hs[hi], cuts, hs[hi].lines.len() as int).len() && #[trigger] keeps_piece(
                hs[hi],
                cut_indices(hs[hi], cuts, hs[hi].lines.len() as int),
                j,
            ) ==> subhunk_spec(
                hs[hi],
                cut_from(cut_indices(hs[hi], cuts, hs[hi].lines.len() as int), j),
                cut_to(
                    cut_indices(hs[hi], cuts, hs[hi].lines.len() as int),
                    hs[hi].lines.len() as int,
                    j,
                ),
            ).old_lines > 0,
        apply_hunks(file, hs) is Some,
    ensures
        apply_hunks(
            file,
            crate::renumber::renumber_hunks(
                hs.subrange(0, hi) + split_at_spec(hs[hi], cuts) + hs.subrange(hi + 1, hs.len() as int),
            ),
        ) is Some,
{
    let h = hs[hi];
    let n = h.lines.len() as int;
    let c = cut_indices(h, cuts, n);
    let pre = hs.subrange(0, hi);
    let post = hs.subrange(hi + 1, hs.len() as int);
    let ps = split_at_spec(h, cuts);
    let out = pre + ps + post;
    lemma_applies_from(file, hs, 0);
    if c.len() == 0 {
        assert(out =~= hs);
    } else {
        crate::split::lemma_cut_indices(h, cuts, n);
        assert(matches_at(file, h));
        lemma_cut_pieces_apply(file, h, c, c.len() + 1int);
        assert(cut_to(c, n, c.len() as int) == n);
        assert(h.lines.subrange(0, n) =~= h.lines);
        assert(cut_bound(h, c, c.len() + 1int) == old_side(h.lines));
        lemma_old_image_len(h.lines);
        assert(old_end(h) == place(h) + old_side(h.lines));
        assert forall|i: int| 0 <= i < out.len() implies matches_at(file, #[trigger] out[i]) by {
            if i < pre.len() {
                assert(out[i] == hs[i]);
            } else if i < pre.len() + ps.len() {
                assert(out[i] == ps[i - pre.len()]);
            } else {
                assert(out[i] == hs[i - pre.len() - ps.len() + hi + 1]);
            }
        }
        assert forall|i: int, j: int| 0 <= i < j < out.len() implies old_end(#[trigger] out[i])
            <= place(#[trigger] out[j]) by {
            let np = pre.len() as int;
            let nq = ps.len() as int;
            if i < np {
                assert(out[i] == hs[i]);
                assert(old_end(hs[i]) <= place(h));
                if j < np {
                    assert(out[j] == hs[j]);
                } else if j < np + nq {
                    assert(out[j] == ps[j - np]);
                } else {
                    assert(out[j] == hs[j - np - nq + hi + 1]);
                    assert(place(h) <= old_end(h));
                }
            } else if i < np + nq {
                assert(out[i] == ps[i - np]);
                if j < np + nq {
                    assert(out[j] == ps[j - np]);
                } else {
                    assert(out[j] == hs[j - np - nq + hi + 1]);
                    assert(old_end(h) <= place(hs[j - np - nq + hi + 1]));
                }
            } else {
                assert(out[i] == hs[i - np - nq + hi + 1]);
                assert(out[j] == hs[j - np - nq + hi + 1]);
            }
        }
        if out.len() > 0 {
            assert(matches_at(file, out[0]));
        }
        lemma_applies_from(file, out, 0);
    }
    let rh = crate::renumber::renumber_hunks(out);
    assert forall|i: int| 0 <= i < rh.len() implies (#[trigger] rh[i]).old_start == out[i].old_start
        && rh[i].old_lines == out[i].old_lines && rh[i].lines == out[i].lines by {}
    lemma_apply_ignores_new_side(file, rh, out, 0);
}

} // verus!
