//! New-side (`+`) line numbers of a result diff, recomputed from the diff itself: a hunk's
//! new-side start follows from its old-side start plus the net size of everything the same
//! file's earlier hunks change.

use crate::model::{
    body_view, count_of, files_view, hunks_view, sides_fit, ContentV, FileContent, FileDiff, FileV,
    Hunk, HunkV, LineKind, Patch, PatchV,
};
use vstd::pervasive::VecAdditionalExecFns;
use vstd::prelude::*;

verus! {

/// The 1-based position a side starts at: a zero count means git wrote the preceding line.
pub open spec fn anchor_spec(start: u32, count: u32) -> int {
    start + if count == 0 {
        1int
    } else {
        0int
    }
}

/// The 1-based position a hunk's side starts at, given the header's `start` and `count`.
pub fn anchor(start: u32, count: u32) -> (r: i64)
    ensures
        r == anchor_spec(start, count),
{
    start as i64 + if count == 0 {
        1i64
    } else {
        0i64
    }
}

pub open spec fn clamp_u32(x: int) -> u32 {
    if x < 0 {
        0
    } else if x > u32::MAX {
        u32::MAX
    } else {
        x as u32
    }
}

/// The new-side start a hunk must carry when the hunks before it in its file change the line
/// count by `delta`: the old-side anchor shifted by `delta`, the line before it for a hunk with
/// no new-side lines, kept within `u32`.
pub open spec fn expected_new_start_spec(h: HunkV, delta: int) -> u32 {
    let a = anchor_spec(h.old_start, h.old_lines) + delta;
    clamp_u32(
        if h.new_lines == 0 {
            a - 1
        } else {
            a
        },
    )
}

pub(crate) fn expected_new_start_wide(h: &Hunk, delta: i128) -> (r: u32)
    requires
        -0x1_0000_0000_0000_0000_0000_0000 <= delta <= 0x1_0000_0000_0000_0000_0000_0000,
    ensures
        r == expected_new_start_spec(h@, delta as int),
{
    let a = anchor(h.old_start, h.old_lines) as i128 + delta;
    let start = if h.new_lines == 0 {
        a - 1
    } else {
        a
    };
    if start < 0 {
        0
    } else if start > 0xffff_ffffi128 {
        0xffff_ffffu32
    } else {
        start as u32
    }
}

/// The new-side start a hunk must carry, given `delta`, the net `added - deleted` of every hunk
/// before it in the same file.
pub fn expected_new_start(h: &Hunk, delta: i64) -> (r: u32)
    requires
        i64::MIN + 1 <= anchor_spec(h.old_start, h.old_lines) + delta <= i64::MAX,
    ensures
        r == expected_new_start_spec(h@, delta as int),
{
    expected_new_start_wide(h, delta as i128)
}

/// The net `added - deleted` of the first `i` hunks.
pub open spec fn delta_before(hs: Seq<HunkV>, i: int) -> int
    decreases i,
{
    if i <= 0 {
        0
    } else {
        delta_before(hs, i - 1) + count_of(hs[i - 1].lines, LineKind::Add) - count_of(
            hs[i - 1].lines,
            LineKind::Del,
        )
    }
}

pub proof fn lemma_delta_bound(hs: Seq<HunkV>, i: int)
    requires
        0 <= i <= hs.len(),
        forall|j: int| 0 <= j < hs.len() ==> sides_fit(#[trigger] hs[j].lines),
    ensures
        -i * 0x1_0000_0000 <= delta_before(hs, i) <= i * 0x1_0000_0000,
    decreases i,
{
    if i > 0 {
        lemma_delta_bound(hs, i - 1);
        assert(sides_fit(hs[i - 1].lines));
    }
}

/// Every hunk of a file with its new-side start recomputed from the hunks before it.
pub open spec fn renumber_hunks(hs: Seq<HunkV>) -> Seq<HunkV> {
    Seq::new(
        hs.len(),
        |i: int| HunkV { new_start: expected_new_start_spec(hs[i], delta_before(hs, i)), ..hs[i] },
    )
}

pub open spec fn renumber_file(f: FileV) -> FileV {
    match f.content {
        ContentV::Text(hs) => FileV { content: ContentV::Text(renumber_hunks(hs)), ..f },
        ContentV::Binary(_) => f,
    }
}

/// Every text hunk of the patch with its new-side start recomputed per file.
pub open spec fn renumber_spec(p: PatchV) -> PatchV {
    PatchV { files: p.files.map_values(|f: FileV| renumber_file(f)), ..p }
}

/// Every hunk of every text entry has a body whose counts fit a header.
pub open spec fn bodies_fit(p: PatchV) -> bool {
    forall|fi: int|
        0 <= fi < p.files.len() ==> (#[trigger] p.files[fi]).content is Text ==> forall|hi: int|
            0 <= hi < p.files[fi].content->Text_0.len() ==> sides_fit(
                #[trigger] p.files[fi].content->Text_0[hi].lines,
            )
}

/// Renumbering moves new-side starts and nothing else: every entry keeps its kind and its
/// number of hunks, and every hunk its body and old side.
pub proof fn lemma_renumber_moves_only_new_starts(p: PatchV)
    ensures
        renumber_spec(p).files.len() == p.files.len(),
        renumber_spec(p).preamble == p.preamble,
        renumber_spec(p).no_trailing_newline == p.no_trailing_newline,
        forall|fi: int|
            0 <= fi < p.files.len() ==> match (#[trigger] p.files[fi]).content {
                ContentV::Binary(b) => renumber_spec(p).files[fi] == p.files[fi],
                ContentV::Text(hs) => renumber_spec(p).files[fi].content is Text && {
                    let rs = renumber_spec(p).files[fi].content->Text_0;
                    &&& rs.len() == hs.len()
                    &&& forall|hi: int|
                        0 <= hi < hs.len() ==> (#[trigger] rs[hi]).lines == hs[hi].lines
                            && rs[hi].old_start == hs[hi].old_start && rs[hi].old_lines
                            == hs[hi].old_lines && rs[hi].new_lines == hs[hi].new_lines
                            && rs[hi].section == hs[hi].section
                },
            },
        bodies_fit(p) ==> bodies_fit(renumber_spec(p)),
{
    assert forall|fi: int| 0 <= fi < p.files.len() implies match (#[trigger] p.files[fi]).content {
        ContentV::Binary(b) => renumber_spec(p).files[fi] == p.files[fi],
        ContentV::Text(hs) => renumber_spec(p).files[fi].content is Text && {
            let rs = renumber_spec(p).files[fi].content->Text_0;
            &&& rs.len() == hs.len()
            &&& forall|hi: int|
                0 <= hi < hs.len() ==> (#[trigger] rs[hi]).lines == hs[hi].lines && rs[hi].old_start
                    == hs[hi].old_start && rs[hi].old_lines == hs[hi].old_lines && rs[hi].new_lines
                    == hs[hi].new_lines && rs[hi].section == hs[hi].section
        },
    } by {
        assert(renumber_spec(p).files[fi] == renumber_file(p.files[fi]));
    }
    if bodies_fit(p) {
        let q = renumber_spec(p);
        assert forall|fi: int| 0 <= fi < q.files.len() implies (#[trigger] q.files[fi]).content is Text
            ==> forall|hi: int|
            0 <= hi < q.files[fi].content->Text_0.len() ==> sides_fit(
                #[trigger] q.files[fi].content->Text_0[hi].lines,
            ) by {
            assert(q.files[fi] == renumber_file(p.files[fi]));
            if q.files[fi].content is Text {
                assert forall|hi: int| 0 <= hi < q.files[fi].content->Text_0.len() implies sides_fit(
                    #[trigger] q.files[fi].content->Text_0[hi].lines,
                ) by {
                    assert(q.files[fi].content->Text_0[hi].lines
                        == p.files[fi].content->Text_0[hi].lines);
                }
            }
        }
    }
}

proof fn lemma_delta_same_bodies(a: Seq<HunkV>, b: Seq<HunkV>, i: int)
    requires
        a.len() == b.len(),
        0 <= i <= a.len(),
        forall|j: int| 0 <= j < a.len() ==> (#[trigger] a[j]).lines == b[j].lines,
    ensures
        delta_before(a, i) == delta_before(b, i),
    decreases i,
{
    if i > 0 {
        lemma_delta_same_bodies(a, b, i - 1);
        assert(a[i - 1].lines == b[i - 1].lines);
    }
}

/// Renumbering a renumbered diff changes nothing: the new-side starts it writes are the ones
/// it would write again.
pub proof fn lemma_renumber_idempotent(p: PatchV)
    ensures
        renumber_spec(renumber_spec(p)) == renumber_spec(p),
{
    let q = renumber_spec(p);
    assert forall|fi: int| 0 <= fi < p.files.len() implies renumber_file(#[trigger] q.files[fi])
        == q.files[fi] by {
        let f = p.files[fi];
        assert(q.files[fi] == renumber_file(f));
        if let ContentV::Text(hs) = f.content {
            let rh = renumber_hunks(hs);
            assert forall|j: int| 0 <= j < rh.len() implies (#[trigger] rh[j]).lines
                == hs[j].lines by {}
            lemma_delta_same_bodies(rh, hs, 0);
            assert forall|i: int| 0 <= i < rh.len() implies #[trigger] renumber_hunks(rh)[i]
                == rh[i] by {
                lemma_delta_same_bodies(rh, hs, i);
            }
            assert(renumber_hunks(rh) =~= rh);
        }
    }
    assert(q.files.map_values(|f: FileV| renumber_file(f)) =~= q.files);
}

/// Whether every hunk of every text entry has a body whose counts fit a header.
pub fn bodies_in_bounds(patch: &Patch) -> (r: bool)
    ensures
        r == bodies_fit(patch@),
{
    let mut fi: usize = 0;
    while fi < patch.files.len()
        invariant
            fi <= patch@.files.len(),
            forall|q: int|
                0 <= q < fi ==> (#[trigger] patch@.files[q]).content is Text ==> forall|hi: int|
                    0 <= hi < patch@.files[q].content->Text_0.len() ==> sides_fit(
                        #[trigger] patch@.files[q].content->Text_0[hi].lines,
                    ),
        decreases patch@.files.len() - fi,
    {
        match &patch.files[fi].content {
            FileContent::Text(hs) => {
                let mut hi: usize = 0;
                while hi < hs.len()
                    invariant
                        fi < patch@.files.len(),
                        patch@.files[fi as int].content == ContentV::Text(hunks_view(hs@)),
                        hi <= hs@.len(),
                        forall|j: int|
                            0 <= j < hi ==> sides_fit(#[trigger] hunks_view(hs@)[j].lines),
                    decreases hs@.len() - hi,
                {
                    if !crate::model::sides_in_bounds(hs[hi].lines.as_slice()) {
                        proof {
                            assert(hunks_view(hs@)[hi as int].lines == body_view(hs@[hi as int].lines@));
                            assert(!sides_fit(patch@.files[fi as int].content->Text_0[hi as int].lines));
                        }
                        return false;
                    }
                    proof {
                        assert(hunks_view(hs@)[hi as int].lines == body_view(hs@[hi as int].lines@));
                    }
                    hi = hi + 1;
                }
            },
            FileContent::Binary(_) => {},
        }
        fi = fi + 1;
    }
    true
}

fn empty_hunk() -> (r: Hunk)
    ensures
        r@ == (HunkV {
            old_start: 0,
            old_lines: 0,
            new_start: 0,
            new_lines: 0,
            section: Seq::empty(),
            lines: Seq::empty(),
        }),
{
    let r = Hunk {
        old_start: 0,
        old_lines: 0,
        new_start: 0,
        new_lines: 0,
        section: Vec::new(),
        lines: Vec::new(),
    };
    proof {
        assert(r@.section =~= Seq::<u8>::empty());
        assert(r@.lines =~= Seq::<crate::model::LineV>::empty());
    }
    r
}

fn renumber_hunk_list(hunks: &mut Vec<Hunk>)
    requires
        forall|j: int| 0 <= j < old(hunks)@.len() ==> sides_fit(#[trigger] old(hunks)@[j]@.lines),
    ensures
        hunks_view(final(hunks)@) == renumber_hunks(hunks_view(old(hunks)@)),
{
    let ghost hv = hunks_view(hunks@);
    let mut delta: i128 = 0;
    let mut i: usize = 0;
    while i < hunks.len()
        invariant
            hv == hunks_view(old(hunks)@),
            hunks@.len() == hv.len(),
            forall|j: int| 0 <= j < hv.len() ==> sides_fit(#[trigger] hv[j].lines),
            i <= hv.len(),
            delta == delta_before(hv, i as int),
            forall|j: int|
                0 <= j < i ==> (#[trigger] hunks@[j])@ == renumber_hunks(hv)[j],
            forall|j: int| i <= j < hv.len() ==> (#[trigger] hunks@[j])@ == hv[j],
        decreases hv.len() - i,
    {
        proof {
            lemma_delta_bound(hv, i as int);
            assert(sides_fit(hv[i as int].lines));
        }
        let mut h = empty_hunk();
        hunks.set_and_swap(i, &mut h);
        h.new_start = expected_new_start_wide(&h, delta);
        let (add, del) = h.change_counts();
        delta = delta + add as i128 - del as i128;
        hunks.set_and_swap(i, &mut h);
        i = i + 1;
    }
    proof {
        assert(hunks_view(hunks@) =~= renumber_hunks(hv));
    }
}

fn empty_file() -> (r: FileDiff)
    ensures
        r@ == (FileV {
            headers: Seq::empty(),
            trailer: Seq::empty(),
            old_path: None,
            new_path: None,
            content: ContentV::Binary(Seq::empty()),
        }),
{
    let r = FileDiff {
        headers: Vec::new(),
        trailer: Vec::new(),
        old_path: None,
        new_path: None,
        content: FileContent::Binary(Vec::new()),
    };
    proof {
        assert(r@.headers =~= Seq::<Seq<u8>>::empty());
        assert(r@.trailer =~= Seq::<(usize, Seq<u8>)>::empty());
        assert(r@.content->Binary_0 =~= Seq::<Seq<u8>>::empty());
    }
    r
}

/// Recompute every hunk's new-side start from the patch itself, per file.
pub fn renumber_new_side(patch: &mut Patch)
    requires
        bodies_fit(old(patch)@),
    ensures
        final(patch)@ == renumber_spec(old(patch)@),
{
    let ghost fv = old(patch)@.files;
    let mut i: usize = 0;
    while i < patch.files.len()
        invariant
            fv == old(patch)@.files,
            bodies_fit(old(patch)@),
            patch.files@.len() == fv.len(),
            patch.preamble == old(patch).preamble,
            patch.no_trailing_newline == old(patch).no_trailing_newline,
            i <= fv.len(),
            forall|j: int| 0 <= j < i ==> (#[trigger] patch.files@[j])@ == renumber_file(fv[j]),
            forall|j: int| i <= j < fv.len() ==> (#[trigger] patch.files@[j])@ == fv[j],
        decreases fv.len() - i,
    {
        let mut f = empty_file();
        patch.files.set_and_swap(i, &mut f);
        proof {
            assert(f@ == fv[i as int]);
        }
        match &mut f.content {
            FileContent::Text(hunks) => {
                proof {
                    assert(old(patch)@.files[i as int] == fv[i as int]);
                    assert forall|j: int| 0 <= j < hunks@.len() implies sides_fit(
                        #[trigger] hunks@[j]@.lines,
                    ) by {
                        assert(fv[i as int].content->Text_0[j] == hunks@[j]@);
                    }
                }
                renumber_hunk_list(hunks);
            },
            FileContent::Binary(_) => {},
        }
        patch.files.set_and_swap(i, &mut f);
        i = i + 1;
    }
    proof {
        assert(files_view(patch.files@) =~= fv.map_values(|f: FileV| renumber_file(f)));
    }
}

} // verus!
