//! Selecting everything from a selection gives the selection back: `*` over the tool's own
//! result is a fixed point.

use crate::model::{ContentV, FileV, HunkV, LineV, PatchV};
use crate::renumber::{lemma_renumber_idempotent, lemma_renumber_moves_only_new_starts, renumber_spec};
use crate::select::{
    conflict_at, first_conflict, slice_count, emit_file_spec, emit_selection_spec, emit_upto, file_step, file_subs_spec, has_context,
    names_path, pick_hunks, resolve_path_spec, resolve_upto, sel_step, select_spec, sub_count,
    subs_upto, tail_upto, IndexSetV, PicksV, SelErr, SelectorV,
};
use crate::split::{
    auto_from, auto_split_spec, auto_to, lemma_run_starts, run_starts, starts_run,
};
use vstd::prelude::*;

verus! {

/// The one selector `path:*`, or a bare `*` when `path` is `None`: every sub-hunk of one entry.
pub open spec fn select_all(path: Option<Seq<u8>>) -> Seq<SelectorV> {
    seq![SelectorV::File { path, indices: IndexSetV::All }]
}

/// Every run start of a body is one of those [`run_starts`] lists.
proof fn lemma_run_starts_complete(lines: Seq<LineV>, x: int)
    requires
        0 <= x < lines.len(),
        starts_run(lines, x),
    ensures
        exists|k: int| 0 <= k < run_starts(lines).len() && run_starts(lines)[k] == x,
    decreases lines.len(),
{
    let rs = run_starts(lines);
    if x == lines.len() - 1 {
        assert(rs.last() == x);
        assert(rs[rs.len() - 1] == x);
    } else {
        let d = lines.drop_last();
        assert(d[x] == lines[x]);
        if x > 0 {
            assert(d[x - 1] == lines[x - 1]);
        }
        lemma_run_starts_complete(d, x);
        let k = choose|k: int| 0 <= k < run_starts(d).len() && run_starts(d)[k] == x;
        assert(rs[k] == x);
    }
}

/// A body with at most one place where a change run starts has at most one run.
proof fn lemma_one_start_one_run(s: Seq<LineV>, x: int)
    requires
        forall|j: int| 0 <= j < s.len() && #[trigger] starts_run(s, j) ==> j == x,
    ensures
        run_starts(s).len() <= 1,
{
    lemma_run_starts(s);
    if run_starts(s).len() > 1 {
        let rs = run_starts(s);
        assert(starts_run(s, rs[0]) && starts_run(s, rs[1]));
        assert(rs[0] < rs[1]);
    }
}

/// Every automatic sub-hunk holds a single change run.
#[verifier::spinoff_prover]
proof fn lemma_piece_one_run(h: HunkV, i: int)
    requires
        0 <= i < auto_split_spec(h).len(),
    ensures
        run_starts(auto_split_spec(h)[i].lines).len() <= 1,
{
    let rs = run_starts(h.lines);
    let n = h.lines.len() as int;
    if rs.len() <= 1 {
        assert(auto_split_spec(h)[i] == h);
    } else {
        lemma_run_starts(h.lines);
        let from = auto_from(rs, i);
        let to = auto_to(rs, n, i);
        assert(0 <= from <= rs[i] < to <= n) by {
            if i + 1 < rs.len() {
                assert(rs[i] < rs[i + 1]);
            }
            if i == 0 {
                assert(0 <= rs[0]);
            }
        }
        let s = h.lines.subrange(from, to);
        assert(auto_split_spec(h)[i].lines == s);
        assert forall|j: int| 0 <= j < s.len() && #[trigger] starts_run(s, j) implies j == rs[i]
            - from by {
            let x = from + j;
            assert(s[j] == h.lines[x]);
            if j > 0 {
                assert(s[j - 1] == h.lines[x - 1]);
            }
            if x != rs[i] {
                assert(starts_run(h.lines, x)) by {
                    if j == 0 {
                        assert(from == 0);
                    }
                }
                lemma_run_starts_complete(h.lines, x);
                let k = choose|k: int| 0 <= k < rs.len() && rs[k] == x;
                if k < i {
                    assert(rs[k] < rs[i]);
                    assert(i > 0 && from == rs[i]);
                } else if k > i {
                    assert(k >= i + 1);
                    assert(rs[i + 1] <= rs[k]) by {
                        if k > i + 1 {
                            assert(rs[i + 1] < rs[k]);
                        }
                    }
                    assert(to == rs[i + 1]);
                }
            }
        }
        lemma_one_start_one_run(s, rs[i] - from);
    }
}

/// Hunks of one change run each are their own sub-hunks.
proof fn lemma_subs_of_single_runs(hs: Seq<HunkV>, k: int)
    requires
        0 <= k <= hs.len(),
        forall|j: int| 0 <= j < hs.len() ==> run_starts((#[trigger] hs[j]).lines).len() <= 1,
    ensures
        subs_upto(hs, k) == hs.subrange(0, k),
    decreases k,
{
    if k > 0 {
        lemma_subs_of_single_runs(hs, k - 1);
        assert(run_starts(hs[k - 1].lines).len() <= 1);
        assert(hs.subrange(0, k - 1) + seq![hs[k - 1]] =~= hs.subrange(0, k));
    } else {
        assert(hs.subrange(0, 0) =~= Seq::<HunkV>::empty());
    }
}

/// Re-anchored trailer lines all carry the count they were placed after.
proof fn lemma_tail_anchors(t: Seq<(usize, Seq<u8>)>, at: int, out: usize, k: int)
    requires
        0 <= k <= t.len(),
    ensures
        forall|j: int| 0 <= j < tail_upto(t, at, out, k).len() ==> (#[trigger] tail_upto(t, at, out, k)[j]).0 == out,
    decreases k,
{
    if k > 0 {
        lemma_tail_anchors(t, at, out, k - 1);
        let prev = tail_upto(t, at, out, k - 1);
        let cur = tail_upto(t, at, out, k);
        assert forall|j: int| 0 <= j < cur.len() implies (#[trigger] cur[j]).0 == out by {
            if t[k - 1].0 == at {
                assert(cur == prev.push((out, t[k - 1].1)));
                if j < prev.len() {
                    assert(cur[j] == prev[j]);
                }
            } else {
                assert(cur == prev);
            }
        }
    }
}

/// Trailer lines that all follow the last of `m` hunks stay as they are when placed after `m`
/// hunks again.
proof fn lemma_tail_keeps(t: Seq<(usize, Seq<u8>)>, m: usize, k: int)
    requires
        0 <= k <= t.len(),
        forall|j: int| 0 <= j < t.len() ==> (#[trigger] t[j]).0 == m,
    ensures
        tail_upto(t, m as int, m, k) == t.subrange(0, k),
    decreases k,
{
    if k > 0 {
        lemma_tail_keeps(t, m, k - 1);
        assert(t[k - 1] == (m, t[k - 1].1));
        assert(t.subrange(0, k - 1).push((m, t[k - 1].1)) =~= t.subrange(0, k));
    } else {
        assert(t.subrange(0, 0) =~= Seq::<(usize, Seq<u8>)>::empty());
    }
}

/// Picking every sub-hunk of an entry whole, and none by `@L`.
pub open spec fn every_pick(n: nat) -> PicksV {
    PicksV { whole: Set::<int>::empty().union(Set::new(|i: int| 1 <= i <= n)), lines: Seq::empty() }
}

/// What `path:*` resolves to: the entry it names, picked whole.
proof fn lemma_resolve_all(p: PatchV, path: Option<Seq<u8>>)
    requires
        resolve_path_spec(p, path) is Ok,
    ensures
        resolve_path_spec(p, path)->Ok_0 < p.files.len(),
        resolve_upto(p, select_all(path), 1) == Ok::<Seq<Option<PicksV>>, SelErr>(
            Seq::new(p.files.len(), |i: int| None::<PicksV>).update(
                resolve_path_spec(p, path)->Ok_0 as int,
                Some(
                    if p.files[resolve_path_spec(p, path)->Ok_0 as int].content is Binary {
                        crate::select::no_picks()
                    } else {
                        every_pick(sub_count(p, resolve_path_spec(p, path)->Ok_0 as int))
                    },
                ),
            ),
        ),
{
    let sels = select_all(path);
    let init = Seq::new(p.files.len(), |i: int| None::<PicksV>);
    assert(resolve_upto(p, sels, 0) == Ok::<Seq<Option<PicksV>>, SelErr>(init));
    reveal(sel_step);
    assert(resolve_upto(p, sels, 1) == file_step(p, init, path, IndexSetV::All));
    if let Some(b) = path {
        if !crate::select::ambiguous(p, b) {
            if exists|i: usize| i < p.files.len() && names_path(p, i as int, b) {
            }
        }
    }
}

/// With one entry chosen, the emitted entries are that entry's alone.
pub(crate) proof fn lemma_emit_one(
    p: PatchV,
    ch: Seq<Option<PicksV>>,
    fi: int,
    pk: PicksV,
    fe: (FileV, bool),
    k: int,
)
    requires
        0 <= fi < p.files.len(),
        ch.len() == p.files.len(),
        0 <= k <= p.files.len(),
        ch[fi] == Some(pk),
        forall|j: int| 0 <= j < ch.len() && j != fi ==> (#[trigger] ch[j]) is None,
        emit_file_spec(p, fi, pk) == Ok::<(FileV, bool), SelErr>(fe),
    ensures
        emit_upto(p, ch, k) == if k <= fi {
            Ok::<(Seq<FileV>, Option<int>, bool), SelErr>((Seq::<FileV>::empty(), None, false))
        } else {
            Ok((seq![fe.0], Some(fi), fe.1))
        },
    decreases k,
{
    if k > 0 {
        lemma_emit_one(p, ch, fi, pk, fe, k - 1);
        if k - 1 == fi {
            assert(Seq::<FileV>::empty().push(fe.0) =~= seq![fe.0]);
        }
    }
}

/// An entry that fails to emit fails the whole selection.
pub(crate) proof fn lemma_emit_err_stays(
    p: PatchV,
    ch: Seq<Option<PicksV>>,
    fi: int,
    pk: PicksV,
    k: int,
)
    requires
        0 <= fi < k <= p.files.len(),
        ch.len() == p.files.len(),
        ch[fi] == Some(pk),
        emit_file_spec(p, fi, pk) is Err,
    ensures
        emit_upto(p, ch, k) is Err,
    decreases k,
{
    if k - 1 > fi {
        lemma_emit_err_stays(p, ch, fi, pk, k - 1);
    }
}

/// What `path:*` makes of a diff: the one entry it names, emitted with every pick, renumbered.
#[verifier::spinoff_prover]
pub(crate) proof fn lemma_select_all_shape(p: PatchV, path: Option<Seq<u8>>)
    requires
        select_spec(p, select_all(path)) is Ok,
    ensures
        resolve_path_spec(p, path) is Ok,
        resolve_path_spec(p, path)->Ok_0 < p.files.len(),
        ({
            let fi = resolve_path_spec(p, path)->Ok_0 as int;
            let pk = if p.files[fi].content is Binary {
                crate::select::no_picks()
            } else {
                every_pick(sub_count(p, fi))
            };
            &&& emit_file_spec(p, fi, pk) is Ok
            &&& select_spec(p, select_all(path)) == Ok::<PatchV, SelErr>(
                renumber_spec(
                    PatchV {
                        preamble: p.preamble,
                        files: seq![emit_file_spec(p, fi, pk)->Ok_0.0],
                        no_trailing_newline: p.no_trailing_newline && fi == p.files.len() - 1
                            && emit_file_spec(p, fi, pk)->Ok_0.1,
                    },
                ),
            )
        }),
{
    let sels = select_all(path);
    let init = Seq::new(p.files.len(), |i: int| None::<PicksV>);
    assert(resolve_upto(p, sels, 0) == Ok::<Seq<Option<PicksV>>, SelErr>(init));
    reveal(sel_step);
    assert(resolve_upto(p, sels, 1) == file_step(p, init, path, IndexSetV::All));
    if resolve_path_spec(p, path) is Ok {
        lemma_resolve_all(p, path);
        let fi = resolve_path_spec(p, path)->Ok_0 as int;
        let pk = if p.files[fi].content is Binary {
            crate::select::no_picks()
        } else {
            every_pick(sub_count(p, fi))
        };
        let ch = init.update(fi, Some(pk));
        assert(!(forall|i: int| 0 <= i < ch.len() ==> (#[trigger] ch[i]) is None)) by {
            assert(ch[fi] is Some);
        }
        if emit_file_spec(p, fi, pk) is Err {
            lemma_emit_err_stays(p, ch, fi, pk, p.files.len() as int);
        }
        let fe = emit_file_spec(p, fi, pk)->Ok_0;
        assert forall|j: int| 0 <= j < ch.len() && j != fi implies (#[trigger] ch[j]) is None by {}
        lemma_emit_one(p, ch, fi, pk, fe, p.files.len() as int);
        assert(emit_selection_spec(p, ch) == Ok::<PatchV, SelErr>(
            PatchV {
                preamble: p.preamble,
                files: seq![fe.0],
                no_trailing_newline: p.no_trailing_newline && fi == p.files.len() - 1 && fe.1,
            },
        ));
    }
}

/// Picking every sub-hunk whole, and none by `@L`, gives the sub-hunks themselves.
pub(crate) proof fn lemma_pick_every(subs: Seq<HunkV>, pk: PicksV, k: int)
    requires
        0 <= k <= subs.len(),
        forall|i: int| 1 <= i <= subs.len() ==> #[trigger] pk.whole.contains(i),
    ensures
        pick_hunks(subs, pk, k) == Ok::<Seq<HunkV>, SelErr>(subs.subrange(0, k)),
    decreases k,
{
    if k > 0 {
        lemma_pick_every(subs, pk, k - 1);
        assert(pk.whole.contains(k));
        assert(subs.subrange(0, k - 1).push(subs[k - 1]) =~= subs.subrange(0, k));
    } else {
        assert(subs.subrange(0, 0) =~= Seq::<HunkV>::empty());
    }
}

/// Without `@L` picks no sub-hunk is picked twice over.
pub(crate) proof fn lemma_no_slices_no_conflict(pk: PicksV, k: int)
    requires
        pk.lines.len() == 0,
    ensures
        first_conflict(pk, k) is None,
    decreases k,
{
    if k > 0 {
        lemma_no_slices_no_conflict(pk, k - 1);
        assert(slice_count(pk.lines, k) == 0);
        assert(!conflict_at(pk, k));
    }
}

/// Every sub-hunk of a run of hunks holds a single change run.
proof fn lemma_subs_one_run(hs: Seq<HunkV>, k: int)
    requires
        0 <= k <= hs.len(),
    ensures
        forall|j: int|
            0 <= j < subs_upto(hs, k).len() ==> run_starts((#[trigger] subs_upto(hs, k)[j]).lines).len() <= 1,
    decreases k,
{
    if k > 0 {
        lemma_subs_one_run(hs, k - 1);
        let a = subs_upto(hs, k - 1);
        let b = auto_split_spec(hs[k - 1]);
        assert forall|j: int| 0 <= j < subs_upto(hs, k).len() implies run_starts(
            (#[trigger] subs_upto(hs, k)[j]).lines,
        ).len() <= 1 by {
            if j < a.len() {
                assert(subs_upto(hs, k)[j] == a[j]);
            } else {
                assert(subs_upto(hs, k)[j] == b[j - a.len()]);
                lemma_piece_one_run(hs[k - 1], j - a.len());
            }
        }
    }
}

/// Hunks with the same bodies keep a context line alike.
proof fn lemma_has_context_same_lines(a: Seq<HunkV>, b: Seq<HunkV>)
    requires
        a.len() == b.len(),
        forall|i: int| 0 <= i < a.len() ==> (#[trigger] a[i]).lines == b[i].lines,
    ensures
        has_context(a) == has_context(b),
{
    if has_context(a) {
        let (i, j) = choose|i: int, j: int|
            0 <= i < a.len() && 0 <= j < a[i].lines.len() && (#[trigger] a[i].lines[j]).kind
                == crate::model::LineKind::Context;
        assert(a[i].lines == b[i].lines);
        assert(b[i].lines[j].kind == crate::model::LineKind::Context);
    }
    if has_context(b) {
        let (i, j) = choose|i: int, j: int|
            0 <= i < b.len() && 0 <= j < b[i].lines.len() && (#[trigger] b[i].lines[j]).kind
                == crate::model::LineKind::Context;
        assert(a[i].lines == b[i].lines);
        assert(a[i].lines[j].kind == crate::model::LineKind::Context);
    }
}

/// The entry `path:*` emits, emitted again from the renumbered result, comes out the same.
#[verifier::rlimit(60)]
#[verifier::spinoff_prover]
proof fn lemma_entry_emits_again(p: PatchV, fi: int, out: PatchV)
    requires
        0 <= fi < p.files.len(),
        sub_count(p, fi) <= usize::MAX,
        emit_file_spec(
            p,
            fi,
            if p.files[fi].content is Binary {
                crate::select::no_picks()
            } else {
                every_pick(sub_count(p, fi))
            },
        ) is Ok,
        out.files == seq![
            crate::renumber::renumber_file(
                emit_file_spec(
                    p,
                    fi,
                    if p.files[fi].content is Binary {
                        crate::select::no_picks()
                    } else {
                        every_pick(sub_count(p, fi))
                    },
                )->Ok_0.0,
            ),
        ],
    ensures
        ({
            let pk = if p.files[fi].content is Binary {
                crate::select::no_picks()
            } else {
                every_pick(sub_count(p, fi))
            };
            let pk2 = if out.files[0].content is Binary {
                crate::select::no_picks()
            } else {
                every_pick(sub_count(out, 0))
            };
            emit_file_spec(out, 0, pk2) == Ok::<(FileV, bool), SelErr>(
                (out.files[0], emit_file_spec(p, fi, pk)->Ok_0.1),
            )
        }),
{
    let f = p.files[fi];
    let pk = if f.content is Binary {
        crate::select::no_picks()
    } else {
        every_pick(sub_count(p, fi))
    };
    let fe = emit_file_spec(p, fi, pk)->Ok_0;
    let g = out.files[0];
    match f.content {
        ContentV::Binary(_) => {
            let tr1 = tail_upto(f.trailer, 0, 0, f.trailer.len() as int);
            assert(fe.0.trailer == tr1);
            assert(g == fe.0);
            lemma_tail_anchors(f.trailer, 0, 0, f.trailer.len() as int);
            lemma_tail_keeps(tr1, 0, tr1.len() as int);
            assert(tr1.subrange(0, tr1.len() as int) =~= tr1);
        },
        ContentV::Text(hs) => {
            let subs = file_subs_spec(f);
            let n = subs.len();
            lemma_no_slices_no_conflict(pk, n as int);
            lemma_pick_every(subs, pk, n as int);
            assert(subs.subrange(0, n as int) =~= subs);
            let tr1 = tail_upto(f.trailer, hs.len() as int, n as usize, f.trailer.len() as int);
            assert(fe.0 == FileV {
                headers: f.headers,
                trailer: tr1,
                old_path: f.old_path,
                new_path: f.new_path,
                content: ContentV::Text(subs),
            });
            let rh = crate::renumber::renumber_hunks(subs);
            assert(g == FileV { content: ContentV::Text(rh), ..fe.0 });
            assert forall|i: int| 0 <= i < rh.len() implies (#[trigger] rh[i]).lines
                == subs[i].lines by {}
            lemma_subs_one_run(hs, hs.len() as int);
            assert forall|j: int| 0 <= j < rh.len() implies run_starts(
                (#[trigger] rh[j]).lines,
            ).len() <= 1 by {
                assert(rh[j].lines == subs[j].lines);
            }
            lemma_subs_of_single_runs(rh, rh.len() as int);
            assert(rh.subrange(0, rh.len() as int) =~= rh);
            assert(file_subs_spec(g) == rh);
            assert(sub_count(out, 0) == n);
            let pk2 = every_pick(n);
            lemma_no_slices_no_conflict(pk2, n as int);
            lemma_pick_every(rh, pk2, n as int);
            lemma_has_context_same_lines(rh, subs);
            lemma_tail_anchors(f.trailer, hs.len() as int, n as usize, f.trailer.len() as int);
            lemma_tail_keeps(tr1, n as usize, tr1.len() as int);
            assert(tr1.subrange(0, tr1.len() as int) =~= tr1);
            assert(n > 0 ==> pk.whole.contains(n as int));
            assert(n > 0 ==> pk2.whole.contains(n as int));
        },
    }
}

/// Selecting, with the same `path:*` (or bare `*`), every sub-hunk of what that selector
/// selected gives the selection back unchanged: `*` over the tool's own result is a fixed
/// point. Shown for diffs whose entries have at most `usize::MAX` sub-hunks, as any diff held
/// in memory does.
#[verifier::spinoff_prover]
pub proof fn lemma_select_all_is_a_fixed_point(p: PatchV, path: Option<Seq<u8>>)
    requires
        select_spec(p, select_all(path)) is Ok,
        forall|i: int| 0 <= i < p.files.len() ==> #[trigger] sub_count(p, i) <= usize::MAX,
    ensures
        select_spec(select_spec(p, select_all(path))->Ok_0, select_all(path)) == select_spec(
            p,
            select_all(path),
        ),
{
    lemma_select_all_shape(p, path);
    let fi = resolve_path_spec(p, path)->Ok_0 as int;
    let f = p.files[fi];
    let pk = if f.content is Binary {
        crate::select::no_picks()
    } else {
        every_pick(sub_count(p, fi))
    };
    let fe = emit_file_spec(p, fi, pk)->Ok_0;
    let e1 = PatchV {
        preamble: p.preamble,
        files: seq![fe.0],
        no_trailing_newline: p.no_trailing_newline && fi == p.files.len() - 1 && fe.1,
    };
    let out = renumber_spec(e1);
    lemma_renumber_moves_only_new_starts(e1);
    assert(out.files =~= seq![crate::renumber::renumber_file(fe.0)]);
    assert(sub_count(p, fi) <= usize::MAX);
    lemma_entry_emits_again(p, fi, out);
    let g = out.files[0];
    assert(g.old_path == f.old_path && g.new_path == f.new_path);
    assert(resolve_path_spec(out, path) == Ok::<usize, SelErr>(0)) by {
        if let Some(b) = path {
            assert(names_path(p, fi, b));
            assert(names_path(out, 0, b));
            assert(!crate::select::ambiguous(out, b));
            assert(exists|i: usize| i < out.files.len() && names_path(out, i as int, b)) by {
                assert(names_path(out, 0usize as int, b));
            }
        }
    }
    lemma_resolve_all(out, path);
    let pk2 = if g.content is Binary {
        crate::select::no_picks()
    } else {
        every_pick(sub_count(out, 0))
    };
    let init2 = Seq::new(out.files.len(), |i: int| None::<PicksV>);
    let ch2 = init2.update(0, Some(pk2));
    assert(!(forall|i: int| 0 <= i < ch2.len() ==> (#[trigger] ch2[i]) is None)) by {
        assert(ch2[0] is Some);
    }
    assert forall|j: int| 0 <= j < ch2.len() && j != 0 implies (#[trigger] ch2[j]) is None by {}
    lemma_emit_one(out, ch2, 0, pk2, (g, fe.1), 1);
    assert(emit_selection_spec(out, ch2) == Ok::<PatchV, SelErr>(out)) by {
        assert(seq![g] =~= out.files);
    }
    lemma_renumber_idempotent(e1);
}

} // verus!
