//! How much a selection holds: an `@<id>` selector picks exactly the sub-hunks that share the
//! id, as many as the listing counts for it, and selecting everything keeps the change counts.

use crate::list::hash_count;
use crate::model::{count_of, lemma_count_concat, ContentV, FileV, HunkV, LineKind, PatchV};
use crate::renumber::{lemma_renumber_moves_only_new_starts, renumber_spec};
use crate::reselect::{
    every_pick, lemma_no_slices_no_conflict, lemma_pick_every, lemma_select_all_shape, select_all,
};
use crate::select::{
    add_matches, emit_file_spec, file_fits, resolve_path_spec, subs_upto, emit_selection_spec, emit_upto, file_matches, file_subs_spec,
    id_matches, id_step, parse_hex_spec, pick_hunks, picks_of, resolve_upto, sel_step,
    select_spec, sub_count, PicksV, SelErr, SelectorV,
};
use crate::split::{auto_split_spec, concat_bodies, lemma_auto_split_covers, splits_fit};
use crate::subhunk_id::subhunk_hash_spec;
use vstd::prelude::*;

verus! {

/// How many hunks the text entries of `files` hold.
pub open spec fn hunk_total(files: Seq<FileV>) -> nat
    decreases files.len(),
{
    if files.len() == 0 {
        0
    } else {
        hunk_total(files.drop_last()) + files.last().content.hunk_count()
    }
}

/// The sub-hunks among the first `k` of `subs` whose 1-based index is in `w`, in order.
pub open spec fn kept(subs: Seq<HunkV>, w: Set<int>, k: int) -> Seq<HunkV>
    decreases k,
{
    if k <= 0 {
        Seq::empty()
    } else if w.contains(k) {
        kept(subs, w, k - 1).push(subs[k - 1])
    } else {
        kept(subs, w, k - 1)
    }
}

proof fn lemma_pick_whole_only(subs: Seq<HunkV>, pk: PicksV, k: int)
    requires
        pk.lines.len() == 0,
    ensures
        pick_hunks(subs, pk, k) == Ok::<Seq<HunkV>, SelErr>(kept(subs, pk.whole, k)),
    decreases k,
{
    if k > 0 {
        lemma_pick_whole_only(subs, pk, k - 1);
        assert(crate::select::slice_sel(pk.lines, k) is None);
    }
}

/// The content hash of the `x`-th (1-based) sub-hunk of file entry `fi`.
pub open spec fn sub_hash(p: PatchV, fi: int, x: int) -> u64 {
    subhunk_hash_spec(p.files[fi], file_subs_spec(p.files[fi])[x - 1])
}

/// One of the first `k` matches names sub-hunk `x` of file entry `fi`.
pub open spec fn in_prefix(ms: Seq<(usize, usize)>, fi: int, x: int, k: int) -> bool {
    exists|j: int| 0 <= j < k && ms[j].0 == fi && ms[j].1 == x
}

/// The 1-based sub-hunk indices the first `k` matches record for file entry `fi`.
pub open spec fn matched_in(ms: Seq<(usize, usize)>, fi: int, k: int) -> Set<int> {
    Set::new(|x: int| in_prefix(ms, fi, x, k))
}

/// Taking the first `k` matches whole leaves every file entry with exactly the sub-hunks they
/// name, and no `@L` pick.
proof fn lemma_add_matches_shape(ch: Seq<Option<PicksV>>, ms: Seq<(usize, usize)>, k: int)
    requires
        0 <= k <= ms.len(),
        forall|j: int| 0 <= j < ch.len() ==> (#[trigger] ch[j]) is None,
        forall|j: int| 0 <= j < ms.len() ==> (#[trigger] ms[j]).0 < ch.len(),
    ensures
        add_matches(ch, ms, k).len() == ch.len(),
        forall|fi: int|
            0 <= fi < ch.len() ==> (#[trigger] add_matches(ch, ms, k)[fi]) == if exists|j: int|
                0 <= j < k && ms[j].0 == fi {
                Some(PicksV { whole: matched_in(ms, fi, k), lines: Seq::empty() })
            } else {
                None::<PicksV>
            },
    decreases k,
{
    if k > 0 {
        lemma_add_matches_shape(ch, ms, k - 1);
        let c = add_matches(ch, ms, k - 1);
        let g = ms[k - 1].0 as int;
        assert forall|fi: int| 0 <= fi < ch.len() implies (#[trigger] add_matches(ch, ms, k)[fi])
            == if exists|j: int| 0 <= j < k && ms[j].0 == fi {
            Some(PicksV { whole: matched_in(ms, fi, k), lines: Seq::empty() })
        } else {
            None::<PicksV>
        } by {
            if fi == g {
                assert(ms[k - 1].0 == fi);
                assert(picks_of(c, fi).whole.insert(ms[k - 1].1 as int) =~= matched_in(ms, fi, k))
                    by {
                    assert forall|x: int| #[trigger] matched_in(ms, fi, k).contains(x) implies picks_of(
                        c,
                        fi,
                    ).whole.insert(ms[k - 1].1 as int).contains(x) by {
                        let j = choose|j: int| 0 <= j < k && ms[j].0 == fi && ms[j].1 == x;
                        if j < k - 1 {
                            assert(matched_in(ms, fi, k - 1).contains(x));
                        }
                    }
                }
                assert(picks_of(c, fi).lines == Seq::<(int, Seq<usize>)>::empty());
            } else {
                assert(add_matches(ch, ms, k)[fi] == c[fi]);
                if exists|j: int| 0 <= j < k && ms[j].0 == fi {
                    let j = choose|j: int| 0 <= j < k && ms[j].0 == fi;
                    assert(j != k - 1);
                    assert(matched_in(ms, fi, k) =~= matched_in(ms, fi, k - 1)) by {
                        assert forall|x: int| #[trigger] matched_in(ms, fi, k).contains(x) implies matched_in(
                            ms,
                            fi,
                            k - 1,
                        ).contains(x) by {
                            let j2 = choose|j2: int| 0 <= j2 < k && ms[j2].0 == fi && ms[j2].1 == x;
                            assert(j2 != k - 1);
                        }
                    }
                } else {
                    assert(!exists|j: int| 0 <= j < k - 1 && ms[j].0 == fi) by {
                        if exists|j: int| 0 <= j < k - 1 && ms[j].0 == fi {
                            let j = choose|j: int| 0 <= j < k - 1 && ms[j].0 == fi;
                            assert(0 <= j < k && ms[j].0 == fi);
                        }
                    }
                }
            }
        }
    }
}

/// A match of file entry `fi` names one of its sub-hunks whose hash is `t`, and every such
/// sub-hunk is named.
#[verifier::spinoff_prover]
#[verifier::rlimit(30)]
proof fn lemma_file_matches(p: PatchV, t: u64, fi: int, k: int)
    requires
        0 <= fi <= usize::MAX,
        0 <= k <= usize::MAX,
    ensures
        forall|j: int|
            0 <= j < file_matches(p, t, fi, k).len() ==> (#[trigger] file_matches(p, t, fi, k)[j]).0
                == fi && 1 <= file_matches(p, t, fi, k)[j].1 <= k && sub_hash(
                p,
                fi,
                file_matches(p, t, fi, k)[j].1 as int,
            ) == t,
        forall|x: int|
            1 <= x <= k && #[trigger] sub_hash(p, fi, x) == t ==> in_prefix(
                file_matches(p, t, fi, k),
                fi,
                x,
                file_matches(p, t, fi, k).len() as int,
            ),
    decreases k,
{
    if k > 0 {
        lemma_file_matches(p, t, fi, k - 1);
        let prev = file_matches(p, t, fi, k - 1);
        let cur = file_matches(p, t, fi, k);
        if sub_hash(p, fi, k) == t {
            assert(cur == prev.push((fi as usize, k as usize)));
            assert((fi as usize) as int == fi && (k as usize) as int == k);
            assert forall|j: int| 0 <= j < cur.len() implies (#[trigger] cur[j]).0 == fi && 1
                <= cur[j].1 <= k && sub_hash(p, fi, cur[j].1 as int) == t by {
                if j < prev.len() {
                    assert(cur[j] == prev[j]);
                }
            }
            assert forall|x: int| 1 <= x <= k && #[trigger] sub_hash(p, fi, x) == t implies in_prefix(
                cur,
                fi,
                x,
                cur.len() as int,
            ) by {
                if x == k {
                    assert(cur[prev.len() as int] == (fi as usize, k as usize));
                } else {
                    assert(in_prefix(prev, fi, x, prev.len() as int));
                    let j = choose|j: int| 0 <= j < prev.len() && prev[j].0 == fi && prev[j].1 == x;
                    assert(cur[j] == prev[j]);
                }
            }
        } else {
            assert(cur == prev);
            assert forall|x: int| 1 <= x <= k && #[trigger] sub_hash(p, fi, x) == t implies in_prefix(
                cur,
                fi,
                x,
                cur.len() as int,
            ) by {
                assert(x != k);
            }
        }
    }
}

/// Whether the matches of the first `m` entries name sub-hunk `x` of entry `fi`: exactly when
/// `fi` is among them and that sub-hunk's hash is `t`.
proof fn lemma_id_matches(p: PatchV, t: u64, m: int)
    requires
        0 <= m <= p.files.len(),
        p.files.len() <= usize::MAX,
        forall|i: int| 0 <= i < p.files.len() ==> #[trigger] sub_count(p, i) <= usize::MAX,
    ensures
        forall|j: int|
            0 <= j < id_matches(p, t, m).len() ==> (#[trigger] id_matches(p, t, m)[j]).0 < m,
        forall|fi: int, x: int|
            0 <= fi < m ==> (#[trigger] in_prefix(
                id_matches(p, t, m),
                fi,
                x,
                id_matches(p, t, m).len() as int,
            ) <==> (1 <= x <= sub_count(p, fi) && sub_hash(p, fi, x) == t)),
    decreases m,
{
    if m > 0 {
        lemma_id_matches(p, t, m - 1);
        let a = id_matches(p, t, m - 1);
        let nf = sub_count(p, m - 1) as int;
        let b = file_matches(p, t, m - 1, nf);
        let c = id_matches(p, t, m);
        assert(c == a + b);
        assert(sub_count(p, m - 1) <= usize::MAX);
        lemma_file_matches(p, t, m - 1, nf);
        assert forall|j: int| 0 <= j < c.len() implies (#[trigger] c[j]).0 < m by {
            if j < a.len() {
                assert(c[j] == a[j]);
            } else {
                assert(c[j] == b[j - a.len()]);
            }
        }
        assert forall|fi: int, x: int| 0 <= fi < m implies (#[trigger] in_prefix(
            c,
            fi,
            x,
            c.len() as int,
        ) <==> (1 <= x <= sub_count(p, fi) && sub_hash(p, fi, x) == t)) by {
            if in_prefix(c, fi, x, c.len() as int) {
                let j = choose|j: int| 0 <= j < c.len() && c[j].0 == fi && c[j].1 == x;
                if j < a.len() {
                    assert(c[j] == a[j]);
                    assert(a[j].0 < m - 1);
                    assert(in_prefix(a, fi, x, a.len() as int));
                } else {
                    assert(c[j] == b[j - a.len()]);
                }
            }
            if 1 <= x <= sub_count(p, fi) && sub_hash(p, fi, x) == t {
                if fi == m - 1 {
                    assert(in_prefix(b, fi, x, b.len() as int));
                    let j = choose|j: int| 0 <= j < b.len() && b[j].0 == fi && b[j].1 == x;
                    assert(c[a.len() + j] == b[j]);
                } else {
                    assert(in_prefix(a, fi, x, a.len() as int));
                    let j = choose|j: int| 0 <= j < a.len() && a[j].0 == fi && a[j].1 == x;
                    assert(c[j] == a[j]);
                }
            }
        }
    }
}

/// The kept sub-hunks number as many as the matches of their entry, when the kept indices are
/// exactly those of the sub-hunks whose hash is `t`.
proof fn lemma_kept_counts_matches(p: PatchV, t: u64, fi: int, w: Set<int>, k: int)
    requires
        0 <= fi,
        0 <= k <= file_subs_spec(p.files[fi]).len(),
        forall|x: int|
            1 <= x <= file_subs_spec(p.files[fi]).len() ==> (#[trigger] w.contains(x)
                <==> sub_hash(p, fi, x) == t),
    ensures
        kept(file_subs_spec(p.files[fi]), w, k).len() == file_matches(p, t, fi, k).len(),
    decreases k,
{
    if k > 0 {
        lemma_kept_counts_matches(p, t, fi, w, k - 1);
        assert(w.contains(k) <==> subhunk_hash_spec(p.files[fi], file_subs_spec(p.files[fi])[k - 1])
            == t);
    }
}

/// The emitted entries of the first `k` files hold as many hunks as the first `k` entries have
/// matches.
proof fn lemma_emit_counts(p: PatchV, t: u64, ch: Seq<Option<PicksV>>, k: int)
    requires
        0 <= k <= p.files.len(),
        ch.len() == p.files.len(),
        emit_upto(p, ch, k) is Ok,
        forall|fi: int|
            0 <= fi < p.files.len() ==> match #[trigger] ch[fi] {
                None => file_matches(p, t, fi, sub_count(p, fi) as int).len() == 0,
                Some(pk) => pk.lines.len() == 0 && forall|x: int|
                    1 <= x <= sub_count(p, fi) ==> (#[trigger] pk.whole.contains(x)
                        <==> sub_hash(p, fi, x)
                        == t),
            },
    ensures
        hunk_total(emit_upto(p, ch, k)->Ok_0.0) == id_matches(p, t, k).len(),
    decreases k,
{
    if k > 0 {
        let fi = k - 1;
        lemma_emit_counts(p, t, ch, k - 1);
        let acc = emit_upto(p, ch, k - 1)->Ok_0;
        let nf = sub_count(p, fi) as int;
        let fm = file_matches(p, t, fi, nf);
        assert(id_matches(p, t, k) == id_matches(p, t, k - 1) + fm);
        match ch[fi] {
            None => {},
            Some(pk) => {
                let fe = emit_file_spec(p, fi, pk)->Ok_0;
                assert(emit_upto(p, ch, k)->Ok_0.0 == acc.0.push(fe.0));
                assert(acc.0.push(fe.0).drop_last() =~= acc.0);
                let subs = file_subs_spec(p.files[fi]);
                match p.files[fi].content {
                    ContentV::Binary(_) => {
                        assert(nf == 0);
                        assert(fm.len() == 0);
                    },
                    ContentV::Text(_) => {
                        lemma_no_slices_no_conflict(pk, nf);
                        lemma_pick_whole_only(subs, pk, nf);
                        lemma_kept_counts_matches(p, t, fi, pk.whole, nf);
                        assert(fe.0.content == ContentV::Text(kept(subs, pk.whole, nf)));
                    },
                }
            },
        }
    }
}

proof fn lemma_hunk_total_same(a: Seq<FileV>, b: Seq<FileV>)
    requires
        a.len() == b.len(),
        forall|i: int| 0 <= i < a.len() ==> (#[trigger] a[i]).content.hunk_count() == b[i].content.hunk_count(),
    ensures
        hunk_total(a) == hunk_total(b),
    decreases a.len(),
{
    if a.len() > 0 {
        assert forall|i: int| 0 <= i < a.len() - 1 implies (#[trigger] a.drop_last()[i]).content.hunk_count()
            == b.drop_last()[i].content.hunk_count() by {
            assert(a.drop_last()[i] == a[i]);
            assert(b.drop_last()[i] == b[i]);
        }
        lemma_hunk_total_same(a.drop_last(), b.drop_last());
        assert(a.last() == a[a.len() - 1]);
    }
}

/// An `@<id>` selector picks exactly the sub-hunks whose content hash the id names, across
/// every entry: the selection holds as many hunks as the listing's `id_count` for that id.
/// Shown for diffs whose entries, and each entry's sub-hunks, number at most `usize::MAX`, as
/// any diff held in memory does.
pub proof fn lemma_id_selects_its_count(p: PatchV, id: Seq<char>)
    requires
        select_spec(p, seq![SelectorV::Id(id)]) is Ok,
        p.files.len() <= usize::MAX,
        forall|i: int| 0 <= i < p.files.len() ==> #[trigger] sub_count(p, i) <= usize::MAX,
    ensures
        parse_hex_spec(vstd::utf8::encode_utf8(id)) is Some,
        hunk_total(select_spec(p, seq![SelectorV::Id(id)])->Ok_0.files) == hash_count(
            p,
            parse_hex_spec(vstd::utf8::encode_utf8(id))->Some_0,
        ),
{
    let sels = seq![SelectorV::Id(id)];
    let n = p.files.len() as int;
    let init = Seq::new(p.files.len(), |i: int| None::<PicksV>);
    assert(resolve_upto(p, sels, 0) == Ok::<Seq<Option<PicksV>>, SelErr>(init));
    reveal(sel_step);
    assert(resolve_upto(p, sels, 1) == id_step(p, init, id));
    let t = parse_hex_spec(vstd::utf8::encode_utf8(id))->Some_0;
    let ms = id_matches(p, t, n);
    lemma_id_matches(p, t, n);
    assert forall|j: int| 0 <= j < ms.len() implies (#[trigger] ms[j]).0 < init.len() by {}
    let ch = add_matches(init, ms, ms.len() as int);
    lemma_add_matches_shape(init, ms, ms.len() as int);
    assert forall|fi: int| 0 <= fi < p.files.len() implies match #[trigger] ch[fi] {
        None => file_matches(p, t, fi, sub_count(p, fi) as int).len() == 0,
        Some(pk) => pk.lines.len() == 0 && forall|x: int|
            1 <= x <= sub_count(p, fi) ==> (#[trigger] pk.whole.contains(x) <==> sub_hash(
                p,
                fi,
                x,
            ) == t),
    } by {
        let nf = sub_count(p, fi) as int;
        let fm = file_matches(p, t, fi, nf);
        assert(sub_count(p, fi) <= usize::MAX);
        lemma_file_matches(p, t, fi, nf);
        match ch[fi] {
            None => {
                if fm.len() > 0 {
                    let x = fm[0].1 as int;
                    assert(1 <= x <= nf && sub_hash(p, fi, x) == t);
                    assert(in_prefix(ms, fi, x, ms.len() as int));
                    let j = choose|j: int| 0 <= j < ms.len() && ms[j].0 == fi && ms[j].1 == x;
                    assert(0 <= j < ms.len() && ms[j].0 == fi);
                }
            },
            Some(pk) => {
                assert(pk.whole == matched_in(ms, fi, ms.len() as int));
                assert forall|x: int| 1 <= x <= nf implies (#[trigger] pk.whole.contains(x)
                    <==> sub_hash(p, fi, x) == t) by {
                    assert(pk.whole.contains(x) == in_prefix(ms, fi, x, ms.len() as int));
                }
            },
        }
    }
    assert(!(forall|i: int| 0 <= i < ch.len() ==> (#[trigger] ch[i]) is None)) by {
        let fi = ms[0].0 as int;
        assert(0 <= 0 < ms.len() && ms[0].0 == fi);
        assert(ch[fi] is Some);
    }
    let e = emit_selection_spec(p, ch)->Ok_0;
    lemma_emit_counts(p, t, ch, n);
    lemma_renumber_moves_only_new_starts(e);
    let out = renumber_spec(e);
    assert forall|i: int| 0 <= i < out.files.len() implies (#[trigger] out.files[i]).content.hunk_count()
        == e.files[i].content.hunk_count() by {
        assert(e.files[i] == e.files[i]);
    }
    lemma_hunk_total_same(out.files, e.files);
}

/// How many body lines of kind `k` the hunks `hs` hold together.
pub open spec fn lines_of_kind(hs: Seq<HunkV>, k: LineKind) -> nat
    decreases hs.len(),
{
    if hs.len() == 0 {
        0
    } else {
        lines_of_kind(hs.drop_last(), k) + count_of(hs.last().lines, k)
    }
}

proof fn lemma_lines_of_kind_concat(a: Seq<HunkV>, b: Seq<HunkV>, k: LineKind)
    ensures
        lines_of_kind(a + b, k) == lines_of_kind(a, k) + lines_of_kind(b, k),
    decreases b.len(),
{
    if b.len() == 0 {
        assert(a + b =~= a);
    } else {
        lemma_lines_of_kind_concat(a, b.drop_last(), k);
        assert((a + b).drop_last() =~= a + b.drop_last());
        assert((a + b).last() == b.last());
    }
}

proof fn lemma_lines_of_kind_bodies(ps: Seq<HunkV>, k: LineKind)
    ensures
        lines_of_kind(ps, k) == count_of(concat_bodies(ps), k),
    decreases ps.len(),
{
    if ps.len() > 0 {
        lemma_lines_of_kind_bodies(ps.drop_last(), k);
        lemma_count_concat(concat_bodies(ps.drop_last()), ps.last().lines, k);
    }
}

/// The sub-hunks of hunks that can be auto-split hold the hunks' lines, kind by kind.
proof fn lemma_subs_keep_kinds(hs: Seq<HunkV>, n: int, k: LineKind)
    requires
        0 <= n <= hs.len(),
        forall|j: int| 0 <= j < hs.len() ==> splits_fit(#[trigger] hs[j]),
    ensures
        lines_of_kind(subs_upto(hs, n), k) == lines_of_kind(hs.subrange(0, n), k),
    decreases n,
{
    if n > 0 {
        lemma_subs_keep_kinds(hs, n - 1, k);
        let h = hs[n - 1];
        assert(splits_fit(h));
        lemma_auto_split_covers(h);
        lemma_lines_of_kind_bodies(auto_split_spec(h), k);
        lemma_lines_of_kind_concat(subs_upto(hs, n - 1), auto_split_spec(h), k);
        assert(hs.subrange(0, n).drop_last() =~= hs.subrange(0, n - 1));
    } else {
        assert(hs.subrange(0, 0) =~= Seq::<HunkV>::empty());
    }
}

proof fn lemma_lines_of_kind_same(a: Seq<HunkV>, b: Seq<HunkV>, k: LineKind)
    requires
        a.len() == b.len(),
        forall|i: int| 0 <= i < a.len() ==> (#[trigger] a[i]).lines == b[i].lines,
    ensures
        lines_of_kind(a, k) == lines_of_kind(b, k),
    decreases a.len(),
{
    if a.len() > 0 {
        assert forall|i: int| 0 <= i < a.len() - 1 implies (#[trigger] a.drop_last()[i]).lines
            == b.drop_last()[i].lines by {
            assert(a.drop_last()[i] == a[i]);
            assert(b.drop_last()[i] == b[i]);
        }
        lemma_lines_of_kind_same(a.drop_last(), b.drop_last(), k);
        assert(a.last() == a[a.len() - 1]);
    }
}

/// Selecting every sub-hunk of a text entry with `path:*` (or a bare `*`) keeps its change
/// counts: the selection adds and deletes, line for line, what the entry's hunks do. Shown for
/// entries whose hunks can be auto-split, as every loaded diff's can.
pub proof fn lemma_select_all_keeps_change_counts(p: PatchV, path: Option<Seq<u8>>, k: LineKind)
    requires
        select_spec(p, select_all(path)) is Ok,
        p.files[resolve_path_spec(p, path)->Ok_0 as int].content is Text,
        file_fits(p.files[resolve_path_spec(p, path)->Ok_0 as int]),
    ensures
        ({
            let out = select_spec(p, select_all(path))->Ok_0;
            let f = p.files[resolve_path_spec(p, path)->Ok_0 as int];
            &&& out.files.len() == 1
            &&& out.files[0].content is Text
            &&& lines_of_kind(out.files[0].content->Text_0, k) == lines_of_kind(
                f.content->Text_0,
                k,
            )
        }),
{
    lemma_select_all_shape(p, path);
    let fi = resolve_path_spec(p, path)->Ok_0 as int;
    let f = p.files[fi];
    let hs = f.content->Text_0;
    let subs = file_subs_spec(f);
    let n = subs.len() as int;
    let pk = every_pick(sub_count(p, fi));
    lemma_no_slices_no_conflict(pk, n);
    lemma_pick_every(subs, pk, n);
    assert(subs.subrange(0, n) =~= subs);
    let fe = emit_file_spec(p, fi, pk)->Ok_0;
    assert(fe.0.content == ContentV::Text(subs));
    let e = PatchV {
        preamble: p.preamble,
        files: seq![fe.0],
        no_trailing_newline: p.no_trailing_newline && fi == p.files.len() - 1 && fe.1,
    };
    lemma_renumber_moves_only_new_starts(e);
    let rs = renumber_spec(e).files[0].content->Text_0;
    assert(e.files[0] == fe.0);
    lemma_lines_of_kind_same(rs, subs, k);
    lemma_subs_keep_kinds(hs, hs.len() as int, k);
    assert(hs.subrange(0, hs.len() as int) =~= hs);
}

/// The net change the hunks before `i` make: lines added less lines deleted, over all of them.
pub open spec fn net_before(hs: Seq<HunkV>, i: int) -> int {
    lines_of_kind(hs.subrange(0, i), LineKind::Add) - lines_of_kind(hs.subrange(0, i), LineKind::Del)
}

proof fn lemma_net_before_step(hs: Seq<HunkV>, i: int)
    requires
        0 < i <= hs.len(),
    ensures
        net_before(hs, i) == net_before(hs, i - 1) + count_of(hs[i - 1].lines, LineKind::Add)
            - count_of(hs[i - 1].lines, LineKind::Del),
{
    assert(hs.subrange(0, i).drop_last() =~= hs.subrange(0, i - 1));
    assert(hs.subrange(0, i).last() == hs[i - 1]);
}

/// The shift renumbering applies before hunk `i` of an entry is the net change of every hunk
/// before it in the entry, not of the one just before it alone.
pub proof fn lemma_renumber_shift_is_the_net_change_before(hs: Seq<HunkV>, i: int)
    requires
        0 <= i <= hs.len(),
    ensures
        crate::renumber::delta_before(hs, i) == net_before(hs, i),
        i < hs.len() ==> crate::renumber::renumber_hunks(hs)[i].new_start
            == crate::renumber::expected_new_start_spec(hs[i], net_before(hs, i)),
    decreases i,
{
    if i > 0 {
        lemma_renumber_shift_is_the_net_change_before(hs, i - 1);
        lemma_net_before_step(hs, i);
    } else {
        assert(hs.subrange(0, 0) =~= Seq::<HunkV>::empty());
    }
}

/// The check of an entry's hunks carries, after hunk `i`, the net change of every hunk up to
/// it: the new-side start it expects of each hunk is shifted by all the hunks before it.
pub proof fn lemma_check_carries_the_net_change(
    hs: Seq<HunkV>,
    path: Seq<char>,
    check_new_start: bool,
    i: int,
)
    requires
        0 <= i <= hs.len(),
        crate::validate::file_scan(hs, path, check_new_start, i) is Ok,
    ensures
        crate::validate::file_scan(hs, path, check_new_start, i)->Ok_0.2 == net_before(hs, i),
    decreases i,
{
    if i > 0 {
        lemma_check_carries_the_net_change(hs, path, check_new_start, i - 1);
        lemma_net_before_step(hs, i);
    } else {
        assert(hs.subrange(0, 0) =~= Seq::<HunkV>::empty());
    }
}

} // verus!
