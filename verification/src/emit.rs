//! Render a patch back to a unified diff.

use crate::bytes::{
    at2_minus, at2_minus_bytes, dec, fmt_dec, push_all, push_dec, space_at2, space_at2_bytes,
    space_plus, space_plus_bytes, strip_cr, strip_cr_exec,
};
use crate::model::{
    body_view, files_view, hunks_view, lines_view, ContentV, FileContent, FileDiff, FileV, Hunk,
    HunkV, Line, LineKind, LineV, Patch, PatchV,
};
use vstd::prelude::*;

verus! {

/// Each of `ls` followed by a newline, concatenated.
pub open spec fn join_lines(ls: Seq<Seq<u8>>) -> Seq<u8>
    decreases ls.len(),
{
    if ls.len() == 0 {
        Seq::empty()
    } else {
        join_lines(ls.drop_last()) + ls.last().push(10u8)
    }
}

/// A hunk header range as git writes it: the count is left out when it is one.
pub open spec fn range_text(start: u32, count: u32) -> Seq<u8> {
    if count == 1 {
        dec(start as nat)
    } else {
        dec(start as nat) + seq![44u8] + dec(count as nat)
    }
}

/// The section text of a header without the CR a CRLF diff leaves at its end.
pub open spec fn section_of(h: HunkV) -> Seq<u8> {
    strip_cr(h.section)
}

/// The `@@ -os,ol +ns,nl @@ section` line of a hunk, with its newline. The section is written
/// raw (CR and all), preceded by a space only when it says something besides that CR.
pub open spec fn header_text(h: HunkV) -> Seq<u8> {
    at2_minus() + range_text(h.old_start, h.old_lines) + space_plus() + range_text(
        h.new_start,
        h.new_lines,
    ) + space_at2() + (if section_of(h).len() > 0 {
        seq![32u8]
    } else {
        Seq::empty()
    }) + h.section + seq![10u8]
}

/// The marker byte of a body line.
pub open spec fn marker_of(k: LineKind) -> u8 {
    match k {
        LineKind::Context => 32u8,
        LineKind::Add => 43u8,
        LineKind::Del => 45u8,
    }
}

/// One body line as written: marker, text, newline, and its no-newline note if it has one.
pub open spec fn line_text(l: LineV) -> Seq<u8> {
    seq![marker_of(l.kind)] + l.text + seq![10u8] + match l.no_newline {
        Some(m) => m.push(10u8),
        None => Seq::empty(),
    }
}

pub open spec fn body_text(lines: Seq<LineV>) -> Seq<u8>
    decreases lines.len(),
{
    if lines.len() == 0 {
        Seq::empty()
    } else {
        body_text(lines.drop_last()) + line_text(lines.last())
    }
}

pub open spec fn hunk_text(h: HunkV) -> Seq<u8> {
    header_text(h) + body_text(h.lines)
}

/// Where the trailer cursor stops when it flushes the entries recorded no later than hunk
/// `at`, starting from `from`: the first entry from there on tagged past `at`.
pub open spec fn stop(tr: Seq<(usize, Seq<u8>)>, from: nat, at: nat) -> nat
    decreases tr.len() - from,
{
    if from >= tr.len() || tr[from as int].0 > at {
        from
    } else {
        stop(tr, from + 1, at)
    }
}

/// The trailer cursor after the first `i` hunks of a file have been written.
pub open spec fn cursor(tr: Seq<(usize, Seq<u8>)>, i: nat) -> nat
    decreases i,
{
    if i == 0 {
        0
    } else {
        stop(tr, cursor(tr, (i - 1) as nat), i)
    }
}

pub open spec fn trailer_lines(tr: Seq<(usize, Seq<u8>)>) -> Seq<Seq<u8>> {
    tr.map_values(|e: (usize, Seq<u8>)| e.1)
}

/// The first `i` hunks of a file, each followed by the trailer lines recorded after it.
pub open spec fn hunks_text(hunks: Seq<HunkV>, tr: Seq<(usize, Seq<u8>)>, i: nat) -> Seq<u8>
    decreases i,
{
    if i == 0 {
        Seq::empty()
    } else {
        hunks_text(hunks, tr, (i - 1) as nat) + hunk_text(hunks[i - 1]) + join_lines(
            trailer_lines(tr.subrange(cursor(tr, (i - 1) as nat) as int, cursor(tr, i) as int)),
        )
    }
}

/// One file entry as written: headers, body, and whatever of its trailer is left.
pub open spec fn file_text(f: FileV) -> Seq<u8> {
    join_lines(f.headers) + match f.content {
        ContentV::Binary(b) => join_lines(b) + join_lines(trailer_lines(f.trailer)),
        ContentV::Text(h) => hunks_text(h, f.trailer, h.len()) + join_lines(
            trailer_lines(f.trailer.skip(cursor(f.trailer, h.len()) as int)),
        ),
    }
}

pub open spec fn files_text(files: Seq<FileV>) -> Seq<u8>
    decreases files.len(),
{
    if files.len() == 0 {
        Seq::empty()
    } else {
        files_text(files.drop_last()) + file_text(files.last())
    }
}

/// Every line of the patch with its newline.
pub open spec fn patch_lines_text(p: PatchV) -> Seq<u8> {
    join_lines(p.preamble) + files_text(p.files)
}

/// The bytes [`emit`] writes for a patch: every line with its newline, less the final newline
/// when the input had none.
pub open spec fn patch_text(p: PatchV) -> Seq<u8> {
    let t = patch_lines_text(p);
    if p.no_trailing_newline && t.len() > 0 && t.last() == 10u8 {
        t.drop_last()
    } else {
        t
    }
}

/// Every line of the trailer tagged past hunk `at` comes after a stop there.
pub proof fn lemma_stop_bounds(tr: Seq<(usize, Seq<u8>)>, from: nat, at: nat)
    ensures
        from <= tr.len() ==> from <= stop(tr, from, at) <= tr.len(),
        from > tr.len() ==> stop(tr, from, at) == from,
    decreases tr.len() - from,
{
    if from < tr.len() && tr[from as int].0 <= at {
        lemma_stop_bounds(tr, from + 1, at);
    }
}

pub proof fn lemma_cursor_bounds(tr: Seq<(usize, Seq<u8>)>, i: nat)
    ensures
        cursor(tr, i) <= tr.len(),
    decreases i,
{
    if i > 0 {
        lemma_cursor_bounds(tr, (i - 1) as nat);
        lemma_stop_bounds(tr, cursor(tr, (i - 1) as nat), i);
    }
}

proof fn lemma_join_push(ls: Seq<Seq<u8>>, l: Seq<u8>)
    ensures
        join_lines(ls.push(l)) == join_lines(ls) + l.push(10u8),
{
    assert(ls.push(l).drop_last() =~= ls);
}

/// Append `l` and a newline.
fn push_line(out: &mut Vec<u8>, l: &[u8])
    ensures
        final(out)@ == old(out)@ + l@.push(10u8),
{
    push_all(out, l);
    out.push(10u8);
    proof {
        assert(final(out)@ =~= old(out)@ + l@.push(10u8));
    }
}

/// Append every line of `ls`, each with a newline.
fn push_lines(out: &mut Vec<u8>, ls: &Vec<Vec<u8>>)
    ensures
        final(out)@ == old(out)@ + join_lines(lines_view(ls@)),
{
    let ghost start = out@;
    let ghost v = lines_view(ls@);
    let mut i: usize = 0;
    while i < ls.len()
        invariant
            v == lines_view(ls@),
            i <= ls@.len(),
            out@ == start + join_lines(v.subrange(0, i as int)),
        decreases ls@.len() - i,
    {
        push_line(out, ls[i].as_slice());
        proof {
            assert(v.subrange(0, i + 1).drop_last() =~= v.subrange(0, i as int));
            assert(out@ =~= start + join_lines(v.subrange(0, i + 1)));
        }
        i = i + 1;
    }
    proof {
        assert(v.subrange(0, ls@.len() as int) =~= v);
    }
}

/// Render `patch` back to a unified diff: the preamble, each entry's headers, hunks and the
/// lines recorded after them, CRLF endings and no-newline notes as they came, and no final
/// newline when the input had none.
pub fn emit(patch: &Patch) -> (out: Vec<u8>)
    ensures
        out@ == patch_text(patch@),
{
    let mut out: Vec<u8> = Vec::new();
    push_lines(&mut out, &patch.preamble);
    let ghost fv = files_view(patch.files@);
    let ghost pre = out@;
    let mut fi: usize = 0;
    while fi < patch.files.len()
        invariant
            fv == files_view(patch.files@),
            fi <= patch.files@.len(),
            pre == join_lines(patch@.preamble),
            out@ == pre + files_text(fv.subrange(0, fi as int)),
        decreases patch.files@.len() - fi,
    {
        let ghost before = out@;
        emit_file(&mut out, &patch.files[fi]);
        proof {
            assert(fv.subrange(0, fi + 1).drop_last() =~= fv.subrange(0, fi as int));
            assert(out@ =~= pre + files_text(fv.subrange(0, fi + 1)));
        }
        fi = fi + 1;
    }
    proof {
        assert(fv.subrange(0, patch.files@.len() as int) =~= fv);
    }
    if patch.no_trailing_newline && out.len() > 0 && out[out.len() - 1] == 10u8 {
        out.pop();
    }
    proof {
        assert(patch_lines_text(patch@) == out@ || patch_lines_text(patch@).drop_last() =~= out@);
    }
    out
}

/// Append one file entry.
fn emit_file(out: &mut Vec<u8>, f: &FileDiff)
    ensures
        final(out)@ == old(out)@ + file_text(f@),
{
    let ghost start = out@;
    push_lines(out, &f.headers);
    let ghost tr = f@.trailer;
    let mut ti: usize = 0;
    match &f.content {
        FileContent::Binary(lines) => {
            push_lines(out, lines);
        },
        FileContent::Text(hunks) => {
            let ghost hv = hunks_view(hunks@);
            let ghost mid = out@;
            let mut i: usize = 0;
            while i < hunks.len()
                invariant
                    hv == hunks_view(hunks@),
                    tr == f@.trailer,
                    tr.len() == f.trailer@.len(),
                    i <= hunks@.len(),
                    ti == cursor(tr, i as nat),
                    out@ == mid + hunks_text(hv, tr, i as nat),
                decreases hunks@.len() - i,
            {
                proof {
                    lemma_cursor_bounds(tr, i as nat);
                }
                emit_hunk(out, &hunks[i]);
                emit_trailer_upto(out, f, i + 1, &mut ti);
                i = i + 1;
                proof {
                    assert(out@ =~= mid + hunks_text(hv, tr, i as nat));
                }
            }
        },
    }
    proof {
        lemma_cursor_bounds(tr, f@.content.hunk_count());
    }
    let ghost before_tail = out@;
    let mut k: usize = ti;
    while k < f.trailer.len()
        invariant
            tr == f@.trailer,
            ti <= k <= f.trailer@.len(),
            out@ == before_tail + join_lines(trailer_lines(tr.subrange(ti as int, k as int))),
        decreases f.trailer@.len() - k,
    {
        push_line(out, f.trailer[k].1.as_slice());
        proof {
            assert(trailer_lines(tr.subrange(ti as int, k + 1)).drop_last() =~= trailer_lines(
                tr.subrange(ti as int, k as int),
            ));
            assert(trailer_lines(tr.subrange(ti as int, k + 1)).last() == f.trailer@[k as int].1@);
            assert(out@ =~= before_tail + join_lines(
                trailer_lines(tr.subrange(ti as int, k + 1)),
            ));
        }
        k = k + 1;
    }
    proof {
        assert(tr.subrange(ti as int, tr.len() as int) =~= tr.skip(ti as int));
        match f@.content {
            ContentV::Binary(_) => {
                assert(tr.skip(0) =~= tr);
            },
            ContentV::Text(_) => {},
        }
        assert(final(out)@ =~= old(out)@ + file_text(f@));
    }
}

/// Write the trailer lines of `f` recorded no later than its `at`-th hunk, advancing `ti` past
/// them.
fn emit_trailer_upto(out: &mut Vec<u8>, f: &FileDiff, at: usize, ti: &mut usize)
    requires
        *old(ti) <= f@.trailer.len(),
    ensures
        *final(ti) == stop(f@.trailer, *old(ti) as nat, at as nat),
        final(out)@ == old(out)@ + join_lines(
            trailer_lines(f@.trailer.subrange(*old(ti) as int, *final(ti) as int)),
        ),
{
    let ghost tr = f@.trailer;
    let ghost t0 = *ti;
    let ghost start = out@;
    while *ti < f.trailer.len() && f.trailer[*ti].0 <= at
        invariant
            tr == f@.trailer,
            t0 <= *ti <= tr.len(),
            tr.len() == f.trailer@.len(),
            stop(tr, t0 as nat, at as nat) == stop(tr, *ti as nat, at as nat),
            out@ == start + join_lines(trailer_lines(tr.subrange(t0 as int, *ti as int))),
        decreases tr.len() - *ti,
    {
        push_line(out, f.trailer[*ti].1.as_slice());
        proof {
            let k = *ti;
            assert(trailer_lines(tr.subrange(t0 as int, k + 1)).drop_last() =~= trailer_lines(
                tr.subrange(t0 as int, k as int),
            ));
            assert(trailer_lines(tr.subrange(t0 as int, k + 1)).last() == f.trailer@[k as int].1@);
            assert(out@ =~= start + join_lines(trailer_lines(tr.subrange(t0 as int, k + 1))));
        }
        *ti = *ti + 1;
    }
}

/// The section text of a header without the CR a CRLF diff leaves at its end.
pub fn section_text(h: &Hunk) -> (r: &[u8])
    ensures
        r@ == section_of(h@),
{
    strip_cr_exec(h.section.as_slice())
}

/// A header range as git writes it: `start`, or `start,count` unless the count is one.
pub fn fmt_range(start: u32, count: u32) -> (r: Vec<u8>)
    ensures
        r@ == range_text(start, count),
{
    let mut v = fmt_dec(start as u64);
    if count != 1 {
        v.push(44u8);
        push_dec(&mut v, count as u64);
    }
    proof {
        assert(v@ =~= range_text(start, count));
    }
    v
}

fn emit_line(out: &mut Vec<u8>, l: &Line)
    ensures
        final(out)@ == old(out)@ + line_text(l@),
{
    let m: u8 = match l.kind {
        LineKind::Context => 32u8,
        LineKind::Add => 43u8,
        LineKind::Del => 45u8,
    };
    out.push(m);
    push_all(out, l.text.as_slice());
    out.push(10u8);
    if let Some(marker) = &l.no_newline {
        push_all(out, marker.as_slice());
        out.push(10u8);
    }
    proof {
        assert(final(out)@ =~= old(out)@ + line_text(l@));
    }
}

fn emit_hunk(out: &mut Vec<u8>, h: &Hunk)
    ensures
        final(out)@ == old(out)@ + hunk_text(h@),
{
    let ghost start = out@;
    push_all(out, at2_minus_bytes());
    let o = fmt_range(h.old_start, h.old_lines);
    push_all(out, o.as_slice());
    push_all(out, space_plus_bytes());
    let n = fmt_range(h.new_start, h.new_lines);
    push_all(out, n.as_slice());
    push_all(out, space_at2_bytes());
    if section_text(h).len() > 0 {
        out.push(32u8);
    }
    push_all(out, h.section.as_slice());
    out.push(10u8);
    proof {
        assert(out@ =~= start + header_text(h@));
    }
    let ghost mid = out@;
    let ghost v = h@.lines;
    let mut i: usize = 0;
    while i < h.lines.len()
        invariant
            v == h@.lines,
            v == body_view(h.lines@),
            i <= h.lines@.len(),
            out@ == mid + body_text(v.subrange(0, i as int)),
        decreases h.lines@.len() - i,
    {
        emit_line(out, &h.lines[i]);
        proof {
            assert(v.subrange(0, i + 1).drop_last() =~= v.subrange(0, i as int));
            assert(out@ =~= mid + body_text(v.subrange(0, i + 1)));
        }
        i = i + 1;
    }
    proof {
        assert(v.subrange(0, h.lines@.len() as int) =~= v);
        assert(final(out)@ =~= old(out)@ + hunk_text(h@));
    }
}

} // verus!
