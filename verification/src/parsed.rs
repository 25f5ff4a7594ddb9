//! What every diff the parser reads satisfies: no hunk body holds more lines on a side than its
//! header declares, so every body fits the counts of a header.

use crate::model::{count_of, sides_fit, ContentV, FileV, HunkV, LineKind, LineV, PatchV};
use crate::parser::{
    close_cur, parse_spec, push_header_spec, run, state_wf, step, take_body_line_spec,
    ParseStateV,
};
use crate::split::{new_side, old_side};
use vstd::prelude::*;

verus! {

/// Neither side of `h`'s body holds more lines than its header declares.
pub open spec fn within_header(h: HunkV) -> bool {
    old_side(h.lines) <= h.old_lines && new_side(h.lines) <= h.new_lines
}

/// Every hunk of the entry is within its header.
pub open spec fn entry_within(f: FileV) -> bool {
    match f.content {
        ContentV::Text(hs) => forall|i: int| 0 <= i < hs.len() ==> within_header(#[trigger] hs[i]),
        ContentV::Binary(_) => true,
    }
}

/// What holds of the parser's state: every entry read is within its headers, and the open
/// hunk's body and what is left of its budget add up to its header.
pub open spec fn reading_ok(s: ParseStateV) -> bool {
    &&& forall|i: int| 0 <= i < s.files.len() ==> entry_within(#[trigger] s.files[i])
    &&& (s.cur matches Some(f) ==> entry_within(f))
    &&& state_wf(s)
    &&& s.st.in_hunk ==> {
        let h = s.cur->0.content->Text_0.last();
        &&& old_side(h.lines) + s.st.remaining.old == h.old_lines
        &&& new_side(h.lines) + s.st.remaining.new == h.new_lines
    }
}

proof fn lemma_count_push(lines: Seq<LineV>, l: LineV, k: LineKind)
    ensures
        count_of(lines.push(l), k) == count_of(lines, k) + if l.kind == k {
            1nat
        } else {
            0nat
        },
{
    assert(lines.push(l).drop_last() =~= lines);
}

proof fn lemma_count_update_last(lines: Seq<LineV>, l: LineV, k: LineKind)
    requires
        lines.len() > 0,
        l.kind == lines.last().kind,
    ensures
        count_of(lines.update(lines.len() - 1, l), k) == count_of(lines, k),
{
    assert(lines.update(lines.len() - 1, l).drop_last() =~= lines.drop_last());
}

/// Closing the entry being read keeps every entry within its headers.
proof fn lemma_close_within(files: Seq<FileV>, cur: Option<FileV>)
    requires
        forall|i: int| 0 <= i < files.len() ==> entry_within(#[trigger] files[i]),
        cur matches Some(f) ==> entry_within(f),
    ensures
        forall|i: int|
            0 <= i < close_cur(files, cur).len() ==> entry_within(#[trigger] close_cur(files, cur)[i]),
{
    assert forall|i: int| 0 <= i < close_cur(files, cur).len() implies entry_within(
        #[trigger] close_cur(files, cur)[i],
    ) by {
        if i < files.len() {
            assert(close_cur(files, cur)[i] == files[i]);
        }
    }
}

/// A line recorded outside a hunk body leaves the hunks as they were, or makes the entry
/// binary.
proof fn lemma_push_header_within(f: FileV, line: Seq<u8>)
    requires
        entry_within(f),
    ensures
        entry_within(push_header_spec(f, line)),
{
}

/// A body line the open hunk takes keeps it within its header, its budget going down by what
/// the line takes.
proof fn lemma_take_within(h: HunkV, line: Seq<u8>, rem: crate::parser::Remaining)
    requires
        old_side(h.lines) + rem.old == h.old_lines,
        new_side(h.lines) + rem.new == h.new_lines,
        take_body_line_spec(h, line, rem).2,
    ensures
        ({
            let (h2, rem2, _) = take_body_line_spec(h, line, rem);
            &&& old_side(h2.lines) + rem2.old == h2.old_lines
            &&& new_side(h2.lines) + rem2.new == h2.new_lines
            &&& within_header(h2)
        }),
{
    let (h2, rem2, _) = take_body_line_spec(h, line, rem);
    if h2.lines.len() == h.lines.len() + 1 {
        let l = h2.lines.last();
        assert(h2.lines =~= h.lines.push(l));
        lemma_count_push(h.lines, l, LineKind::Context);
        lemma_count_push(h.lines, l, LineKind::Add);
        lemma_count_push(h.lines, l, LineKind::Del);
    } else {
        let n = h.lines.len();
        let l = LineV { no_newline: Some(line), ..h.lines.last() };
        assert(h2.lines == h.lines.update(n - 1, l));
        lemma_count_update_last(h.lines, l, LineKind::Context);
        lemma_count_update_last(h.lines, l, LineKind::Add);
        lemma_count_update_last(h.lines, l, LineKind::Del);
    }
}

/// One step of the parser keeps its state in order.
#[verifier::rlimit(60)]
proof fn lemma_step_within(s: ParseStateV, line: Seq<u8>)
    requires
        reading_ok(s),
        step(s, line) is Ok,
    ensures
        reading_ok(step(s, line)->Ok_0),
{
    let t = step(s, line)->Ok_0;
    lemma_close_within(s.files, s.cur);
    if crate::bytes::is_prefix(crate::bytes::diff_git(), line) {
    } else {
        let s1 = crate::roundtrip::entry_after(s, line);
        assert(reading_ok(s1));
        assert(t == crate::parser::step_in_file(s1, line)->Ok_0);
        match s1.cur {
            None => {},
            Some(f) => {
                if crate::bytes::is_prefix(crate::bytes::at2(), line) {
                    let h = crate::parser::parse_hunk_header_spec(line)->Ok_0;
                    assert(h.lines =~= Seq::<LineV>::empty());
                    assert(old_side(h.lines) == 0);
                    assert(new_side(h.lines) == 0);
                    let hs2 = f.content->Text_0.push(h);
                    assert forall|i: int| 0 <= i < hs2.len() implies within_header(
                        #[trigger] hs2[i],
                    ) by {
                        if i < f.content->Text_0.len() {
                            assert(hs2[i] == f.content->Text_0[i]);
                        }
                    }
                } else if s1.st.in_hunk {
                    let hs = f.content->Text_0;
                    let h = hs.last();
                    let r = take_body_line_spec(h, line, s1.st.remaining);
                    if r.2 {
                        lemma_take_within(h, line, s1.st.remaining);
                        let hs2 = hs.drop_last().push(r.0);
                        assert forall|i: int| 0 <= i < hs2.len() implies within_header(
                            #[trigger] hs2[i],
                        ) by {
                            if i < hs.len() - 1 {
                                assert(hs2[i] == hs[i]);
                            }
                        }
                        assert(hs2.last() == r.0);
                    } else {
                        assert(hs.drop_last().push(h) =~= hs);
                        lemma_push_header_within(f, line);
                    }
                } else {
                    lemma_push_header_within(f, line);
                }
            },
        }
    }
}

proof fn lemma_run_within(lines: Seq<Seq<u8>>)
    requires
        run(lines) is Ok,
    ensures
        reading_ok(run(lines)->Ok_0),
    decreases lines.len(),
{
    if lines.len() > 0 {
        let p = lines.drop_last();
        assert(run(p) is Ok);
        lemma_run_within(p);
        lemma_step_within(run(p)->Ok_0, lines.last());
    }
}

/// No hunk the parser reads holds more lines on either side of its body than its header
/// declares: the body ends where the declared counts run out. So every body fits the counts of
/// a header.
pub proof fn lemma_parsed_within_headers(input: Seq<u8>)
    requires
        parse_spec(input) is Ok,
    ensures
        forall|i: int|
            0 <= i < parse_spec(input)->Ok_0.files.len() ==> entry_within(
                #[trigger] parse_spec(input)->Ok_0.files[i],
            ),
        crate::renumber::bodies_fit(parse_spec(input)->Ok_0),
{
    let ls = crate::parser::lines_of(input);
    assert(run(ls) is Ok);
    lemma_run_within(ls);
    let s = run(ls)->Ok_0;
    lemma_close_within(s.files, s.cur);
    let p = parse_spec(input)->Ok_0;
    assert(p.files == close_cur(s.files, s.cur));
    assert forall|fi: int| 0 <= fi < p.files.len() implies (#[trigger] p.files[fi]).content is Text
        ==> forall|hi: int|
        0 <= hi < p.files[fi].content->Text_0.len() ==> sides_fit(
            #[trigger] p.files[fi].content->Text_0[hi].lines,
        ) by {
        assert(entry_within(p.files[fi]));
        if p.files[fi].content is Text {
            assert forall|hi: int| 0 <= hi < p.files[fi].content->Text_0.len() implies sides_fit(
                #[trigger] p.files[fi].content->Text_0[hi].lines,
            ) by {
                assert(within_header(p.files[fi].content->Text_0[hi]));
            }
        }
    }
}

} // verus!
