//! Reading a diff and writing it back gives the input again, byte for byte, wherever the
//! parser reads a line as it will be written: a hunk header in git's own form, a context line
//! with its marker, a no-newline note on a line that has none yet.

use crate::bytes::{at2, dec, diff_git, first_of, is_prefix};
use crate::emit::{
    body_text, cursor, file_text, files_text, header_text, hunk_text, hunks_text, join_lines,
    lemma_cursor_bounds, line_text, marker_of, patch_lines_text, patch_text, stop, trailer_lines,
};
use crate::model::{ContentV, FileV, HunkV, LineKind, LineV, PatchV};
use crate::parser::{
    close_cur, fresh_state, lines_of, new_file_spec, parse_hunk_header_spec, parse_spec, pieces,
    pieces_from, push_header_spec, run, starts_plain_file_spec, start_git_file_spec, step,
    take_body_line_spec, FileState, ParseStateV, Remaining,
};
use vstd::prelude::*;

verus! {

// ------------------------------------------------------------------------------------------
// What a line must be for the parser to read it back as written
// ------------------------------------------------------------------------------------------

/// The state a step works on once it has decided whether `line` opens a plain-diff entry.
pub open spec fn entry_after(s: ParseStateV, line: Seq<u8>) -> ParseStateV {
    if starts_plain_file_spec(line, s.cur.is_some(), s.st) {
        ParseStateV {
            preamble: s.preamble,
            files: close_cur(s.files, s.cur),
            cur: Some(new_file_spec(Seq::empty())),
            st: fresh_state(),
        }
    } else {
        s
    }
}

/// A body line the hunk takes is written back as read: it is not the empty line a transport
/// left of a lone-space context line, and a no-newline note marks a line that has none yet.
pub open spec fn body_line_reads_back(h: HunkV, line: Seq<u8>, rem: Remaining) -> bool {
    take_body_line_spec(h, line, rem).2 ==> line.len() > 0 && (line[0] == 92u8
        ==> h.lines.last().no_newline is None)
}

/// Reading `line` in state `s` keeps it as it is written back: a hunk header is in git's own
/// form, and a body line reads back (see [`body_line_reads_back`]).
pub open spec fn reads_back(s: ParseStateV, line: Seq<u8>) -> bool {
    is_prefix(diff_git(), line) || {
        let s1 = entry_after(s, line);
        match s1.cur {
            None => true,
            Some(f) => if is_prefix(at2(), line) {
                match parse_hunk_header_spec(line) {
                    Ok(h) => header_text(h) == line.push(10u8),
                    Err(_) => true,
                }
            } else if s1.st.in_hunk && f.content is Text && f.content->Text_0.len() > 0 {
                body_line_reads_back(f.content->Text_0.last(), line, s1.st.remaining)
            } else {
                true
            },
        }
    }
}

/// Every line of `lines` is read back as written, in the state the lines before it leave.
pub open spec fn reads_back_all(lines: Seq<Seq<u8>>) -> bool {
    forall|k: int|
        #![trigger lines.take(k)]
        0 <= k < lines.len() ==> match run(lines.take(k)) {
            Ok(s) => reads_back(s, lines[k]),
            Err(_) => true,
        }
}

// ------------------------------------------------------------------------------------------
// The text a parser state stands for
// ------------------------------------------------------------------------------------------

/// Everything read so far, as it is written back.
pub open spec fn state_text(s: ParseStateV) -> Seq<u8> {
    join_lines(s.preamble) + files_text(close_cur(s.files, s.cur))
}

/// Every line recorded after the hunks of an entry follows a hunk there is.
pub open spec fn tags_ok(tr: Seq<(usize, Seq<u8>)>, n: int) -> bool {
    forall|k: int| 0 <= k < tr.len() ==> 1 <= (#[trigger] tr[k]).0 <= n
}

/// The entry being read holds together: a binary entry has nothing recorded after it, and a
/// text one has at most `k` hunks, lines recorded only after hunks it has, and, while a body is
/// open, none after the last hunk.
pub open spec fn entry_ok(f: FileV, in_hunk: bool, k: int) -> bool {
    match f.content {
        ContentV::Binary(_) => f.trailer.len() == 0 && !in_hunk,
        ContentV::Text(hs) => {
            &&& hs.len() <= k
            &&& tags_ok(f.trailer, hs.len() as int)
            &&& in_hunk ==> hs.len() > 0 && tags_ok(f.trailer, hs.len() - 1)
        },
    }
}

/// What holds of the parser's state after `k` lines.
pub open spec fn state_ok(s: ParseStateV, k: int) -> bool {
    match s.cur {
        None => s.files.len() == 0 && !s.st.in_hunk,
        Some(f) => entry_ok(f, s.st.in_hunk, k),
    }
}

// ------------------------------------------------------------------------------------------
// Lines, bodies and trailers
// ------------------------------------------------------------------------------------------

proof fn lemma_join_push(ls: Seq<Seq<u8>>, l: Seq<u8>)
    ensures
        join_lines(ls.push(l)) == join_lines(ls) + l.push(10u8),
{
    assert(ls.push(l).drop_last() =~= ls);
}

proof fn lemma_files_push(fs: Seq<FileV>, f: FileV)
    ensures
        files_text(fs.push(f)) == files_text(fs) + file_text(f),
{
    assert(fs.push(f).drop_last() =~= fs);
}

proof fn lemma_body_push(lines: Seq<LineV>, l: LineV)
    ensures
        body_text(lines.push(l)) == body_text(lines) + line_text(l),
{
    assert(lines.push(l).drop_last() =~= lines);
}

/// The trailer cursor runs to the end when no entry is tagged past `at`.
proof fn lemma_stop_all(tr: Seq<(usize, Seq<u8>)>, from: nat, at: nat)
    requires
        from <= tr.len(),
        forall|k: int| from <= k < tr.len() ==> (#[trigger] tr[k]).0 <= at,
    ensures
        stop(tr, from, at) == tr.len(),
    decreases tr.len() - from,
{
    if from < tr.len() {
        lemma_stop_all(tr, from + 1, at);
    }
}

proof fn lemma_cursor_all(tr: Seq<(usize, Seq<u8>)>, i: nat)
    requires
        forall|k: int| 0 <= k < tr.len() ==> (#[trigger] tr[k]).0 <= i,
        i == 0 ==> tr.len() == 0,
    ensures
        cursor(tr, i) == tr.len(),
{
    if i > 0 {
        lemma_cursor_bounds(tr, (i - 1) as nat);
        lemma_stop_all(tr, cursor(tr, (i - 1) as nat), i);
    }
}

proof fn lemma_stop_push(tr: Seq<(usize, Seq<u8>)>, e: (usize, Seq<u8>), from: nat, at: nat)
    requires
        from <= tr.len(),
        e.0 > at,
    ensures
        stop(tr.push(e), from, at) == stop(tr, from, at),
    decreases tr.len() - from,
{
    if from < tr.len() {
        assert(tr.push(e)[from as int] == tr[from as int]);
        lemma_stop_push(tr, e, from + 1, at);
    } else {
        assert(tr.push(e)[from as int] == e);
    }
}

proof fn lemma_cursor_push(tr: Seq<(usize, Seq<u8>)>, e: (usize, Seq<u8>), i: nat)
    requires
        e.0 > i,
    ensures
        cursor(tr.push(e), i) == cursor(tr, i),
    decreases i,
{
    if i > 0 {
        lemma_cursor_push(tr, e, (i - 1) as nat);
        lemma_cursor_bounds(tr, (i - 1) as nat);
        lemma_stop_push(tr, e, cursor(tr, (i - 1) as nat), i);
    }
}

/// A line recorded past hunk `i` changes nothing written up to hunk `i`.
proof fn lemma_hunks_text_push(hs: Seq<HunkV>, tr: Seq<(usize, Seq<u8>)>, e: (usize, Seq<u8>), i: nat)
    requires
        e.0 > i,
    ensures
        hunks_text(hs, tr.push(e), i) == hunks_text(hs, tr, i),
    decreases i,
{
    if i > 0 {
        let j = (i - 1) as nat;
        lemma_hunks_text_push(hs, tr, e, j);
        lemma_cursor_push(tr, e, j);
        lemma_cursor_push(tr, e, i);
        lemma_cursor_bounds(tr, i);
        lemma_cursor_bounds(tr, j);
        lemma_stop_bounds_cursor(tr, i);
        let a = cursor(tr, j) as int;
        let b = cursor(tr, i) as int;
        assert(tr.push(e).subrange(a, b) =~= tr.subrange(a, b));
    }
}

proof fn lemma_stop_bounds_cursor(tr: Seq<(usize, Seq<u8>)>, i: nat)
    ensures
        i > 0 ==> cursor(tr, (i - 1) as nat) <= cursor(tr, i),
{
    if i > 0 {
        lemma_cursor_bounds(tr, (i - 1) as nat);
        crate::emit::lemma_stop_bounds(tr, cursor(tr, (i - 1) as nat), i);
    }
}

/// What is written up to hunk `i` depends on the first `i` hunks only.
proof fn lemma_hunks_text_prefix(a: Seq<HunkV>, b: Seq<HunkV>, tr: Seq<(usize, Seq<u8>)>, i: nat)
    requires
        i <= a.len(),
        i <= b.len(),
        forall|j: int| 0 <= j < i ==> a[j] == b[j],
    ensures
        hunks_text(a, tr, i) == hunks_text(b, tr, i),
    decreases i,
{
    if i > 0 {
        lemma_hunks_text_prefix(a, b, tr, (i - 1) as nat);
    }
}

/// A line recorded after the last hunk of a text entry is written at its end.
proof fn lemma_trailer_push_text(f: FileV, line: Seq<u8>)
    requires
        f.content is Text,
        f.content->Text_0.len() > 0,
        f.content->Text_0.len() <= usize::MAX,
        tags_ok(f.trailer, f.content->Text_0.len() as int),
    ensures
        file_text(
            FileV {
                trailer: f.trailer.push((f.content->Text_0.len() as usize, line)),
                ..f
            },
        ) == file_text(f) + line.push(10u8),
{
    let hs = f.content->Text_0;
    let n = hs.len();
    let tr = f.trailer;
    let e = (n as usize, line);
    let tr2 = tr.push(e);
    let f2 = FileV { trailer: tr2, ..f };
    lemma_cursor_all(tr, n);
    assert forall|k: int| 0 <= k < tr2.len() implies (#[trigger] tr2[k]).0 <= n by {
        if k < tr.len() {
            assert(tr2[k] == tr[k]);
        }
    }
    lemma_cursor_all(tr2, n);
    let m = (n - 1) as nat;
    lemma_hunks_text_push(hs, tr, e, m);
    lemma_cursor_push(tr, e, m);
    lemma_cursor_bounds(tr, m);
    let c = cursor(tr, m) as int;
    assert(tr2.subrange(c, tr2.len() as int) =~= tr.subrange(c, tr.len() as int).push(e));
    assert(trailer_lines(tr.subrange(c, tr.len() as int).push(e)) =~= trailer_lines(
        tr.subrange(c, tr.len() as int),
    ).push(line));
    lemma_join_push(trailer_lines(tr.subrange(c, tr.len() as int)), line);
    assert(tr.skip(tr.len() as int) =~= Seq::<(usize, Seq<u8>)>::empty());
    assert(tr2.skip(tr2.len() as int) =~= Seq::<(usize, Seq<u8>)>::empty());
    assert(trailer_lines(Seq::<(usize, Seq<u8>)>::empty()) =~= Seq::<Seq<u8>>::empty());
    assert(file_text(f2) =~= file_text(f) + line.push(10u8));
}

/// A hunk opened in a text entry is written as its header at the entry's end.
proof fn lemma_open_hunk_text(f: FileV, h: HunkV)
    requires
        f.content is Text,
        tags_ok(f.trailer, f.content->Text_0.len() as int),
        h.lines.len() == 0,
    ensures
        file_text(FileV { content: ContentV::Text(f.content->Text_0.push(h)), ..f }) == file_text(
            f,
        ) + header_text(h),
{
    let hs = f.content->Text_0;
    let n = hs.len();
    let tr = f.trailer;
    let hs2 = hs.push(h);
    let f2 = FileV { content: ContentV::Text(hs2), ..f };
    if n == 0 && tr.len() > 0 {
        assert(1 <= tr[0].0 <= n);
    }
    lemma_cursor_all(tr, n);
    lemma_cursor_all(tr, n + 1);
    lemma_hunks_text_prefix(hs2, hs, tr, n);
    assert(hs2[n as int] == h);
    assert(body_text(h.lines) =~= Seq::<u8>::empty());
    assert(tr.subrange(tr.len() as int, tr.len() as int) =~= Seq::<(usize, Seq<u8>)>::empty());
    assert(tr.skip(tr.len() as int) =~= Seq::<(usize, Seq<u8>)>::empty());
    assert(trailer_lines(Seq::<(usize, Seq<u8>)>::empty()) =~= Seq::<Seq<u8>>::empty());
    assert(file_text(f2) =~= file_text(f) + header_text(h));
}

/// Growing the body of the last hunk of an entry whose body is open writes the growth at the
/// entry's end.
proof fn lemma_body_grow_text(f: FileV, h2: HunkV, extra: Seq<u8>)
    requires
        f.content is Text,
        f.content->Text_0.len() > 0,
        tags_ok(f.trailer, f.content->Text_0.len() - 1),
        header_text(h2) == header_text(f.content->Text_0.last()),
        body_text(h2.lines) == body_text(f.content->Text_0.last().lines) + extra,
    ensures
        file_text(
            FileV { content: ContentV::Text(f.content->Text_0.drop_last().push(h2)), ..f },
        ) == file_text(f) + extra,
{
    let hs = f.content->Text_0;
    let n = hs.len();
    let tr = f.trailer;
    let hs2 = hs.drop_last().push(h2);
    let f2 = FileV { content: ContentV::Text(hs2), ..f };
    let m = (n - 1) as nat;
    if m == 0 && tr.len() > 0 {
        assert(1 <= tr[0].0 <= m);
    }
    lemma_cursor_all(tr, m);
    assert forall|k: int| 0 <= k < tr.len() implies (#[trigger] tr[k]).0 <= n by {}
    lemma_cursor_all(tr, n);
    lemma_hunks_text_prefix(hs2, hs, tr, m);
    assert(hs2[m as int] == h2);
    let empty_tr = Seq::<(usize, Seq<u8>)>::empty();
    assert(tr.subrange(tr.len() as int, tr.len() as int) =~= empty_tr);
    assert(tr.skip(tr.len() as int) =~= empty_tr);
    assert(trailer_lines(empty_tr) =~= Seq::<Seq<u8>>::empty());
    let x = hunks_text(hs, tr, m);
    let none = join_lines(trailer_lines(empty_tr));
    assert(none =~= Seq::<u8>::empty());
    assert(hunks_text(hs, tr, n) == x + hunk_text(hs[m as int]) + none);
    assert(hunks_text(hs2, tr, n) == x + hunk_text(h2) + none);
    assert(hunk_text(h2) =~= hunk_text(hs[m as int]) + extra);
    assert(hunks_text(hs2, tr, n) =~= hunks_text(hs, tr, n) + extra);
    assert(file_text(f) == join_lines(f.headers) + (hunks_text(hs, tr, n) + none));
    assert(file_text(f2) == join_lines(f.headers) + (hunks_text(hs2, tr, n) + none));
    assert(file_text(f2) =~= file_text(f) + extra);
}

// ------------------------------------------------------------------------------------------
// One step of the parser
// ------------------------------------------------------------------------------------------

/// A line recorded outside any hunk body is written at the end of its entry.
proof fn lemma_push_header_text(f: FileV, line: Seq<u8>, k: int)
    requires
        entry_ok(f, false, k),
        k < usize::MAX,
    ensures
        file_text(push_header_spec(f, line)) == file_text(f) + line.push(10u8),
        entry_ok(push_header_spec(f, line), false, k),
{
    let g = push_header_spec(f, line);
    let empty_tr = Seq::<(usize, Seq<u8>)>::empty();
    assert(trailer_lines(empty_tr) =~= Seq::<Seq<u8>>::empty());
    match f.content {
        ContentV::Binary(b) => {
            assert(f.trailer =~= empty_tr);
            lemma_join_push(b, line);
            assert(file_text(g) =~= file_text(f) + line.push(10u8));
        },
        ContentV::Text(hs) => {
            if hs.len() > 0 {
                lemma_trailer_push_text(f, line);
                let tr2 = f.trailer.push((hs.len() as usize, line));
                assert(g == FileV { trailer: tr2, ..f });
                assert forall|j: int| 0 <= j < tr2.len() implies 1 <= (#[trigger] tr2[j]).0 <= hs.len() by {
                    if j < f.trailer.len() {
                        assert(tr2[j] == f.trailer[j]);
                    }
                }
            } else {
                if f.trailer.len() > 0 {
                    assert(1 <= f.trailer[0].0 <= hs.len());
                }
                assert(f.trailer =~= empty_tr);
                assert(f.trailer.skip(0) =~= empty_tr);
                assert(hs =~= Seq::<HunkV>::empty());
                if crate::parser::is_binary_marker_spec(line) {
                    assert(seq![line] =~= Seq::<Seq<u8>>::empty().push(line));
                    lemma_join_push(Seq::<Seq<u8>>::empty(), line);
                    assert(file_text(g) =~= file_text(f) + line.push(10u8));
                } else {
                    lemma_join_push(f.headers, line);
                    assert(g.headers == f.headers.push(line));
                    assert(g.trailer == f.trailer);
                    assert(g.content == f.content);
                    assert(file_text(g) =~= file_text(f) + line.push(10u8));
                }
            }
        },
    }
}

/// `line` is its first byte followed by the rest.
proof fn lemma_split_first(line: Seq<u8>)
    requires
        line.len() > 0,
    ensures
        seq![line[0]] + line.skip(1) == line,
{
    assert(seq![line[0]] + line.skip(1) =~= line);
}

/// A body line the hunk takes, and that reads back, is written after the body as read.
proof fn lemma_take_body_text(h: HunkV, line: Seq<u8>, rem: Remaining)
    requires
        take_body_line_spec(h, line, rem).2,
        body_line_reads_back(h, line, rem),
    ensures
        header_text(take_body_line_spec(h, line, rem).0) == header_text(h),
        body_text(take_body_line_spec(h, line, rem).0.lines) == body_text(h.lines) + line.push(
            10u8,
        ),
{
    let h2 = take_body_line_spec(h, line, rem).0;
    if line.len() > 0 && (line[0] == 32u8 || line[0] == 43u8 || line[0] == 45u8) && !(line.len()
        >= 2 && line[0] == 92u8 && line[1] == 32u8) && h2.lines.len() == h.lines.len() + 1 {
        lemma_split_first(line);
        let l = h2.lines.last();
        assert(h2.lines =~= h.lines.push(l));
        lemma_body_push(h.lines, l);
        assert(line_text(l) =~= seq![line[0]] + line.skip(1) + seq![10u8]);
        assert(line_text(l) =~= line.push(10u8));
    } else {
        assert(line[0] == 92u8);
        let n = h.lines.len();
        let last = h.lines.last();
        let l2 = LineV { no_newline: Some(line), ..last };
        assert(h2.lines == h.lines.update(n - 1, l2));
        assert(h2.lines =~= h.lines.drop_last().push(l2));
        assert(h.lines =~= h.lines.drop_last().push(last));
        lemma_body_push(h.lines.drop_last(), l2);
        lemma_body_push(h.lines.drop_last(), last);
        assert(line_text(l2) =~= line_text(last) + line.push(10u8));
    }
}

proof fn lemma_new_file_text(line: Seq<u8>)
    ensures
        file_text(start_git_file_spec(line, line.skip(11))) == line.push(10u8),
        file_text(new_file_spec(Seq::empty())) == Seq::<u8>::empty(),
{
    let empty_tr = Seq::<(usize, Seq<u8>)>::empty();
    assert(trailer_lines(empty_tr) =~= Seq::<Seq<u8>>::empty());
    assert(empty_tr.skip(0) =~= empty_tr);
    assert(seq![line] =~= Seq::<Seq<u8>>::empty().push(line));
    lemma_join_push(Seq::<Seq<u8>>::empty(), line);
    assert(file_text(start_git_file_spec(line, line.skip(11))) =~= line.push(10u8));
    assert(file_text(new_file_spec(Seq::empty())) =~= Seq::<u8>::empty());
}

/// Replacing the entry being read by one written `x` further on writes `x` further on.
proof fn lemma_state_cur(s: ParseStateV, t: ParseStateV, f: FileV, g: FileV, x: Seq<u8>)
    requires
        s.cur == Some(f),
        t.cur == Some(g),
        t.preamble == s.preamble,
        t.files == s.files,
        file_text(g) == file_text(f) + x,
    ensures
        state_text(t) == state_text(s) + x,
{
    lemma_files_push(s.files, f);
    lemma_files_push(s.files, g);
    assert(state_text(t) =~= state_text(s) + x);
}

/// One step of the parser on a line that reads back writes that line after what came before.
proof fn lemma_step_text(s: ParseStateV, line: Seq<u8>, k: int)
    requires
        state_ok(s, k),
        0 <= k < usize::MAX,
        reads_back(s, line),
        step(s, line) is Ok,
    ensures
        state_ok(step(s, line)->Ok_0, k + 1),
        state_text(step(s, line)->Ok_0) == state_text(s) + line.push(10u8),
{
    let t = step(s, line)->Ok_0;
    if is_prefix(diff_git(), line) {
        let g = start_git_file_spec(line, line.skip(11));
        lemma_new_file_text(line);
        lemma_files_push(close_cur(s.files, s.cur), g);
        assert(t.files == close_cur(s.files, s.cur));
        assert(t.cur == Some(g));
        assert(t.preamble == s.preamble);
        assert(state_text(t) =~= state_text(s) + line.push(10u8));
        assert(g.trailer =~= Seq::<(usize, Seq<u8>)>::empty());
    } else {
        let s1 = entry_after(s, line);
        if starts_plain_file_spec(line, s.cur.is_some(), s.st) {
            lemma_new_file_text(line);
            lemma_files_push(close_cur(s.files, s.cur), new_file_spec(Seq::empty()));
            assert(state_text(s1) =~= state_text(s));
            assert(new_file_spec(Seq::empty()).trailer =~= Seq::<(usize, Seq<u8>)>::empty());
        }
        assert(state_text(s1) == state_text(s));
        assert(state_ok(s1, k));
        assert(t == crate::parser::step_in_file(s1, line)->Ok_0);
        match s1.cur {
            None => {
                lemma_join_push(s1.preamble, line);
                assert(s1.files =~= Seq::<FileV>::empty());
                assert(t.preamble == s1.preamble.push(line));
                assert(t.files == s1.files);
                assert(t.cur is None);
                assert(state_text(t) =~= state_text(s1) + line.push(10u8));
            },
            Some(f) => {
                if is_prefix(at2(), line) {
                    let h = parse_hunk_header_spec(line)->Ok_0;
                    let hs = f.content->Text_0;
                    let g = FileV { content: ContentV::Text(hs.push(h)), ..f };
                    assert(t.cur == Some(g));
                    lemma_open_hunk_text(f, h);
                    lemma_state_cur(s1, t, f, g, line.push(10u8));
                    assert(tags_ok(f.trailer, hs.len() + 1int));
                } else if s1.st.in_hunk {
                    let hs = f.content->Text_0;
                    let h = hs.last();
                    let r = take_body_line_spec(h, line, s1.st.remaining);
                    let h2 = r.0;
                    let f2 = FileV { content: ContentV::Text(hs.drop_last().push(h2)), ..f };
                    if r.2 {
                        assert(t.cur == Some(f2));
                        lemma_take_body_text(h, line, s1.st.remaining);
                        lemma_body_grow_text(f, h2, line.push(10u8));
                        lemma_state_cur(s1, t, f, f2, line.push(10u8));
                    } else {
                        assert(h2 == h);
                        assert(hs.drop_last().push(h) =~= hs);
                        assert(f2 == f);
                        assert(t.cur == Some(push_header_spec(f, line)));
                        lemma_push_header_text(f, line, k);
                        lemma_state_cur(s1, t, f, push_header_spec(f, line), line.push(10u8));
                    }
                } else {
                    assert(t.cur == Some(push_header_spec(f, line)));
                    lemma_push_header_text(f, line, k);
                    lemma_state_cur(s1, t, f, push_header_spec(f, line), line.push(10u8));
                }
            },
        }
    }
}

// ------------------------------------------------------------------------------------------
// The whole input
// ------------------------------------------------------------------------------------------

/// Every line read so far, each one read back, is written back in order.
proof fn lemma_run_text(lines: Seq<Seq<u8>>)
    requires
        run(lines) is Ok,
        reads_back_all(lines),
        lines.len() <= usize::MAX,
    ensures
        state_ok(run(lines)->Ok_0, lines.len() as int),
        state_text(run(lines)->Ok_0) == join_lines(lines),
    decreases lines.len(),
{
    if lines.len() == 0 {
        assert(close_cur(Seq::<FileV>::empty(), None) =~= Seq::<FileV>::empty());
        assert(state_text(run(lines)->Ok_0) =~= join_lines(lines));
    } else {
        let p = lines.drop_last();
        assert(run(p) is Ok);
        assert forall|k: int|
            #![trigger p.take(k)]
            0 <= k < p.len() implies match run(p.take(k)) {
                Ok(s) => reads_back(s, p[k]),
                Err(_) => true,
            } by {
            assert(p.take(k) =~= lines.take(k));
            assert(lines.take(k) == lines.take(k));
        }
        lemma_run_text(p);
        let s = run(p)->Ok_0;
        assert(lines.take(p.len() as int) =~= p);
        assert(lines.take(p.len() as int) == lines.take(p.len() as int));
        assert(reads_back(s, lines.last()));
        lemma_step_text(s, lines.last(), p.len() as int);
    }
}

/// Splitting at newlines leaves no more than one piece more than the bytes from `i` on.
proof fn lemma_pieces_count(s: Seq<u8>, start: int, i: int)
    requires
        0 <= start <= i <= s.len(),
    ensures
        pieces_from(s, start, i).len() <= s.len() - i + 1,
    decreases s.len() - i,
{
    if i < s.len() {
        if s[i] == 10u8 {
            lemma_pieces_count(s, i + 1, i + 1);
        } else {
            lemma_pieces_count(s, start, i + 1);
        }
    }
}

proof fn lemma_join_front(x: Seq<u8>, rest: Seq<Seq<u8>>)
    ensures
        join_lines(seq![x] + rest) == x.push(10u8) + join_lines(rest),
    decreases rest.len(),
{
    if rest.len() == 0 {
        assert(seq![x] + rest =~= Seq::<Seq<u8>>::empty().push(x));
        lemma_join_push(Seq::<Seq<u8>>::empty(), x);
        assert(join_lines(seq![x] + rest) =~= x.push(10u8) + join_lines(rest));
    } else {
        lemma_join_front(x, rest.drop_last());
        assert((seq![x] + rest).drop_last() =~= seq![x] + rest.drop_last());
        assert((seq![x] + rest).last() == rest.last());
        assert(join_lines(seq![x] + rest) =~= x.push(10u8) + join_lines(rest));
    }
}

/// The pieces from `start` on, each with a newline, are the bytes from `start` on and a newline;
/// the last piece holds no newline and follows one, or the start of the input.
proof fn lemma_pieces_join(s: Seq<u8>, start: int, i: int)
    requires
        0 <= start <= i <= s.len(),
        forall|m: int| start <= m < i ==> s[m] != 10u8,
        start == 0 || s[start - 1] == 10u8,
    ensures
        join_lines(pieces_from(s, start, i)) == s.subrange(start, s.len() as int).push(10u8),
        pieces_from(s, start, i).len() > 0,
        exists|j: int|
            0 <= j <= s.len() && (j == 0 || s[j - 1] == 10u8) && (forall|m: int|
                j <= m < s.len() ==> s[m] != 10u8) && pieces_from(s, start, i).last()
                == s.subrange(j, s.len() as int),
    decreases s.len() - i,
{
    if i >= s.len() {
        let p = pieces_from(s, start, i);
        assert(p == seq![s.subrange(start, s.len() as int)]);
        lemma_join_front(s.subrange(start, s.len() as int), Seq::empty());
        assert(seq![s.subrange(start, s.len() as int)] + Seq::<Seq<u8>>::empty() =~= p);
        assert(join_lines(Seq::<Seq<u8>>::empty()) =~= Seq::<u8>::empty());
        assert(join_lines(p) =~= s.subrange(start, s.len() as int).push(10u8));
        assert(p.last() == s.subrange(start, s.len() as int));
    } else if s[i] == 10u8 {
        lemma_pieces_join(s, i + 1, i + 1);
        let rest = pieces_from(s, i + 1, i + 1);
        let p = pieces_from(s, start, i);
        assert(p == seq![s.subrange(start, i)] + rest);
        lemma_join_front(s.subrange(start, i), rest);
        assert(join_lines(p) =~= s.subrange(start, s.len() as int).push(10u8));
        assert(p.last() == rest.last());
    } else {
        lemma_pieces_join(s, start, i + 1);
    }
}

/// Reading a diff and writing it back gives the input again, byte for byte: preamble, headers,
/// hunks, the lines after them, CRLF endings, no-newline notes and a missing final newline
/// included. It holds wherever the parser reads every line as it is written back: a hunk
/// header in git's own form (`@@ -1 +1 @@`, not `@@ -1,1 +1,1 @@`), a context line with its
/// marker (an empty line read as context comes back as a lone space), and a no-newline note on
/// a line that has none yet.
pub proof fn lemma_round_trip(input: Seq<u8>)
    requires
        input.len() <= isize::MAX,
        parse_spec(input) is Ok,
        reads_back_all(lines_of(input)),
    ensures
        patch_text(parse_spec(input)->Ok_0) == input,
{
    let ls = lines_of(input);
    let p = pieces(input);
    lemma_pieces_count(input, 0, 0);
    lemma_pieces_join(input, 0, 0);
    assert(run(ls) is Ok);
    lemma_run_text(ls);
    let s = run(ls)->Ok_0;
    let pv = parse_spec(input)->Ok_0;
    assert(patch_lines_text(pv) == state_text(s));
    assert(input.subrange(0, input.len() as int) =~= input);
    assert(join_lines(p) == input.push(10u8));
    let j = choose|j: int|
        0 <= j <= input.len() && (j == 0 || input[j - 1] == 10u8) && (forall|m: int|
            j <= m < input.len() ==> input[m] != 10u8) && p.last() == input.subrange(
            j,
            input.len() as int,
        );
    if p.last().len() == 0 {
        assert(p =~= p.drop_last().push(p.last()));
        lemma_join_push(p.drop_last(), p.last());
        assert(p.last() =~= Seq::<u8>::empty());
        let a = join_lines(p.drop_last());
        assert(a.push(10u8) =~= input.push(10u8));
        assert(a.len() == input.len());
        assert forall|m: int| 0 <= m < a.len() implies a[m] == input[m] by {
            assert(a.push(10u8)[m] == input.push(10u8)[m]);
        }
        assert(a =~= input);
        assert(j == input.len());
    } else {
        assert(j < input.len());
        assert(input.last() != 10u8);
        assert(patch_lines_text(pv) =~= input.push(10u8));
        assert(patch_lines_text(pv).drop_last() =~= input);
    }
}

// ------------------------------------------------------------------------------------------
// A hunk header as written reads back as the same header
// ------------------------------------------------------------------------------------------

/// A byte of a written range: a digit or the comma between start and count.
pub open spec fn range_byte(b: u8) -> bool {
    crate::bytes::is_digit(b) || b == 44u8
}

/// The digits of `n` read back as `n`.
proof fn lemma_dec_reads_back(n: nat)
    ensures
        dec(n).len() > 0,
        crate::parser::all_digits(dec(n)),
        crate::parser::digits_value(dec(n)) == n,
    decreases n,
{
    if n < 10 {
        let x = (48 + n) as u8;
        assert(x == 48 + n);
        assert(dec(n).drop_last() =~= Seq::<u8>::empty());
        assert(dec(n).last() == x);
        assert(crate::parser::digits_value(dec(n)) == crate::parser::digits_value(
            Seq::<u8>::empty(),
        ) * 10 + (x - 48) as nat);
    } else {
        lemma_dec_reads_back(n / 10);
        let d = dec(n / 10);
        assert(dec(n) == d.push((48 + n % 10) as u8));
        assert(dec(n).drop_last() =~= d);
        let x = (48 + n % 10) as u8;
        assert(x == 48 + n % 10);
        assert(dec(n).last() == x);
        assert(crate::parser::digits_value(dec(n)) == crate::parser::digits_value(d) * 10 + (x
            - 48) as nat);
        assert(n == (n / 10) * 10 + n % 10);
        assert forall|i: int| 0 <= i < dec(n).len() implies crate::bytes::is_digit(
            #[trigger] dec(n)[i],
        ) by {
            if i < d.len() {
                assert(dec(n)[i] == d[i]);
            }
        }
    }
}

/// A range as written reads back as the same start and count, and is made of digits and a
/// comma.
proof fn lemma_range_reads_back(start: u32, count: u32)
    ensures
        crate::parser::parse_range_spec(crate::emit::range_text(start, count)) == Ok::<
            (u32, u32),
            crate::parser::ParseErr,
        >((start, count)),
        forall|i: int|
            0 <= i < crate::emit::range_text(start, count).len() ==> range_byte(
                #[trigger] crate::emit::range_text(start, count)[i],
            ),
{
    let a = dec(start as nat);
    lemma_dec_reads_back(start as nat);
    crate::bytes::lemma_first_of(a, 44u8);
    if count == 1 {
        assert(crate::emit::range_text(start, count) == a);
        assert forall|i: int| 0 <= i < a.len() implies a[i] != 44u8 by {
            assert(crate::bytes::is_digit(a[i]));
        }
        assert(first_of(a, 44u8) is None);
    } else {
        let b = dec(count as nat);
        lemma_dec_reads_back(count as nat);
        let r = a + seq![44u8] + b;
        assert(crate::emit::range_text(start, count) == r);
        assert forall|i: int| 0 <= i < a.len() implies r[i] != 44u8 by {
            assert(r[i] == a[i]);
            assert(crate::bytes::is_digit(a[i]));
        }
        crate::bytes::lemma_first_of_unique(r, 44u8, a.len() as int);
        assert(r.subrange(0, a.len() as int) =~= a);
        assert(r.skip(a.len() + 1int) =~= b);
        assert forall|i: int| 0 <= i < r.len() implies range_byte(#[trigger] r[i]) by {
            if i < a.len() {
                assert(r[i] == a[i]);
            } else if i > a.len() {
                assert(r[i] == b[i - a.len() - 1]);
            }
        }
    }
}

/// The ranges part of a written header: `-R1 +R2`.
pub open spec fn ranges_text(h: HunkV) -> Seq<u8> {
    seq![45u8] + crate::emit::range_text(h.old_start, h.old_lines) + seq![32u8, 43u8]
        + crate::emit::range_text(h.new_start, h.new_lines)
}

/// What follows the closing `@@` of a written header.
pub open spec fn section_part(h: HunkV) -> Seq<u8> {
    (if crate::emit::section_of(h).len() > 0 {
        seq![32u8]
    } else {
        Seq::empty()
    }) + h.section
}

/// Where the bytes of a written ranges part stand: no `@` anywhere, one space, all ASCII.
proof fn lemma_ranges_bytes(h: HunkV)
    ensures
        forall|j: int|
            0 <= j < ranges_text(h).len() ==> (#[trigger] ranges_text(h)[j]) != 64u8 && (
            ranges_text(h)[j] == 32u8 <==> j == crate::emit::range_text(
                h.old_start,
                h.old_lines,
            ).len() + 1) && ranges_text(h)[j] < 128,
{
    let r1 = crate::emit::range_text(h.old_start, h.old_lines);
    let r2 = crate::emit::range_text(h.new_start, h.new_lines);
    lemma_range_reads_back(h.old_start, h.old_lines);
    lemma_range_reads_back(h.new_start, h.new_lines);
    let ranges = ranges_text(h);
    assert forall|j: int| 0 <= j < ranges.len() implies (#[trigger] ranges[j]) != 64u8 && (ranges[j]
        == 32u8 <==> j == r1.len() + 1) && ranges[j] < 128 by {
        if j == 0 {
        } else if j <= r1.len() {
            assert(ranges[j] == r1[j - 1]);
            assert(range_byte(r1[j - 1]));
        } else if j == r1.len() + 1 {
        } else if j == r1.len() + 2 {
        } else {
            assert(ranges[j] == r2[j - r1.len() - 3]);
            assert(range_byte(r2[j - r1.len() - 3]));
        }
    }
}

/// The first ` @@` in `body` is at `end` when nothing before it is an `@`.
proof fn lemma_close_at(body: Seq<u8>, end: int)
    requires
        0 <= end,
        end + 3 <= body.len(),
        forall|k: int| 0 <= k < end ==> body[k] != 64u8,
        body[end] == 32u8,
        body[end + 1] == 64u8,
        body[end + 2] == 64u8,
    ensures
        crate::bytes::first_occ(body, crate::bytes::space_at2(), 0) == Some(end),
{
    let needle = crate::bytes::space_at2();
    crate::bytes::lemma_first_occ(body, needle, 0);
    assert(crate::bytes::occurs_at(body, needle, end)) by {
        assert(body.subrange(end, end + 3) =~= needle);
    }
    assert forall|j: int| 0 <= j < end implies !crate::bytes::occurs_at(body, needle, j) by {
        if crate::bytes::occurs_at(body, needle, j) {
            assert(body.subrange(j, j + 3)[1] == needle[1]);
        }
    }
}

/// The first ` @@` after a part with no `@` in it is the one that ends it.
proof fn lemma_close(ranges: Seq<u8>, sec: Seq<u8>)
    requires
        forall|j: int| 0 <= j < ranges.len() ==> (#[trigger] ranges[j]) != 64u8,
    ensures
        crate::parser::header_close(ranges + crate::bytes::space_at2() + sec) == Some(
            ranges.len() as int,
        ),
{
    let body = ranges + crate::bytes::space_at2() + sec;
    let end = ranges.len() as int;
    assert forall|k: int| 0 <= k < end implies body[k] != 64u8 by {
        assert(body[k] == ranges[k]);
    }
    lemma_close_at(body, end);
}

/// A written ranges part reads back as the header's numbers.
proof fn lemma_ranges_reads_back(h: HunkV, line: Seq<u8>)
    ensures
        crate::parser::ranges_spec(ranges_text(h), line) == Ok::<
            (u32, u32, u32, u32),
            crate::parser::ParseErr,
        >((h.old_start, h.old_lines, h.new_start, h.new_lines)),
{
    let r1 = crate::emit::range_text(h.old_start, h.old_lines);
    let r2 = crate::emit::range_text(h.new_start, h.new_lines);
    lemma_range_reads_back(h.old_start, h.old_lines);
    lemma_range_reads_back(h.new_start, h.new_lines);
    lemma_ranges_bytes(h);
    let ranges = ranges_text(h);
    crate::text::lemma_ascii_decodes(ranges);
    let sp: int = r1.len() + 1int;
    crate::bytes::lemma_first_of_unique(ranges, 32u8, sp);
    let old = ranges.subrange(0, sp);
    let new = ranges.skip(sp + 1);
    assert(old =~= seq![45u8] + r1);
    assert(new =~= seq![43u8] + r2);
    crate::bytes::lemma_first_of(new, 32u8);
    assert forall|i: int| 0 <= i < new.len() implies new[i] != 32u8 by {
        assert(new[i] == ranges[sp + 1 + i]);
    }
    assert(old.skip(1) =~= r1);
    assert(new.skip(1) =~= r2);
}

/// A hunk header as written, read back, is the same header over an empty body.
pub proof fn lemma_header_reads_back(h: HunkV)
    ensures
        parse_hunk_header_spec(header_text(h).drop_last()) == Ok::<
            HunkV,
            crate::parser::ParseErr,
        >(HunkV { lines: Seq::empty(), ..h }),
{
    let ranges = ranges_text(h);
    let sec = section_part(h);
    let body = ranges + crate::bytes::space_at2() + sec;
    let line = seq![64u8, 64u8, 32u8] + body;
    assert(header_text(h).drop_last() =~= line);
    assert(line.subrange(0, 3) =~= at2());
    assert(line.skip(3) =~= body);
    lemma_ranges_bytes(h);
    lemma_close(ranges, sec);
    let end = ranges.len() as int;
    assert(body.subrange(0, end) =~= ranges);
    assert(body.skip(end + 3) =~= sec);
    lemma_ranges_reads_back(h, line);
    if crate::emit::section_of(h).len() > 0 {
        assert(sec =~= seq![32u8] + h.section);
        assert(sec.skip(1) =~= h.section);
    } else {
        assert(sec =~= h.section);
        if h.section.len() > 0 {
            assert(h.section.len() == 1 && h.section[0] == 13u8);
        }
    }
}

// ------------------------------------------------------------------------------------------
// What the parser writes back for a line, whatever the line
// ------------------------------------------------------------------------------------------

/// The no-newline note on the last body line of an open hunk, if it has one.
pub open spec fn last_note(s: ParseStateV) -> Option<Seq<u8>> {
    if s.st.in_hunk && s.cur is Some && s.cur->0.content is Text && s.cur->0.content->Text_0.len()
        > 0 && s.cur->0.content->Text_0.last().lines.len() > 0 {
        s.cur->0.content->Text_0.last().lines.last().no_newline
    } else {
        None
    }
}

/// `s` with the note on the last body line of its open hunk set to `n`.
pub open spec fn set_last_note(s: ParseStateV, n: Option<Seq<u8>>) -> ParseStateV {
    let f = s.cur->0;
    let hs = f.content->Text_0;
    let h = hs.last();
    let l = h.lines.last();
    ParseStateV {
        cur: Some(
            FileV {
                content: ContentV::Text(
                    hs.drop_last().push(
                        HunkV { lines: h.lines.update(h.lines.len() - 1, LineV { no_newline: n, ..l }), ..h },
                    ),
                ),
                ..f
            },
        ),
        ..s
    }
}

/// `line` is a no-newline note the open hunk of `s` takes for its last body line.
pub open spec fn takes_note(s: ParseStateV, line: Seq<u8>) -> bool {
    &&& line.len() >= 2
    &&& line[0] == 92u8
    &&& line[1] == 32u8
    &&& s.st.in_hunk
    &&& s.cur is Some
    &&& s.cur->0.content is Text
    &&& s.cur->0.content->Text_0.len() > 0
    &&& s.cur->0.content->Text_0.last().lines.len() > 0
}

/// `line` is a note that replaces one the last body line already carries: the model keeps the
/// later one only.
pub open spec fn replaces_note(s: ParseStateV, line: Seq<u8>) -> bool {
    takes_note(s, line) && last_note(s) is Some
}

/// What is written back for `line` read in state `s` (other than a replacing note): a hunk
/// header in git's own form, a lone space for an empty line read as context, the line itself
/// otherwise.
pub open spec fn written_as(s: ParseStateV, line: Seq<u8>) -> Seq<u8> {
    if is_prefix(diff_git(), line) {
        line
    } else {
        let s1 = entry_after(s, line);
        match s1.cur {
            None => line,
            Some(f) => if is_prefix(at2(), line) {
                match parse_hunk_header_spec(line) {
                    Ok(h) => header_text(h).drop_last(),
                    Err(_) => line,
                }
            } else if s1.st.in_hunk && f.content is Text && f.content->Text_0.len() > 0
                && take_body_line_spec(f.content->Text_0.last(), line, s1.st.remaining).2
                && line.len() == 0 {
                seq![32u8]
            } else {
                line
            },
        }
    }
}

/// No byte of `l` is a newline.
pub open spec fn one_line(l: Seq<u8>) -> bool {
    forall|i: int| 0 <= i < l.len() ==> l[i] != 10u8
}

/// A line does not open with a prefix whose first byte it does not start with.
proof fn lemma_not_prefix(p: Seq<u8>, line: Seq<u8>)
    requires
        p.len() > 0,
        line.len() > 0,
        p[0] != line[0],
    ensures
        !is_prefix(p, line),
{
    if is_prefix(p, line) {
        assert(line.subrange(0, p.len() as int)[0] == p[0]);
    }
}

/// A note the open hunk takes sets it on the last body line and changes nothing else.
proof fn lemma_note_step(s: ParseStateV, line: Seq<u8>)
    requires
        takes_note(s, line),
    ensures
        step(s, line) == Ok::<ParseStateV, crate::parser::ParseErr>(set_last_note(s, Some(line))),
{
    lemma_not_prefix(crate::bytes::diff_cc(), line);
    lemma_not_prefix(crate::bytes::diff_combined(), line);
    lemma_not_prefix(crate::bytes::at3(), line);
    lemma_not_prefix(diff_git(), line);
    lemma_not_prefix(crate::bytes::minus3(), line);
    lemma_not_prefix(at2(), line);
    let f = s.cur->0;
    let hs = f.content->Text_0;
    let h = hs.last();
    let r = take_body_line_spec(h, line, s.st.remaining);
    assert(r.2);
    assert(FileState { remaining: r.1, ..s.st } == s.st);
    assert(step(s, line) =~= Ok::<ParseStateV, crate::parser::ParseErr>(set_last_note(s, Some(line))));
}

/// The section a header line is read with is the tail of that line.
proof fn lemma_header_section(line: Seq<u8>)
    requires
        parse_hunk_header_spec(line) is Ok,
    ensures
        parse_hunk_header_spec(line)->Ok_0.lines.len() == 0,
        exists|j: int|
            0 <= j <= line.len() && parse_hunk_header_spec(line)->Ok_0.section == line.skip(j),
{
    let body = line.skip(3);
    let end = crate::parser::header_close(body)->0;
    crate::bytes::lemma_first_occ(body, crate::bytes::space_at2(), 0);
    let after = body.skip(end + 3);
    assert(after =~= line.skip(end + 6));
    if after.len() > 0 && after[0] == 32u8 {
        assert(after.skip(1) =~= line.skip(end + 7));
        assert(parse_hunk_header_spec(line)->Ok_0.section == line.skip(end + 7));
    } else {
        assert(parse_hunk_header_spec(line)->Ok_0.section == line.skip(end + 6));
    }
}

/// A header written from one read off a line holds no newline when that line holds none.
proof fn lemma_header_one_line(line: Seq<u8>)
    requires
        parse_hunk_header_spec(line) is Ok,
        one_line(line),
    ensures
        one_line(header_text(parse_hunk_header_spec(line)->Ok_0).drop_last()),
{
    let h = parse_hunk_header_spec(line)->Ok_0;
    lemma_header_section(line);
    let j = choose|j: int| 0 <= j <= line.len() && h.section == line.skip(j);
    assert forall|i: int| 0 <= i < h.section.len() implies h.section[i] != 10u8 by {
        assert(h.section[i] == line[j + i]);
    }
    let r1 = crate::emit::range_text(h.old_start, h.old_lines);
    let r2 = crate::emit::range_text(h.new_start, h.new_lines);
    lemma_range_reads_back(h.old_start, h.old_lines);
    lemma_range_reads_back(h.new_start, h.new_lines);
    let w = header_text(h).drop_last();
    let sp = if crate::emit::section_of(h).len() > 0 {
        seq![32u8]
    } else {
        Seq::<u8>::empty()
    };
    let head = crate::bytes::at2_minus() + r1 + crate::bytes::space_plus() + r2
        + crate::bytes::space_at2() + sp;
    assert(w =~= head + h.section);
    assert forall|i: int| 0 <= i < head.len() implies head[i] != 10u8 by {
        let a = 4 + r1.len();
        let b = a + 2 + r2.len();
        if i < 4 {
        } else if i < a {
            assert(head[i] == r1[i - 4]);
            assert(range_byte(r1[i - 4]));
        } else if i < a + 2 {
        } else if i < b {
            assert(head[i] == r2[i - a - 2]);
            assert(range_byte(r2[i - a - 2]));
        } else {
        }
    }
    assert forall|i: int| 0 <= i < w.len() implies w[i] != 10u8 by {
        if i < head.len() {
            assert(w[i] == head[i]);
        } else {
            assert(w[i] == h.section[i - head.len()]);
        }
    }
}

/// The first bytes of a written header: `@@ `, so no other marker opens it.
proof fn lemma_written_header_opens(h: HunkV)
    ensures
        is_prefix(at2(), header_text(h).drop_last()),
        !crate::parser::is_combined_spec(header_text(h).drop_last()),
        !is_prefix(diff_git(), header_text(h).drop_last()),
        !is_prefix(crate::bytes::minus3(), header_text(h).drop_last()),
        header_text(h) == header_text(h).drop_last().push(10u8),
        header_text(h).drop_last().len() > 0,
{
    let w = header_text(h).drop_last();
    assert(header_text(h) =~= w.push(10u8));
    assert(w[0] == 64u8 && w[1] == 64u8 && w[2] == 32u8);
    lemma_not_prefix(crate::bytes::diff_cc(), w);
    lemma_not_prefix(crate::bytes::diff_combined(), w);
    lemma_not_prefix(diff_git(), w);
    lemma_not_prefix(crate::bytes::minus3(), w);
    assert(!is_prefix(crate::bytes::at3(), w)) by {
        if is_prefix(crate::bytes::at3(), w) {
            assert(w.subrange(0, 3)[2] == w[2]);
        }
    }
    assert(is_prefix(at2(), w)) by {
        assert(w.subrange(0, 3) =~= at2());
    }
}

/// Two header lines that read as the same header step the same, once an entry is open.
proof fn lemma_same_header_step(s: ParseStateV, a: Seq<u8>, b: Seq<u8>)
    requires
        s.cur is Some,
        !crate::parser::is_combined_spec(a),
        !crate::parser::is_combined_spec(b),
        !is_prefix(diff_git(), a),
        !is_prefix(diff_git(), b),
        !is_prefix(crate::bytes::minus3(), a),
        !is_prefix(crate::bytes::minus3(), b),
        is_prefix(at2(), a),
        is_prefix(at2(), b),
        parse_hunk_header_spec(a) == parse_hunk_header_spec(b),
    ensures
        step(s, a) == step(s, b),
{
    assert(entry_after(s, a) == s);
    assert(entry_after(s, b) == s);
}

/// A header line is written back in git's own form, which reads as the same header.
#[verifier::rlimit(80)]
proof fn lemma_written_header(s: ParseStateV, line: Seq<u8>)
    requires
        step(s, line) is Ok,
        !is_prefix(diff_git(), line),
        entry_after(s, line).cur is Some,
        is_prefix(at2(), line),
    ensures
        reads_back(s, written_as(s, line)),
        step(s, written_as(s, line)) == step(s, line),
        one_line(line) ==> one_line(written_as(s, line)),
        written_as(s, line).len() > 0,
{
    lemma_not_prefix(crate::bytes::minus3(), line);
    assert(entry_after(s, line) == s);
    let h = parse_hunk_header_spec(line)->Ok_0;
    let w = header_text(h).drop_last();
    assert(written_as(s, line) == w);
    lemma_header_reads_back(h);
    lemma_header_section(line);
    assert(HunkV { lines: Seq::empty(), ..h } == h);
    lemma_written_header_opens(h);
    assert(!crate::parser::is_combined_spec(line)) by {
        assert(step(s, line) is Ok);
    }
    lemma_same_header_step(s, w, line);
    assert(entry_after(s, w) == s);
    if one_line(line) {
        lemma_header_one_line(line);
    }
}

/// An empty line read as context is written back as a lone space, read as the same line.
#[verifier::rlimit(80)]
proof fn lemma_written_space(s: ParseStateV, line: Seq<u8>)
    requires
        step(s, line) is Ok,
        entry_after(s, line).cur is Some,
        entry_after(s, line).st.in_hunk,
        entry_after(s, line).cur->0.content is Text,
        entry_after(s, line).cur->0.content->Text_0.len() > 0,
        take_body_line_spec(
            entry_after(s, line).cur->0.content->Text_0.last(),
            line,
            entry_after(s, line).st.remaining,
        ).2,
        line.len() == 0,
    ensures
        written_as(s, line) == seq![32u8],
        reads_back(s, written_as(s, line)),
        step(s, written_as(s, line)) == step(s, line),
{
    let w = seq![32u8];
    assert(line =~= Seq::<u8>::empty());
    assert(!is_prefix(crate::bytes::minus3(), line));
    assert(!is_prefix(diff_git(), line));
    assert(!is_prefix(at2(), line));
    assert(entry_after(s, line) == s);
    assert(written_as(s, line) == w);
    lemma_not_prefix(crate::bytes::diff_cc(), w);
    lemma_not_prefix(crate::bytes::diff_combined(), w);
    lemma_not_prefix(crate::bytes::at3(), w);
    lemma_not_prefix(diff_git(), w);
    lemma_not_prefix(crate::bytes::minus3(), w);
    lemma_not_prefix(at2(), w);
    assert(!crate::parser::is_combined_spec(line));
    assert(entry_after(s, w) == s);
    assert(w.skip(1) =~= Seq::<u8>::empty());
    let hs = s.cur->0.content->Text_0;
    assert(take_body_line_spec(hs.last(), w, s.st.remaining) == take_body_line_spec(
        hs.last(),
        line,
        s.st.remaining,
    ));
}

/// What is written back for a line reads back, and is read in the same way as the line was.
proof fn lemma_written_step(s: ParseStateV, line: Seq<u8>, k: int)
    requires
        state_ok(s, k),
        step(s, line) is Ok,
        !replaces_note(s, line),
    ensures
        reads_back(s, written_as(s, line)),
        step(s, written_as(s, line)) == step(s, line),
        one_line(line) ==> one_line(written_as(s, line)),
        line.len() > 0 ==> written_as(s, line).len() > 0,
{
    if is_prefix(diff_git(), line) {
    } else {
        let s1 = entry_after(s, line);
        match s1.cur {
            None => {},
            Some(f) => {
                if is_prefix(at2(), line) {
                    lemma_written_header(s, line);
                } else if s1.st.in_hunk && f.content is Text && f.content->Text_0.len() > 0
                    && take_body_line_spec(f.content->Text_0.last(), line, s1.st.remaining).2
                    && line.len() == 0 {
                    lemma_written_space(s, line);
                } else {
                    assert(written_as(s, line) == line);
                    if s1.st.in_hunk && f.content is Text && f.content->Text_0.len() > 0
                        && take_body_line_spec(f.content->Text_0.last(), line, s1.st.remaining).2
                        && line[0] == 92u8 {
                        if starts_plain_file_spec(line, s.cur.is_some(), s.st) {
                            assert(!s1.st.in_hunk);
                        }
                        assert(s1 == s);
                        assert(takes_note(s, line));
                    }
                }
            },
        }
    }
}

/// `l` is a no-newline note line.
pub open spec fn is_note_line(l: Seq<u8>) -> bool {
    l.len() >= 2 && l[0] == 92u8 && l[1] == 32u8
}

/// The open hunk's last body line and its state.
pub open spec fn has_last_line(s: ParseStateV) -> bool {
    &&& s.st.in_hunk
    &&& s.cur is Some
    &&& s.cur->0.content is Text
    &&& s.cur->0.content->Text_0.len() > 0
    &&& s.cur->0.content->Text_0.last().lines.len() > 0
}

/// Setting the note twice is setting it once, and setting the one it carries changes nothing.
proof fn lemma_set_last_note(s: ParseStateV, a: Option<Seq<u8>>, b: Option<Seq<u8>>)
    requires
        has_last_line(s),
    ensures
        has_last_line(set_last_note(s, a)),
        last_note(set_last_note(s, a)) == a,
        set_last_note(set_last_note(s, a), b) == set_last_note(s, b),
        set_last_note(s, last_note(s)) == s,
        set_last_note(s, a).st == s.st,
        set_last_note(s, a).preamble == s.preamble,
        set_last_note(s, a).files == s.files,
        set_last_note(s, a).cur->0.trailer == s.cur->0.trailer,
        set_last_note(s, a).cur->0.content->Text_0.len() == s.cur->0.content->Text_0.len(),
{
    let f = s.cur->0;
    let hs = f.content->Text_0;
    let h = hs.last();
    let l = h.lines.last();
    let n = h.lines.len() - 1;
    let ha = HunkV { lines: h.lines.update(n, LineV { no_newline: a, ..l }), ..h };
    let hsa = hs.drop_last().push(ha);
    assert(hsa.last() == ha);
    assert(hsa.drop_last() =~= hs.drop_last());
    let la = ha.lines.last();
    assert(la == LineV { no_newline: a, ..l });
    assert(ha.lines.update(n, LineV { no_newline: b, ..la }) =~= h.lines.update(
        n,
        LineV { no_newline: b, ..l },
    ));
    assert(h.lines.update(n, LineV { no_newline: l.no_newline, ..l }) =~= h.lines);
    assert(HunkV { lines: h.lines, ..h } == h);
    assert(hs.drop_last().push(h) =~= hs);
    assert(FileV { content: ContentV::Text(hs), ..f } == f);
}

/// A note the open hunk takes, in a state that has one, is read as the note's replacement: in
/// the state without the old note, both the old and the new note read back, and reading the new
/// one gives what replacing gives.
proof fn lemma_replace_note(s: ParseStateV, line: Seq<u8>, k: int)
    requires
        state_ok(s, k),
        replaces_note(s, line),
        last_note(s) matches Some(m) && is_note_line(m),
    ensures
        state_ok(set_last_note(s, None), k),
        reads_back(set_last_note(s, None), line),
        reads_back(set_last_note(s, None), last_note(s)->0),
        step(set_last_note(s, None), line) == step(s, line),
        step(set_last_note(s, None), last_note(s)->0) == Ok::<ParseStateV, crate::parser::ParseErr>(s),
        step(s, line) == Ok::<ParseStateV, crate::parser::ParseErr>(set_last_note(s, Some(line))),
{
    let m = last_note(s)->0;
    let t0 = set_last_note(s, None);
    assert(has_last_line(s));
    lemma_set_last_note(s, None, Some(line));
    lemma_set_last_note(s, None, Some(m));
    assert(takes_note(t0, line));
    assert(takes_note(t0, m));
    lemma_note_step(s, line);
    lemma_note_step(t0, line);
    lemma_note_step(t0, m);
    assert(set_last_note(s, Some(m)) == s);
    // Both notes read back in the state without one.
    lemma_not_prefix(diff_git(), line);
    lemma_not_prefix(crate::bytes::minus3(), line);
    lemma_not_prefix(at2(), line);
    lemma_not_prefix(diff_git(), m);
    lemma_not_prefix(crate::bytes::minus3(), m);
    lemma_not_prefix(at2(), m);
    assert(entry_after(t0, line) == t0);
    assert(entry_after(t0, m) == t0);
    assert(last_note(t0) == None::<Seq<u8>>);
}

/// After a step, the open hunk's last line carries a note only when the step took that note,
/// the line read.
#[verifier::rlimit(80)]
proof fn lemma_last_note_after(s: ParseStateV, line: Seq<u8>, k: int)
    requires
        state_ok(s, k),
        step(s, line) is Ok,
    ensures
        last_note(step(s, line)->Ok_0) is Some ==> takes_note(s, line) && step(s, line)->Ok_0
            == set_last_note(s, Some(line)),
{
    let t = step(s, line)->Ok_0;
    if takes_note(s, line) {
        lemma_note_step(s, line);
    } else if last_note(t) is Some {
        if is_prefix(diff_git(), line) {
            assert(!t.st.in_hunk);
        } else {
            let s1 = entry_after(s, line);
            if starts_plain_file_spec(line, s.cur.is_some(), s.st) {
                assert(!s1.st.in_hunk);
                assert(!is_prefix(at2(), line)) by {
                    lemma_not_prefix(at2(), line);
                }
                assert(!t.st.in_hunk);
            } else {
                assert(s1 == s);
                match s.cur {
                    None => {
                        assert(!t.st.in_hunk);
                    },
                    Some(f) => {
                        if is_prefix(at2(), line) {
                            let h = parse_hunk_header_spec(line)->Ok_0;
                            lemma_header_section(line);
                            assert(t.cur->0.content->Text_0.last() == h);
                        } else if s.st.in_hunk {
                            let hs = f.content->Text_0;
                            let r = take_body_line_spec(hs.last(), line, s.st.remaining);
                            if r.2 {
                                if line.len() > 0 && line[0] == 92u8 {
                                    assert(takes_note(s, line));
                                }
                                assert(t.cur->0.content->Text_0.last() == r.0);
                                assert(r.0.lines.last().no_newline is None);
                            } else {
                                assert(!t.st.in_hunk);
                            }
                        } else {
                            assert(!t.st.in_hunk);
                        }
                    },
                }
            }
        }
    }
}

// ------------------------------------------------------------------------------------------
// What is written back reads back as the same diff
// ------------------------------------------------------------------------------------------

/// The lines written back for `lines`, read in order: each as [`written_as`] writes it, and a
/// replacing note in place of the note it replaces.
pub open spec fn rendered(lines: Seq<Seq<u8>>) -> Seq<Seq<u8>>
    decreases lines.len(),
{
    if lines.len() == 0 {
        Seq::empty()
    } else {
        let p = lines.drop_last();
        let l = lines.last();
        match run(p) {
            Ok(s) => if replaces_note(s, l) {
                rendered(p).drop_last().push(l)
            } else {
                rendered(p).push(written_as(s, l))
            },
            Err(_) => rendered(p),
        }
    }
}

/// A note on the last body line of `s` was the last line written, and without it the lines
/// written read as `s` without the note.
pub open spec fn note_written_last(r: Seq<Seq<u8>>, s: ParseStateV) -> bool {
    match last_note(s) {
        Some(m) => {
            &&& is_note_line(m)
            &&& r.len() > 0
            &&& r.last() == m
            &&& run(r.drop_last()) == Ok::<ParseStateV, crate::parser::ParseErr>(set_last_note(s, None))
        },
        None => true,
    }
}

proof fn lemma_cancel_line(a: Seq<u8>, b: Seq<u8>, x: Seq<u8>)
    requires
        a + x.push(10u8) == b + x.push(10u8),
    ensures
        a == b,
{
    let y = x.push(10u8);
    assert((a + y).len() == a.len() + y.len());
    assert((b + y).len() == b.len() + y.len());
    assert(a.len() == b.len());
    assert forall|i: int| 0 <= i < a.len() implies a[i] == b[i] by {
        assert((a + y)[i] == a[i]);
        assert((b + y)[i] == b[i]);
    }
    assert(a =~= b);
}

/// The step of [`lemma_rendered`] on a note that replaces the one before it.
#[verifier::rlimit(80)]
proof fn lemma_rendered_replace(s: ParseStateV, r: Seq<Seq<u8>>, l: Seq<u8>, k: int)
    requires
        run(r) == Ok::<ParseStateV, crate::parser::ParseErr>(s),
        join_lines(r) == state_text(s),
        state_ok(s, k),
        0 <= k < usize::MAX,
        note_written_last(r, s),
        replaces_note(s, l),
    ensures
        run(r.drop_last().push(l)) == step(s, l),
        step(s, l) is Ok,
        join_lines(r.drop_last().push(l)) == state_text(step(s, l)->Ok_0),
        state_ok(step(s, l)->Ok_0, k + 1),
        note_written_last(r.drop_last().push(l), step(s, l)->Ok_0),
{
    let m = last_note(s)->0;
    let t0 = set_last_note(s, None);
    lemma_replace_note(s, l, k);
    let r2 = r.drop_last().push(l);
    assert(r2.drop_last() =~= r.drop_last());
    assert(r2.last() == l);
    assert(run(r2) == step(t0, l));
    lemma_step_text(t0, m, k);
    lemma_step_text(t0, l, k);
    assert(r =~= r.drop_last().push(m));
    lemma_join_push(r.drop_last(), m);
    lemma_join_push(r.drop_last(), l);
    lemma_cancel_line(join_lines(r.drop_last()), state_text(t0), m);
    assert(has_last_line(s));
    lemma_set_last_note(s, Some(l), None);
    let t = step(s, l)->Ok_0;
    assert(t == set_last_note(s, Some(l)));
    lemma_set_last_note(t, None, None);
    assert(last_note(t) == Some(l));
    assert(set_last_note(t, None) == t0);
}

/// The step of [`lemma_rendered`] on any other line.
#[verifier::rlimit(80)]
proof fn lemma_rendered_write(s: ParseStateV, r: Seq<Seq<u8>>, l: Seq<u8>, k: int)
    requires
        run(r) == Ok::<ParseStateV, crate::parser::ParseErr>(s),
        join_lines(r) == state_text(s),
        state_ok(s, k),
        0 <= k < usize::MAX,
        note_written_last(r, s),
        !replaces_note(s, l),
        step(s, l) is Ok,
    ensures
        run(r.push(written_as(s, l))) == step(s, l),
        join_lines(r.push(written_as(s, l))) == state_text(step(s, l)->Ok_0),
        state_ok(step(s, l)->Ok_0, k + 1),
        note_written_last(r.push(written_as(s, l)), step(s, l)->Ok_0),
{
    let w = written_as(s, l);
    lemma_written_step(s, l, k);
    let r2 = r.push(w);
    assert(r2.drop_last() =~= r);
    assert(r2.last() == w);
    assert(run(r2) == step(s, w));
    lemma_step_text(s, w, k);
    lemma_join_push(r, w);
    lemma_last_note_after(s, l, k);
    let t = step(s, l)->Ok_0;
    if last_note(t) is Some {
        assert(takes_note(s, l));
        assert(has_last_line(s));
        lemma_set_last_note(s, Some(l), None);
        lemma_set_last_note(s, None, None);
        assert(last_note(s) is None);
        assert(set_last_note(s, None) == s);
        lemma_not_prefix(diff_git(), l);
        lemma_not_prefix(crate::bytes::minus3(), l);
        lemma_not_prefix(at2(), l);
        assert(entry_after(s, l) == s);
        assert(w == l);
        assert(last_note(t) == Some(l));
    }
}

/// Reading what was written back for `lines` gives the state reading `lines` gives, and what
/// is written back is the text that state stands for.
proof fn lemma_rendered(lines: Seq<Seq<u8>>)
    requires
        run(lines) is Ok,
        lines.len() <= usize::MAX,
    ensures
        run(rendered(lines)) == run(lines),
        join_lines(rendered(lines)) == state_text(run(lines)->Ok_0),
        state_ok(run(lines)->Ok_0, lines.len() as int),
        note_written_last(rendered(lines), run(lines)->Ok_0),
        (forall|i: int| 0 <= i < lines.len() ==> one_line(#[trigger] lines[i])) ==> (forall|i: int|
            0 <= i < rendered(lines).len() ==> one_line(#[trigger] rendered(lines)[i])),
        rendered(lines).len() == 0 <==> lines.len() == 0,
        lines.len() > 0 && lines.last().len() > 0 ==> rendered(lines).last().len() > 0,
    decreases lines.len(),
{
    if lines.len() == 0 {
        assert(close_cur(Seq::<FileV>::empty(), None) =~= Seq::<FileV>::empty());
        assert(state_text(run(lines)->Ok_0) =~= join_lines(rendered(lines)));
    } else {
        let p = lines.drop_last();
        let l = lines.last();
        let k = p.len() as int;
        assert(run(p) is Ok);
        lemma_rendered(p);
        let s = run(p)->Ok_0;
        let r = rendered(p);
        assert(run(lines) == step(s, l));
        assert(forall|i: int| 0 <= i < p.len() ==> p[i] == lines[i]);
        let r2 = rendered(lines);
        if replaces_note(s, l) {
            assert(r2 == r.drop_last().push(l));
            lemma_rendered_replace(s, r, l, k);
        } else {
            assert(r2 == r.push(written_as(s, l)));
            lemma_rendered_write(s, r, l, k);
            lemma_written_step(s, l, k);
        }
        if forall|i: int| 0 <= i < lines.len() ==> one_line(#[trigger] lines[i]) {
            assert(one_line(lines[lines.len() - 1]));
            assert forall|i: int| 0 <= i < r2.len() implies one_line(#[trigger] r2[i]) by {
                if i < r2.len() - 1 {
                    assert(r2[i] == r[i]);
                }
            }
        }
    }
}

/// Splitting a suffix is splitting the whole from where the suffix starts.
proof fn lemma_pieces_shift(s: Seq<u8>, c: int, start: int, i: int)
    requires
        0 <= c <= start <= i <= s.len(),
    ensures
        pieces_from(s, start, i) == pieces_from(s.skip(c), start - c, i - c),
    decreases s.len() - i,
{
    let t = s.skip(c);
    if i < s.len() {
        assert(t[i - c] == s[i]);
        if s[i] == 10u8 {
            lemma_pieces_shift(s, c, i + 1, i + 1);
            assert(t.subrange(start - c, i - c) =~= s.subrange(start, i));
        } else {
            lemma_pieces_shift(s, c, start, i + 1);
        }
    } else {
        assert(t.subrange(start - c, t.len() as int) =~= s.subrange(start, s.len() as int));
    }
}

/// The pieces of lines joined with newlines, followed by a tail with none, are the lines and
/// the tail.
proof fn lemma_pieces_of_join(r: Seq<Seq<u8>>, tail: Seq<u8>)
    requires
        forall|i: int| 0 <= i < r.len() ==> one_line(#[trigger] r[i]),
        one_line(tail),
    ensures
        pieces(join_lines(r) + tail) == r.push(tail),
    decreases r.len(),
{
    let s = join_lines(r) + tail;
    if r.len() == 0 {
        assert(join_lines(r) =~= Seq::<u8>::empty());
        assert(s =~= tail);
        crate::parser::lemma_pieces_skip(s, 0, 0, s.len() as int);
        assert(s.subrange(0, s.len() as int) =~= tail);
        assert(pieces(s) =~= r.push(tail));
    } else {
        let x = r[0];
        let rest = r.skip(1);
        assert(r =~= seq![x] + rest);
        lemma_join_front(x, rest);
        assert(forall|i: int| 0 <= i < rest.len() ==> #[trigger] rest[i] == r[i + 1]);
        assert(one_line(x));
        lemma_pieces_of_join(rest, tail);
        let c: int = x.len() + 1int;
        assert(s =~= x.push(10u8) + (join_lines(rest) + tail));
        assert forall|m: int| 0 <= m < x.len() implies s[m] != 10u8 by {
            assert(s[m] == x[m]);
        }
        crate::parser::lemma_pieces_skip(s, 0, 0, x.len() as int);
        assert(s[x.len() as int] == 10u8);
        assert(s.subrange(0, x.len() as int) =~= x);
        lemma_pieces_shift(s, c, c, c);
        assert(s.skip(c) =~= join_lines(rest) + tail);
        assert(pieces(s) == seq![x] + rest.push(tail));
        assert(seq![x] + rest.push(tail) =~= r.push(tail));
    }
}

/// No piece of a split at newlines holds one.
proof fn lemma_pieces_one_line(s: Seq<u8>, start: int, i: int)
    requires
        0 <= start <= i <= s.len(),
        forall|m: int| start <= m < i ==> s[m] != 10u8,
    ensures
        forall|j: int|
            0 <= j < pieces_from(s, start, i).len() ==> one_line(#[trigger] pieces_from(s, start, i)[j]),
    decreases s.len() - i,
{
    if i < s.len() {
        if s[i] == 10u8 {
            lemma_pieces_one_line(s, i + 1, i + 1);
            let rest = pieces_from(s, i + 1, i + 1);
            let p = pieces_from(s, start, i);
            assert(p == seq![s.subrange(start, i)] + rest);
            assert forall|j: int| 0 <= j < p.len() implies one_line(#[trigger] p[j]) by {
                if j == 0 {
                    assert(p[0] == s.subrange(start, i));
                    assert forall|m: int| 0 <= m < p[0].len() implies p[0][m] != 10u8 by {
                        assert(p[0][m] == s[start + m]);
                    }
                } else {
                    assert(p[j] == rest[j - 1]);
                }
            }
        } else {
            lemma_pieces_one_line(s, start, i + 1);
            assert(pieces_from(s, start, i) == pieces_from(s, start, i + 1));
        }
    } else {
        let p = pieces_from(s, start, i);
        assert(p == seq![s.subrange(start, s.len() as int)]);
        assert(p.len() == 1);
        assert forall|m: int| 0 <= m < p[0].len() implies p[0][m] != 10u8 by {
            assert(p[0][m] == s[start + m]);
        }
    }
}

/// Lines without newlines, joined with them, less the final one when `drop` says so, split
/// back into the same lines; the text ends without a newline exactly when one was dropped.
proof fn lemma_lines_of_written(r: Seq<Seq<u8>>, drop: bool)
    requires
        forall|i: int| 0 <= i < r.len() ==> one_line(#[trigger] r[i]),
        drop ==> r.len() > 0 && r.last().len() > 0,
    ensures
        ({
            let t = if drop {
                join_lines(r).drop_last()
            } else {
                join_lines(r)
            };
            lines_of(t) == r && ((t.len() > 0 && t.last() != 10u8) == drop)
        }),
{
    if drop {
        let body = join_lines(r.drop_last());
        assert(r =~= r.drop_last().push(r.last()));
        lemma_join_push(r.drop_last(), r.last());
        let t = join_lines(r).drop_last();
        assert(t =~= body + r.last());
        assert(forall|i: int| 0 <= i < r.drop_last().len() ==> #[trigger] r.drop_last()[i] == r[i]);
        assert(one_line(r[r.len() - 1]));
        lemma_pieces_of_join(r.drop_last(), r.last());
        assert(pieces(t) =~= r);
        assert(t.last() == r.last()[r.last().len() - 1]);
    } else {
        let t = join_lines(r);
        assert(t + Seq::<u8>::empty() =~= t);
        lemma_pieces_of_join(r, Seq::empty());
        assert(r.push(Seq::<u8>::empty()).drop_last() =~= r);
        if r.len() > 0 {
            assert(r =~= r.drop_last().push(r.last()));
            lemma_join_push(r.drop_last(), r.last());
        }
    }
}

/// Writing back a parsed diff and reading the result gives the same diff: the parser reads its
/// own output as it read the input, whatever the input was. (Byte for byte, the output can
/// differ from the input where a line does not read back as written; see
/// [`lemma_round_trip`].) Writing the diff read back then gives the same bytes again.
pub proof fn lemma_parse_emit_fixed_point(input: Seq<u8>)
    requires
        input.len() <= isize::MAX,
        parse_spec(input) is Ok,
    ensures
        parse_spec(patch_text(parse_spec(input)->Ok_0)) == parse_spec(input),
        patch_text(parse_spec(patch_text(parse_spec(input)->Ok_0))->Ok_0) == patch_text(
            parse_spec(input)->Ok_0,
        ),
{
    let ls = lines_of(input);
    let p = pieces(input);
    lemma_pieces_count(input, 0, 0);
    lemma_pieces_join(input, 0, 0);
    lemma_pieces_one_line(input, 0, 0);
    assert(forall|i: int| 0 <= i < ls.len() ==> #[trigger] ls[i] == p[i]);
    assert(run(ls) is Ok);
    lemma_rendered(ls);
    let s = run(ls)->Ok_0;
    let r = rendered(ls);
    let pv = parse_spec(input)->Ok_0;
    assert(patch_lines_text(pv) == join_lines(r));
    let j = choose|j: int|
        0 <= j <= input.len() && (j == 0 || input[j - 1] == 10u8) && (forall|m: int|
            j <= m < input.len() ==> input[m] != 10u8) && p.last() == input.subrange(
            j,
            input.len() as int,
        );
    if pv.no_trailing_newline {
        assert(input.last() != 10u8);
        assert(j < input.len());
        assert(p.last().len() > 0);
        assert(ls == p);
        assert(r.last().len() > 0);
    }
    lemma_lines_of_written(r, pv.no_trailing_newline);
    if pv.no_trailing_newline {
        assert(r =~= r.drop_last().push(r.last()));
        lemma_join_push(r.drop_last(), r.last());
    }

}

} // verus!
