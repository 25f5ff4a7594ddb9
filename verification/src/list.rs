//! Listing the addressable sub-hunks of a diff: a terminal listing, and the entries a JSON
//! listing is made of.

use vstd::prelude::*;

use crate::emit::{range_text, section_of};
use crate::model::{
    changed_of, count_of, display_bytes, hunks_view, ContentV, FileContent, FileDiff, FileV, Hunk, HunkV,
    LineKind, LineV, Patch, PatchV,
};
use crate::select::{build_view, file_subs_spec, file_fits};
use crate::split::hunks_of;
use crate::subhunk_id::{hex_bytes, subhunk_hash_spec};

verus! {

/// The header of a sub-hunk as listed, as bytes.
fn header_bytes(h: &Hunk) -> (r: Vec<u8>)
    ensures
        r@ == list_header_bytes(h@),
{
    let mut out: Vec<u8> = Vec::new();
    crate::bytes::push_all(&mut out, crate::bytes::at2_minus_bytes());
    let old = crate::emit::fmt_range(h.old_start, h.old_lines);
    crate::bytes::push_all(&mut out, old.as_slice());
    crate::bytes::push_all(&mut out, crate::bytes::space_plus_bytes());
    let new = crate::emit::fmt_range(h.new_start, h.new_lines);
    crate::bytes::push_all(&mut out, new.as_slice());
    crate::bytes::push_all(&mut out, crate::bytes::space_at2_bytes());
    let section = crate::emit::section_text(h);
    if section.len() > 0 {
        out.push(32);
        crate::bytes::push_all(&mut out, section);
    }
    proof {
        assert(out@ =~= list_header_bytes(h@));
    }
    out
}

/// The `@@` header of a sub-hunk as listed, in bytes.
pub open spec fn list_header_bytes(h: HunkV) -> Seq<u8> {
    crate::bytes::at2_minus() + range_text(h.old_start, h.old_lines) + crate::bytes::space_plus()
        + range_text(h.new_start, h.new_lines) + crate::bytes::space_at2() + if section_of(h).len()
        > 0 {
        seq![32u8] + section_of(h)
    } else {
        Seq::empty()
    }
}

/// The `@@ -old +new @@ section` header of a sub-hunk as listed.
pub fn header_string(h: &Hunk) -> (r: String)
    ensures
        r@ == crate::text::lossy_utf8(list_header_bytes(h@)),
{
    let b = header_bytes(h);
    crate::text::lossy_string(b.as_slice())
}

/// The sub-hunk consists of additions alone (no context, no deletion): a file creation or a
/// pure append. An empty body is not addition-only.
pub open spec fn addition_only_spec(h: HunkV) -> bool {
    h.lines.len() > 0 && forall|i: int| 0 <= i < h.lines.len() ==> (#[trigger] h.lines[i]).kind
        == LineKind::Add
}

/// Whether the sub-hunk consists of additions alone.
pub fn addition_only(h: &Hunk) -> (r: bool)
    ensures
        r == addition_only_spec(h@),
{
    if h.lines.len() == 0 {
        return false;
    }
    let mut i: usize = 0;
    while i < h.lines.len()
        invariant
            i <= h.lines@.len(),
            forall|j: int| 0 <= j < i ==> (#[trigger] h@.lines[j]).kind == LineKind::Add,
        decreases h.lines@.len() - i,
    {
        proof {
            assert(h@.lines[i as int] == h.lines@[i as int]@);
        }
        if h.lines[i].kind != LineKind::Add {
            return false;
        }
        i = i + 1;
    }
    true
}

/// The preview of a sub-hunk: its first changed line with its marker, or nothing.
pub open spec fn preview_bytes(h: HunkV) -> Seq<u8> {
    let cs = changed_of(h.lines);
    if cs.len() == 0 {
        Seq::empty()
    } else {
        seq![crate::subhunk_id::change_marker(cs[0].kind)] + cs[0].text
    }
}

/// The preview of a sub-hunk, as bytes.
fn preview_of(h: &Hunk) -> (r: Vec<u8>)
    ensures
        r@ == preview_bytes(h@),
{
    let cs = h.changed_lines();
    proof {
        crate::model::lemma_changed_of_kinds(h@.lines);
    }
    if cs.len() == 0 {
        return Vec::new();
    }
    let l = cs[0].1;
    let mut out: Vec<u8> = Vec::new();
    out.push(if l.kind == LineKind::Add {
        43
    } else {
        45
    });
    crate::bytes::push_all(&mut out, l.text.as_slice());
    proof {
        assert(out@ =~= preview_bytes(h@));
    }
    out
}

/// The preview of a sub-hunk: its first changed line with its `+` or `-` marker, decoded
/// lossily; empty when it has none.
pub fn preview(h: &Hunk) -> (r: String)
    ensures
        r@ == crate::text::lossy_utf8(preview_bytes(h@)),
{
    let b = preview_of(h);
    crate::text::lossy_string(b.as_slice())
}

/// A byte a terminal acts on rather than shows: a C0 control (tab and escape among them) or
/// DEL.
pub open spec fn is_control(b: u8) -> bool {
    b < 32 || b == 127
}

/// The UTF-8 encoding of a bidirectional formatting character (U+200E, U+200F, U+202A to
/// U+202E, U+2066 to U+2069) starts at `i`: `E2` and two bytes.
pub open spec fn bidi_at(s: Seq<u8>, i: int) -> bool {
    i + 3 <= s.len() && s[i] == 0xe2 && ((s[i + 1] == 0x80 && (s[i + 2] == 0x8e || s[i + 2]
        == 0x8f || (0xaa <= s[i + 2] <= 0xae))) || (s[i + 1] == 0x81 && 0xa6 <= s[i + 2]
        <= 0xa9))
}

/// The code point the three bytes at `i` encode.
pub open spec fn bidi_point(s: Seq<u8>, i: int) -> nat {
    (0x2000 + (s[i + 1] - 0x80) * 64 + (s[i + 2] - 0x80)) as nat
}

/// `\xNN`, two lowercase hex digits of a byte.
pub open spec fn escape_byte(b: u8) -> Seq<u8> {
    seq![92u8, 120u8] + hex_bytes(b as nat, 2)
}

/// `\u{NNNN}`, four lowercase hex digits of a code point.
pub open spec fn escape_point(c: nat) -> Seq<u8> {
    seq![92u8, 117u8, 123u8] + hex_bytes(c, 4) + seq![125u8]
}

/// `s` from index `i` on, with every control byte and bidirectional formatting character
/// escaped, so the text stays readable and cannot repaint or reorder a terminal line.
pub open spec fn sanitize_from(s: Seq<u8>, i: int) -> Seq<u8>
    decreases s.len() - i,
{
    if i < 0 || i >= s.len() {
        Seq::empty()
    } else if bidi_at(s, i) {
        escape_point(bidi_point(s, i)) + sanitize_from(s, i + 3)
    } else if is_control(s[i]) {
        escape_byte(s[i]) + sanitize_from(s, i + 1)
    } else {
        seq![s[i]] + sanitize_from(s, i + 1)
    }
}

/// `s` with every control byte and bidirectional formatting character escaped.
pub open spec fn sanitize_spec(s: Seq<u8>) -> Seq<u8> {
    sanitize_from(s, 0)
}

/// Append the lowercase hex digits of `n`, `k` of them.
fn push_hex_digits(out: &mut Vec<u8>, n: u64, k: usize)
    ensures
        final(out)@ == old(out)@ + hex_bytes(n as nat, k as nat),
    decreases k,
{
    if k > 0 {
        push_hex_digits(out, n / 16, k - 1);
        let d = n % 16;
        let c: u8 = if d < 10 {
            48 + d as u8
        } else {
            87 + d as u8
        };
        proof {
            assert(c == crate::subhunk_id::hex_digit((n as nat) % 16));
        }
        out.push(c);
        proof {
            assert(out@ =~= old(out)@ + hex_bytes(n as nat, k as nat));
        }
    }
}

/// Escape what a terminal would act on rather than show: control bytes as `\xNN`,
/// bidirectional formatting characters as `\u{NNNN}`.
pub fn sanitize(s: &[u8]) -> (r: Vec<u8>)
    ensures
        r@ == sanitize_spec(s@),
{
    let mut out: Vec<u8> = Vec::new();
    let n = s.len();
    let mut i: usize = 0;
    while i < n
        invariant
            n == s@.len(),
            i <= n,
            out@ + sanitize_from(s@, i as int) == sanitize_spec(s@),
        decreases n - i,
    {
        let ghost before = out@;
        let b = s[i];
        if n - i >= 3 && b == 0xe2 && ((s[i + 1] == 0x80 && (s[i + 2] == 0x8e || s[i + 2] == 0x8f
            || (0xaa <= s[i + 2] && s[i + 2] <= 0xae))) || (s[i + 1] == 0x81 && 0xa6 <= s[i + 2]
            && s[i + 2] <= 0xa9)) {
            let cp: u64 = 0x2000 + ((s[i + 1] - 0x80) as u64) * 64 + ((s[i + 2] - 0x80) as u64);
            out.push(92);
            out.push(117);
            out.push(123);
            push_hex_digits(&mut out, cp, 4);
            out.push(125);
            proof {
                assert(bidi_at(s@, i as int));
                assert(cp == bidi_point(s@, i as int));
                assert(out@ =~= before + escape_point(bidi_point(s@, i as int)));
                assert(sanitize_from(s@, i as int) == escape_point(bidi_point(s@, i as int))
                    + sanitize_from(s@, i + 3));
                assert(out@ + sanitize_from(s@, i + 3) =~= before + sanitize_from(s@, i as int));
            }
            i = i + 3;
        } else if b < 32 || b == 127 {
            out.push(92);
            out.push(120);
            push_hex_digits(&mut out, b as u64, 2);
            proof {
                assert(!bidi_at(s@, i as int));
                assert(out@ =~= before + escape_byte(b));
                assert(out@ + sanitize_from(s@, i + 1) =~= before + sanitize_from(s@, i as int));
            }
            i = i + 1;
        } else {
            out.push(b);
            proof {
                assert(!bidi_at(s@, i as int));
                assert(out@ + sanitize_from(s@, i + 1) =~= before + sanitize_from(s@, i as int));
            }
            i = i + 1;
        }
    }
    proof {
        assert(out@ + sanitize_from(s@, n as int) =~= out@);
    }
    out
}

/// `s` wrapped in the SGR sequence `code` when `color` is on.
pub open spec fn paint_spec(s: Seq<u8>, code: Seq<u8>, color: bool) -> Seq<u8> {
    if color {
        seq![27u8, 91u8] + code + seq![109u8] + s + seq![27u8, 91u8, 48u8, 109u8]
    } else {
        s
    }
}

/// Append `s` to `out`, wrapped in the SGR sequence `code` when `color` is on.
fn push_painted(out: &mut Vec<u8>, s: &[u8], code: &[u8], color: bool)
    ensures
        final(out)@ == old(out)@ + paint_spec(s@, code@, color),
{
    if color {
        out.push(27);
        out.push(91);
        crate::bytes::push_all(out, code);
        out.push(109);
        crate::bytes::push_all(out, s);
        out.push(27);
        out.push(91);
        out.push(48);
        out.push(109);
        proof {
            assert(out@ =~= old(out)@ + paint_spec(s@, code@, color));
        }
    } else {
        crate::bytes::push_all(out, s);
    }
}

/// The SGR code for bold.
pub open spec fn sgr_bold() -> Seq<u8> {
    seq![49u8]
}

/// The SGR code for red.
pub open spec fn sgr_red() -> Seq<u8> {
    seq![51u8, 49u8]
}

/// The SGR code for green.
pub open spec fn sgr_green() -> Seq<u8> {
    seq![51u8, 50u8]
}

/// The listed preview: sanitised, green for an addition and red for a deletion.
pub open spec fn painted_preview(h: HunkV, color: bool) -> Seq<u8> {
    let pv = sanitize_spec(preview_bytes(h));
    if pv.len() > 0 && pv[0] == 43 {
        paint_spec(pv, sgr_green(), color)
    } else if pv.len() > 0 && pv[0] == 45 {
        paint_spec(pv, sgr_red(), color)
    } else {
        pv
    }
}

/// The start of a listing line: the painted index and the content id.
pub open spec fn line_head(f: FileV, h: HunkV, i: nat, color: bool) -> Seq<u8> {
    seq![32u8, 32u8] + paint_spec(seq![91u8] + crate::bytes::dec(i) + seq![93u8], sgr_bold(), color)
        + seq![32u8] + hex_bytes(subhunk_hash_spec(f, h) as nat, 16) + seq![32u8]
}

/// The middle of a listing line: the header and the change counts.
pub open spec fn line_counts(h: HunkV) -> Seq<u8> {
    sanitize_spec(list_header_bytes(h)) + seq![32u8, 32u8, 43u8] + crate::bytes::dec(
        crate::model::count_of(h.lines, LineKind::Add),
    ) + seq![32u8, 45u8] + crate::bytes::dec(crate::model::count_of(h.lines, LineKind::Del))
}

/// The end of a listing line: the addition-only marker and the preview.
pub open spec fn line_tail(h: HunkV, color: bool) -> Seq<u8> {
    (if addition_only_spec(h) {
        seq![32u8, 91u8, 43u8, 97u8, 100u8, 100u8, 93u8]
    } else {
        Seq::empty()
    }) + seq![32u8, 32u8] + painted_preview(h, color) + seq![10u8]
}

/// The listing line of sub-hunk `h`, the `i`-th of file entry `f`: its index, its content id,
/// its header, its change counts, the addition-only marker and its preview.
pub open spec fn sub_line(f: FileV, h: HunkV, i: nat, color: bool) -> Seq<u8> {
    line_head(f, h, i, color) + line_counts(h) + line_tail(h, color)
}

/// The listing lines of the first `k` sub-hunks of file entry `f`.
pub open spec fn sub_lines(f: FileV, subs: Seq<HunkV>, k: int, color: bool) -> Seq<u8>
    decreases k,
{
    if k <= 0 {
        Seq::empty()
    } else {
        sub_lines(f, subs, k - 1, color) + sub_line(f, subs[k - 1], k as nat, color)
    }
}

/// The listing of one file entry: its display path, then a line per sub-hunk; a binary entry
/// is marked as such instead.
pub open spec fn file_block(f: FileV, color: bool) -> Seq<u8> {
    let name = sanitize_spec(display_bytes(f));
    if f.content is Binary {
        name + seq![32u8, 40u8, 98u8, 105u8, 110u8, 97u8, 114u8, 121u8, 41u8, 10u8]
    } else {
        let subs = file_subs_spec(f);
        name + seq![10u8] + sub_lines(f, subs, subs.len() as int, color)
    }
}

/// The listing of the first `k` file entries.
pub open spec fn listing_upto(p: PatchV, k: int, color: bool) -> Seq<u8>
    decreases k,
{
    if k <= 0 {
        Seq::empty()
    } else {
        listing_upto(p, k - 1, color) + file_block(p.files[k - 1], color)
    }
}

/// The terminal listing of a diff.
pub open spec fn listing(p: PatchV, color: bool) -> Seq<u8> {
    listing_upto(p, p.files.len() as int, color)
}

fn push_line_head(out: &mut Vec<u8>, f: &FileDiff, h: &Hunk, i: usize, color: bool)
    ensures
        final(out)@ == old(out)@ + line_head(f@, h@, i as nat, color),
{
    out.push(32);
    out.push(32);
    let mut idx: Vec<u8> = Vec::new();
    idx.push(91);
    crate::bytes::push_dec(&mut idx, i as u64);
    idx.push(93);
    let bold: [u8; 1] = [49];
    let ghost o1 = out@;
    push_painted(out, idx.as_slice(), &bold, color);
    out.push(32);
    let hash = crate::subhunk_id::subhunk_hash(f, h);
    let ghost o2 = out@;
    push_hex_digits(out, hash, 16);
    out.push(32);
    proof {
        assert(bold@ =~= sgr_bold());
        assert(idx@ =~= seq![91u8] + crate::bytes::dec(i as nat) + seq![93u8]);
        assert(out@ =~= old(out)@ + line_head(f@, h@, i as nat, color));
    }
}

fn push_line_counts(out: &mut Vec<u8>, h: &Hunk)
    requires
        crate::model::sides_fit(h@.lines),
    ensures
        final(out)@ == old(out)@ + line_counts(h@),
{
    let (added, deleted) = h.change_counts();
    let header = header_bytes(h);
    let clean = sanitize(header.as_slice());
    crate::bytes::push_all(out, clean.as_slice());
    out.push(32);
    out.push(32);
    out.push(43);
    crate::bytes::push_dec(out, added as u64);
    out.push(32);
    out.push(45);
    crate::bytes::push_dec(out, deleted as u64);
    proof {
        assert(out@ =~= old(out)@ + line_counts(h@));
    }
}

fn push_line_tail(out: &mut Vec<u8>, h: &Hunk, color: bool)
    ensures
        final(out)@ == old(out)@ + line_tail(h@, color),
{
    let add_only = addition_only(h);
    if add_only {
        let marker: [u8; 7] = [32, 91, 43, 97, 100, 100, 93];
        crate::bytes::push_all(out, &marker);
        proof {
            assert(marker@ =~= seq![32u8, 91u8, 43u8, 97u8, 100u8, 100u8, 93u8]);
        }
    }
    let ghost o1 = out@;
    out.push(32);
    out.push(32);
    let pv = sanitize(preview_of(h).as_slice());
    let green: [u8; 2] = [51, 50];
    let red: [u8; 2] = [51, 49];
    let ghost o2 = out@;
    if pv.len() > 0 && pv[0] == 43 {
        push_painted(out, pv.as_slice(), &green, color);
    } else if pv.len() > 0 && pv[0] == 45 {
        push_painted(out, pv.as_slice(), &red, color);
    } else {
        crate::bytes::push_all(out, pv.as_slice());
    }
    proof {
        assert(green@ =~= sgr_green());
        assert(red@ =~= sgr_red());
        assert(out@ == o2 + painted_preview(h@, color));
    }
    out.push(10);
    proof {
        assert(out@ =~= old(out)@ + line_tail(h@, color));
    }
}

/// Append the listing line of sub-hunk `h`, the `i`-th of `f`.
fn push_sub_line(out: &mut Vec<u8>, f: &FileDiff, h: &Hunk, i: usize, color: bool)
    requires
        crate::model::sides_fit(h@.lines),
    ensures
        final(out)@ == old(out)@ + sub_line(f@, h@, i as nat, color),
{
    push_line_head(out, f, h, i, color);
    push_line_counts(out, h);
    push_line_tail(out, h, color);
    proof {
        assert(out@ =~= old(out)@ + sub_line(f@, h@, i as nat, color));
    }
}

/// Append the listing of file entry `f`, whose sub-hunks are `subs`.
fn push_file_block(out: &mut Vec<u8>, f: &FileDiff, subs: &Vec<Hunk>, color: bool)
    requires
        hunks_of(subs@) == file_subs_spec(f@),
        forall|j: int| 0 <= j < subs@.len() ==> crate::model::sides_fit((#[trigger] subs@[j])@.lines),
    ensures
        final(out)@ == old(out)@ + file_block(f@, color),
{
    let ghost fv = f@;
    let name = sanitize(f.display_bytes_exec());
    crate::bytes::push_all(out, name.as_slice());
    let is_binary = match &f.content {
        FileContent::Binary(_) => true,
        FileContent::Text(_) => false,
    };
    if is_binary {
        let tail: [u8; 10] = [32, 40, 98, 105, 110, 97, 114, 121, 41, 10];
        crate::bytes::push_all(out, &tail);
        proof {
            assert(tail@ =~= seq![32u8, 40u8, 98u8, 105u8, 110u8, 97u8, 114u8, 121u8, 41u8, 10u8]);
            assert(out@ =~= old(out)@ + file_block(fv, color));
        }
    } else {
        out.push(10);
        let ghost sv = hunks_of(subs@);
        let ghost mid = out@;
        let mut i: usize = 0;
        while i < subs.len()
            invariant
                sv == hunks_of(subs@),
                sv == file_subs_spec(fv),
                forall|j: int| 0 <= j < subs@.len() ==> crate::model::sides_fit((#[trigger] subs@[j])@.lines),
                f@ == fv,
                i <= sv.len(),
                out@ == mid + sub_lines(fv, sv, i as int, color),
            decreases sv.len() - i,
        {
            proof {
                assert(subs@[i as int]@ == sv[i as int]);
            }
            push_sub_line(out, f, &subs[i], i + 1, color);
            proof {
                assert(out@ =~= mid + sub_lines(fv, sv, i + 1, color));
            }
            i = i + 1;
        }
        proof {
            assert(out@ =~= old(out)@ + file_block(fv, color));
        }
    }
}

/// The terminal listing of `patch`, as bytes.
fn listing_bytes(patch: &Patch, color: bool) -> (r: Vec<u8>)
    requires
        crate::select::patch_fits(patch@),
    ensures
        r@ == listing(patch@, color),
{
    proof {
        assert forall|i: int| 0 <= i < patch@.files.len() implies file_fits(#[trigger] patch@.files[i]) by {}
    }
    let view = build_view(patch);
    let mut out: Vec<u8> = Vec::new();
    let mut fi: usize = 0;
    while fi < patch.files.len()
        invariant
            crate::select::patch_fits(patch@),
            view@.len() == patch@.files.len(),
            forall|i: int|
                0 <= i < view@.len() ==> hunks_of(#[trigger] view@[i]@) == file_subs_spec(
                    patch@.files[i],
                ),
            fi <= patch@.files.len(),
            out@ == listing_upto(patch@, fi as int, color),
        decreases patch@.files.len() - fi,
    {
        let f = &patch.files[fi];
        proof {
            assert(f@ == patch@.files[fi as int]);
            assert(file_fits(patch@.files[fi as int]));
            crate::select::lemma_subs_sides_fit(patch@.files[fi as int]);
            assert(hunks_of(view@[fi as int]@) == file_subs_spec(patch@.files[fi as int]));
            assert forall|j: int| 0 <= j < view@[fi as int]@.len() implies crate::model::sides_fit(
                (#[trigger] view@[fi as int]@[j])@.lines,
            ) by {
                assert(view@[fi as int]@[j]@ == hunks_of(view@[fi as int]@)[j]);
            }
        }
        push_file_block(&mut out, f, &view[fi], color);
        fi = fi + 1;
    }
    out
}

/// The addressable sub-hunks of `patch` for a terminal: per file entry its display path, then
/// one line per sub-hunk with its index, content id, `@@` header, change counts, the `[+add]`
/// marker and a preview of its first changed line. Control bytes and bidirectional formatting
/// characters from the diff are escaped; `color` adds SGR sequences.
pub fn list_human(patch: &Patch, color: bool) -> (r: String)
    requires
        crate::select::patch_fits(patch@),
    ensures
        r@ == crate::text::lossy_utf8(listing(patch@, color)),
{
    let b = listing_bytes(patch, color);
    crate::text::lossy_string(b.as_slice())
}

/// One changed line of a listed sub-hunk.
pub struct ListedLine {
    /// 1-based index over the sub-hunk's changed lines, the numbering `INDEX@L<set>` uses.
    pub i: usize,
    /// Whether the line is an addition (else a deletion).
    pub added: bool,
    /// The line's text without its marker, decoded lossily.
    pub text: String,
}

/// One listed sub-hunk: what `list --json` reports of it.
pub struct ListedHunk {
    /// 1-based index within its file, the number selectors use.
    pub index: usize,
    /// The content id.
    pub id: String,
    /// How many sub-hunks of the whole diff share the id.
    pub id_count: usize,
    pub old_start: u32,
    pub old_lines: u32,
    pub new_start: u32,
    pub new_lines: u32,
    pub added: u32,
    pub deleted: u32,
    /// The sub-hunk is all additions.
    pub addition_only: bool,
    /// The changed lines, in body order.
    pub changed_lines: Vec<ListedLine>,
    /// The `@@` header as listed.
    pub header: String,
    /// The first changed line with its marker.
    pub preview: String,
}

/// One listed file entry.
pub struct ListedFile {
    /// The display path.
    pub path: String,
    /// The entry is binary.
    pub binary: bool,
    /// Its sub-hunks.
    pub hunks: Vec<ListedHunk>,
}

/// How many sub-hunks of the whole diff have content hash `t`.
pub open spec fn hash_count(p: PatchV, t: u64) -> nat {
    crate::select::id_matches(p, t, p.files.len() as int).len()
}

/// The listed form of changed line `l`, the `k`-th (1-based).
pub open spec fn listed_line_ok(x: ListedLine, k: int, l: LineV) -> bool {
    &&& x.i == k
    &&& x.added == (l.kind == LineKind::Add)
    &&& x.text@ == crate::text::lossy_utf8(l.text)
}

/// The listed form of sub-hunk `h`, the `k`-th (1-based) of file entry `f` of `p`.
pub open spec fn listed_hunk_ok(x: ListedHunk, p: PatchV, f: FileV, h: HunkV, k: int) -> bool {
    &&& x.index == k
    &&& x.id@ == crate::subhunk_id::id_text(subhunk_hash_spec(f, h))
    &&& x.id_count == hash_count(p, subhunk_hash_spec(f, h))
    &&& x.old_start == h.old_start
    &&& x.old_lines == h.old_lines
    &&& x.new_start == h.new_start
    &&& x.new_lines == h.new_lines
    &&& x.added == crate::model::count_of(h.lines, LineKind::Add)
    &&& x.deleted == crate::model::count_of(h.lines, LineKind::Del)
    &&& x.addition_only == addition_only_spec(h)
    &&& x.changed_lines@.len() == changed_of(h.lines).len()
    &&& forall|j: int|
        0 <= j < x.changed_lines@.len() ==> listed_line_ok(
            #[trigger] x.changed_lines@[j],
            j + 1,
            changed_of(h.lines)[j],
        )
    &&& x.header@ == crate::text::lossy_utf8(list_header_bytes(h))
    &&& x.preview@ == crate::text::lossy_utf8(preview_bytes(h))
}

/// The listed changed lines of `h`.
fn listed_lines(h: &Hunk) -> (r: Vec<ListedLine>)
    ensures
        r@.len() == changed_of(h@.lines).len(),
        forall|j: int|
            0 <= j < r@.len() ==> listed_line_ok(#[trigger] r@[j], j + 1, changed_of(h@.lines)[j]),
{
    let cs = h.changed_lines();
    let mut out: Vec<ListedLine> = Vec::new();
    let mut k: usize = 0;
    while k < cs.len()
        invariant
            cs@.len() == changed_of(h@.lines).len(),
            forall|j: int|
                0 <= j < cs@.len() ==> (#[trigger] cs@[j]).0 == j + 1 && cs@[j].1@ == changed_of(
                    h@.lines,
                )[j],
            k <= cs@.len(),
            out@.len() == k,
            forall|j: int|
                0 <= j < k ==> listed_line_ok(#[trigger] out@[j], j + 1, changed_of(h@.lines)[j]),
        decreases cs@.len() - k,
    {
        let (i, l) = cs[k];
        out.push(
            ListedLine {
                i,
                added: l.kind == LineKind::Add,
                text: crate::text::lossy_string(l.text.as_slice()),
            },
        );
        k = k + 1;
    }
    out
}

/// The entries of a JSON listing of `patch`: per file entry its display path, whether it is
/// binary, and its sub-hunks with their index, content id, how many sub-hunks of the diff
/// share the id, header numbers, change counts, addition-only flag, changed lines, header and
/// preview.
pub fn list_entries(patch: &Patch) -> (r: Vec<ListedFile>)
    requires
        crate::select::patch_fits(patch@),
    ensures
        r@.len() == patch@.files.len(),
        forall|fi: int|
            0 <= fi < r@.len() ==> {
                let x = #[trigger] r@[fi];
                let f = patch@.files[fi];
                let subs = file_subs_spec(f);
                &&& x.path@ == crate::text::lossy_utf8(display_bytes(f))
                &&& x.binary == (f.content is Binary)
                &&& x.hunks@.len() == subs.len()
                &&& forall|k: int|
                    0 <= k < x.hunks@.len() ==> listed_hunk_ok(
                        #[trigger] x.hunks@[k],
                        patch@,
                        f,
                        subs[k],
                        k + 1,
                    )
            },
{
    let ghost pv = patch@;
    proof {
        assert forall|i: int| 0 <= i < patch@.files.len() implies file_fits(#[trigger] patch@.files[i]) by {}
    }
    let view = build_view(patch);
    // Every sub-hunk's hash, per file.
    let mut hashes: Vec<Vec<u64>> = Vec::new();
    let mut fi: usize = 0;
    while fi < view.len()
        invariant
            pv == patch@,
            view@.len() == pv.files.len(),
            forall|i: int|
                0 <= i < view@.len() ==> hunks_of(#[trigger] view@[i]@) == file_subs_spec(pv.files[i]),
            fi <= view@.len(),
            hashes@.len() == fi,
            forall|i: int|
                0 <= i < fi ==> (#[trigger] hashes@[i])@.len() == view@[i]@.len() && forall|j: int|
                    0 <= j < hashes@[i]@.len() ==> #[trigger] hashes@[i]@[j] == subhunk_hash_spec(
                        pv.files[i],
                        file_subs_spec(pv.files[i])[j],
                    ),
        decreases view@.len() - fi,
    {
        let subs = &view[fi];
        let f = &patch.files[fi];
        proof {
            assert(f@ == pv.files[fi as int]);
            assert(hunks_of(view@[fi as int]@) == file_subs_spec(pv.files[fi as int]));
        }
        let mut hs: Vec<u64> = Vec::new();
        let mut j: usize = 0;
        while j < subs.len()
            invariant
                j <= subs@.len(),
                f@ == pv.files[fi as int],
                hunks_of(subs@) == file_subs_spec(pv.files[fi as int]),
                hs@.len() == j,
                forall|q: int|
                    0 <= q < j ==> #[trigger] hs@[q] == subhunk_hash_spec(
                        pv.files[fi as int],
                        file_subs_spec(pv.files[fi as int])[q],
                    ),
            decreases subs@.len() - j,
        {
            proof {
                assert(subs@[j as int]@ == file_subs_spec(pv.files[fi as int])[j as int]);
            }
            hs.push(crate::subhunk_id::subhunk_hash(f, &subs[j]));
            j = j + 1;
        }
        hashes.push(hs);
        fi = fi + 1;
    }
    let mut out: Vec<ListedFile> = Vec::new();
    let mut fi: usize = 0;
    while fi < view.len()
        invariant
            pv == patch@,
            crate::select::patch_fits(pv),
            view@.len() == pv.files.len(),
            forall|i: int|
                0 <= i < view@.len() ==> hunks_of(#[trigger] view@[i]@) == file_subs_spec(pv.files[i]),
            hashes@.len() == view@.len(),
            forall|i: int|
                0 <= i < hashes@.len() ==> (#[trigger] hashes@[i])@.len() == view@[i]@.len() && forall|j: int|
                    0 <= j < hashes@[i]@.len() ==> #[trigger] hashes@[i]@[j] == subhunk_hash_spec(
                        pv.files[i],
                        file_subs_spec(pv.files[i])[j],
                    ),
            fi <= view@.len(),
            out@.len() == fi,
            forall|q: int|
                0 <= q < fi ==> {
                    let x = #[trigger] out@[q];
                    let f = pv.files[q];
                    let subs = file_subs_spec(f);
                    &&& x.path@ == crate::text::lossy_utf8(display_bytes(f))
                    &&& x.binary == (f.content is Binary)
                    &&& x.hunks@.len() == subs.len()
                    &&& forall|k: int|
                        0 <= k < x.hunks@.len() ==> listed_hunk_ok(
                            #[trigger] x.hunks@[k],
                            pv,
                            f,
                            subs[k],
                            k + 1,
                        )
                },
        decreases view@.len() - fi,
    {
        let f = &patch.files[fi];
        let subs = &view[fi];
        let ghost fv = pv.files[fi as int];
        proof {
            assert(f@ == fv);
            assert(hunks_of(view@[fi as int]@) == file_subs_spec(fv));
            crate::select::lemma_subs_sides_fit(fv);
        }
        let mut hunks: Vec<ListedHunk> = Vec::new();
        let mut k: usize = 0;
        while k < subs.len()
            invariant
                pv == patch@,
                f@ == fv,
                fv == pv.files[fi as int],
                fi < hashes@.len(),
                hashes@.len() == pv.files.len(),
                forall|i: int|
                    0 <= i < hashes@.len() ==> (#[trigger] hashes@[i])@.len() == file_subs_spec(pv.files[i]).len() && forall|j: int|
                        0 <= j < hashes@[i]@.len() ==> #[trigger] hashes@[i]@[j] == subhunk_hash_spec(
                            pv.files[i],
                            file_subs_spec(pv.files[i])[j],
                        ),
                hunks_of(subs@) == file_subs_spec(fv),
                forall|j: int|
                    0 <= j < file_subs_spec(fv).len() ==> crate::model::sides_fit(
                        (#[trigger] file_subs_spec(fv)[j]).lines,
                    ),
                k <= subs@.len(),
                hunks@.len() == k,
                forall|q: int|
                    0 <= q < k ==> listed_hunk_ok(#[trigger] hunks@[q], pv, fv, file_subs_spec(fv)[q], q + 1),
            decreases subs@.len() - k,
        {
            let h = &subs[k];
            proof {
                assert(h@ == file_subs_spec(fv)[k as int]);
                assert(hashes@[fi as int]@.len() == subs@.len());
            }
            let hash = hashes[fi][k];
            let count = count_hash(patch, &hashes, hash);
            let (added, deleted) = h.change_counts();
            let lh = ListedHunk {
                index: k + 1,
                id: crate::subhunk_id::format_id(hash),
                id_count: count,
                old_start: h.old_start,
                old_lines: h.old_lines,
                new_start: h.new_start,
                new_lines: h.new_lines,
                added,
                deleted,
                addition_only: addition_only(h),
                changed_lines: listed_lines(h),
                header: header_string(h),
                preview: preview(h),
            };
            hunks.push(lh);
            k = k + 1;
        }
        let binary = match &f.content {
            FileContent::Binary(_) => true,
            FileContent::Text(_) => false,
        };
        out.push(ListedFile { path: f.display_path(), binary, hunks });
        fi = fi + 1;
    }
    out
}

/// How many sub-hunks of the diff have content hash `t`, read off the per-file hashes.
fn count_hash(patch: &Patch, hashes: &Vec<Vec<u64>>, t: u64) -> (r: usize)
    requires
        hashes@.len() == patch@.files.len(),
        forall|i: int|
            0 <= i < hashes@.len() ==> (#[trigger] hashes@[i])@.len() == crate::select::sub_count(patch@, i)
                && forall|j: int|
                0 <= j < hashes@[i]@.len() ==> #[trigger] hashes@[i]@[j] == subhunk_hash_spec(
                    patch@.files[i],
                    file_subs_spec(patch@.files[i])[j],
                ),
    ensures
        r == hash_count(patch@, t),
{
    let ghost pv = patch@;
    let mut matched: Vec<(usize, usize)> = Vec::new();
    let mut fi: usize = 0;
    while fi < hashes.len()
        invariant
            hashes@.len() == pv.files.len(),
            pv == patch@,
            forall|i: int|
                0 <= i < hashes@.len() ==> (#[trigger] hashes@[i])@.len() == crate::select::sub_count(pv, i)
                    && forall|j: int|
                    0 <= j < hashes@[i]@.len() ==> #[trigger] hashes@[i]@[j] == subhunk_hash_spec(
                        pv.files[i],
                        file_subs_spec(pv.files[i])[j],
                    ),
            fi <= hashes@.len(),
            matched@ == crate::select::id_matches(pv, t, fi as int),
        decreases hashes@.len() - fi,
    {
        let hs = &hashes[fi];
        let ghost before = matched@;
        let mut si: usize = 0;
        while si < hs.len()
            invariant
                hs@ == hashes@[fi as int]@,
                hs@.len() == crate::select::sub_count(pv, fi as int),
                forall|j: int|
                    0 <= j < hs@.len() ==> #[trigger] hs@[j] == subhunk_hash_spec(
                        pv.files[fi as int],
                        file_subs_spec(pv.files[fi as int])[j],
                    ),
                si <= hs@.len(),
                fi < hashes@.len(),
                matched@ == before + crate::select::file_matches(pv, t, fi as int, si as int),
            decreases hs@.len() - si,
        {
            if hs[si] == t {
                matched.push((fi, si + 1));
            }
            proof {
                assert(matched@ =~= before + crate::select::file_matches(pv, t, fi as int, si + 1));
            }
            si = si + 1;
        }
        fi = fi + 1;
    }
    matched.len()
}

/// Every line of `lines` is of kind `k` exactly when `k` counts them all.
proof fn lemma_all_of_kind(lines: Seq<LineV>, k: LineKind)
    ensures
        (forall|i: int| 0 <= i < lines.len() ==> (#[trigger] lines[i]).kind == k) <==> count_of(
            lines,
            k,
        ) == lines.len(),
    decreases lines.len(),
{
    if lines.len() > 0 {
        let d = lines.drop_last();
        lemma_all_of_kind(d, k);
        crate::model::lemma_count_prefix(lines, lines.len() - 1, k);
        assert(lines.subrange(0, lines.len() - 1) =~= d);
        if forall|i: int| 0 <= i < lines.len() ==> (#[trigger] lines[i]).kind == k {
            assert forall|i: int| 0 <= i < d.len() implies (#[trigger] d[i]).kind == k by {
                assert(d[i] == lines[i]);
            }
            assert(lines[lines.len() - 1] == lines.last());
        }
        if count_of(lines, k) == lines.len() {
            if lines.last().kind != k {
                assert(count_of(d, k) <= d.len()) by {
                    crate::model::lemma_count_total(d);
                }
            }
            assert forall|i: int| 0 <= i < lines.len() implies (#[trigger] lines[i]).kind == k by {
                crate::model::lemma_count_total(d);
                if i < d.len() {
                    assert(lines[i] == d[i]);
                }
            }
        }
    }
}

/// A listed sub-hunk is flagged as addition-only exactly when it has lines and holds neither a
/// context line nor a deletion: a sub-hunk that deletes anything never is.
pub proof fn lemma_addition_only_means_no_deletion(h: HunkV)
    ensures
        addition_only_spec(h) <==> (h.lines.len() > 0 && count_of(h.lines, LineKind::Del) == 0
            && count_of(h.lines, LineKind::Context) == 0),
        count_of(h.lines, LineKind::Del) > 0 ==> !addition_only_spec(h),
{
    lemma_all_of_kind(h.lines, LineKind::Add);
    crate::model::lemma_count_total(h.lines);
}

/// The counts a human listing line shows are the ones its JSON entry reports: after `+` the
/// number of added lines, after `-` the number of deleted ones; with the context lines they
/// make up the new and the old side of the sub-hunk's body.
pub proof fn lemma_listing_counts_are_the_entry_counts(
    x: ListedHunk,
    p: PatchV,
    f: FileV,
    h: HunkV,
    k: int,
)
    requires
        listed_hunk_ok(x, p, f, h, k),
    ensures
        line_counts(h) == sanitize_spec(list_header_bytes(h)) + seq![32u8, 32u8, 43u8]
            + crate::bytes::dec(x.added as nat) + seq![32u8, 45u8] + crate::bytes::dec(
            x.deleted as nat,
        ),
        x.added + count_of(h.lines, LineKind::Context) == h.body_new(),
        x.deleted + count_of(h.lines, LineKind::Context) == h.body_old(),
{
}

} // verus!
