//! Parse a unified diff, git-generated or plain, into a [`Patch`], keeping every byte needed
//! to render it back unchanged.

use crate::bytes::{
    a_slash, a_slash_bytes, all_ws, at2, at2_bytes, at3, at3_bytes, b_slash, b_slash_bytes,
    binary_files, binary_files_bytes, copy_from, copy_from_bytes, copy_to, copy_to_bytes,
    deleted_file_mode, deleted_file_mode_bytes, diff_cc, diff_cc_bytes, diff_combined,
    diff_combined_bytes, diff_git, diff_git_bytes, dissimilarity, dissimilarity_bytes,
    find_byte_from, find_last_subslice, find_subslice, first_of, git_binary_patch,
    git_binary_patch_bytes, index_h, index_h_bytes, is_digit, is_prefix, is_ws, is_ws_exec,
    lemma_first_of, minus3, minus3_bytes, new_file_mode, new_file_mode_bytes, new_mode,
    new_mode_bytes, occurs_at, old_mode, old_mode_bytes, plus3, plus3_bytes, rename_from,
    rename_from_bytes, rename_to, rename_to_bytes, similarity, similarity_bytes, space_at2,
    space_at2_bytes, space_b_slash, space_b_slash_bytes, starts_with, strip_cr, strip_cr_exec,
    strip_prefix, to_vec,
};
use crate::model::{
    body_view, files_view, hunks_view, lines_view, trailer_view, ContentV, FileContent, FileDiff,
    FileV, Hunk, HunkV, Line, LineKind, LineV, Patch, PatchV,
};
use crate::text::{is_valid_utf8, lossy_string, lossy_utf8};
use vstd::prelude::*;
use vstd::string::StringExecFns;

verus! {

/// Why an input diff could not be parsed. Every variant is a usage error.
#[derive(Debug, PartialEq, Eq)]
pub enum ParseError {
    /// A `@@` line does not match `@@ -os,ol +ns,nl @@`.
    BadHunkHeader(String),
    /// Diff content that cannot occur in a well-formed diff (a hunk inside a binary entry).
    Unexpected(String),
    /// The input is a combined (merge) diff, which is not a two-sided unified diff.
    Combined(String),
}

/// Mathematical view of a [`ParseError`].
pub enum ParseErr {
    BadHunkHeader(Seq<char>),
    Unexpected(Seq<char>),
    Combined(Seq<char>),
}

impl View for ParseError {
    type V = ParseErr;

    open spec fn view(&self) -> ParseErr {
        match self {
            ParseError::BadHunkHeader(s) => ParseErr::BadHunkHeader(s@),
            ParseError::Unexpected(s) => ParseErr::Unexpected(s@),
            ParseError::Combined(s) => ParseErr::Combined(s@),
        }
    }
}

/// The message a user is shown for a parse error.
pub open spec fn parse_msg(e: ParseErr) -> Seq<char> {
    match e {
        ParseErr::BadHunkHeader(s) => "malformed hunk header: "@ + s,
        ParseErr::Unexpected(s) => "unexpected diff content: "@ + s,
        ParseErr::Combined(s) => "combined (merge) diff is not supported, hunkpick reads two-sided unified diffs: "@
            + s,
    }
}

impl ParseError {
    /// The message a user is shown for the error.
    pub fn message(&self) -> (r: String)
        ensures
            r@ == parse_msg(self@),
    {
        match self {
            ParseError::BadHunkHeader(s) => {
                let mut m = String::from_str("malformed hunk header: ");
                m.append(s.as_str());
                m
            },
            ParseError::Unexpected(s) => {
                let mut m = String::from_str("unexpected diff content: ");
                m.append(s.as_str());
                m
            },
            ParseError::Combined(s) => {
                let mut m = String::from_str(
                    "combined (merge) diff is not supported, hunkpick reads two-sided unified diffs: ",
                );
                m.append(s.as_str());
                m
            },
        }
    }
}

// ------------------------------------------------------------------------------------------
// Numbers in a hunk header
// ------------------------------------------------------------------------------------------

/// The value of a run of ASCII digits.
pub open spec fn digits_value(s: Seq<u8>) -> nat
    decreases s.len(),
{
    if s.len() == 0 {
        0
    } else {
        digits_value(s.drop_last()) * 10 + (s.last() - 48) as nat
    }
}

pub open spec fn all_digits(s: Seq<u8>) -> bool {
    forall|i: int| 0 <= i < s.len() ==> is_digit(#[trigger] s[i])
}

/// One component of a range: plain ASCII digits whose value fits a `u32`, nothing else.
pub open spec fn count_from_spec(s: Seq<u8>) -> Option<u32> {
    if s.len() > 0 && all_digits(s) && digits_value(s) <= u32::MAX {
        Some(digits_value(s) as u32)
    } else {
        None
    }
}

/// One component of a range: plain ASCII digits, nothing else, and within `u32`.
pub fn count_from(s: &[u8]) -> (r: Option<u32>)
    ensures
        r == count_from_spec(s@),
{
    if s.len() == 0 {
        return None;
    }
    let mut v: u64 = 0;
    let mut i: usize = 0;
    while i < s.len()
        invariant
            i <= s@.len(),
            s@.len() > 0,
            all_digits(s@.subrange(0, i as int)),
            v == digits_value(s@.subrange(0, i as int)),
            v <= u32::MAX,
        decreases s@.len() - i,
    {
        let b = s[i];
        if b < 48u8 || b > 57u8 {
            proof {
                assert(!is_digit(s@[i as int]));
            }
            return None;
        }
        proof {
            assert(s@.subrange(0, i + 1).drop_last() =~= s@.subrange(0, i as int));
        }
        let nv = v * 10 + (b - 48u8) as u64;
        if nv > 4294967295u64 {
            proof {
                lemma_digits_prefix_le(s@, i + 1);
            }
            return None;
        }
        v = nv;
        i = i + 1;
    }
    proof {
        assert(s@.subrange(0, s@.len() as int) =~= s@);
    }
    Some(v as u32)
}

/// A longer run of digits is worth at least as much as its prefix.
pub proof fn lemma_digits_prefix_le(s: Seq<u8>, i: int)
    requires
        0 <= i <= s.len(),
        all_digits(s.subrange(0, i)),
    ensures
        all_digits(s) ==> digits_value(s.subrange(0, i)) <= digits_value(s),
    decreases s.len() - i,
{
    if i < s.len() && all_digits(s) {
        assert(all_digits(s.subrange(0, i + 1)));
        lemma_digits_prefix_le(s, i + 1);
        assert(s.subrange(0, i + 1).drop_last() =~= s.subrange(0, i));
    } else if i == s.len() {
        assert(s.subrange(0, i) =~= s);
    }
}

/// `start[,count]`: the count defaults to one; anything else is refused with the range text.
pub open spec fn parse_range_spec(s: Seq<u8>) -> Result<(u32, u32), ParseErr> {
    let bad = ParseErr::BadHunkHeader(lossy_utf8(s));
    match first_of(s, 44u8) {
        None => match count_from_spec(s) {
            Some(start) => Ok((start, 1u32)),
            None => Err(bad),
        },
        Some(i) => {
            let rest = s.skip(i + 1);
            match (count_from_spec(s.subrange(0, i)), count_from_spec(rest)) {
                (Some(start), Some(count)) => Ok((start, count)),
                _ => Err(bad),
            }
        },
    }
}

fn bad_header(s: &[u8]) -> (e: ParseError)
    ensures
        e@ == ParseErr::BadHunkHeader(lossy_utf8(s@)),
{
    ParseError::BadHunkHeader(lossy_string(s))
}

fn parse_range(s: &[u8]) -> (r: Result<(u32, u32), ParseError>)
    ensures
        match (r, parse_range_spec(s@)) {
            (Ok(a), Ok(b)) => a == b,
            (Err(e), Err(f)) => e@ == f,
            _ => false,
        },
{
    proof {
        lemma_first_of(s@, 44u8);
    }
    match find_byte_from(s, 44u8, 0) {
        None => {
            proof {
                crate::bytes::lemma_first_of(s@, 44u8);
            }
            match count_from(s) {
                Some(start) => Ok((start, 1u32)),
                None => Err(bad_header(s)),
            }
        },
        Some(i) => {
            proof {
                crate::bytes::lemma_first_of_unique(s@, 44u8, i as int);
            }
            let n = s.len();
            let first = vstd::slice::slice_subrange(s, 0, i);
            let rest = vstd::slice::slice_subrange(s, i + 1, s.len());
            proof {
                assert(rest@ =~= s@.skip(i + 1));
            }
            match (count_from(first), count_from(rest)) {
                (Some(start), Some(count)) => Ok((start, count)),
                _ => Err(bad_header(s)),
            }
        },
    }
}

/// What follows a range's sign is parsed by [`parse_range_spec`]; a range without its sign is
/// refused with the whole header line.
pub open spec fn parse_hunk_header_spec(line: Seq<u8>) -> Result<HunkV, ParseErr> {
    let bad = ParseErr::BadHunkHeader(lossy_utf8(line));
    if !is_prefix(at2(), line) {
        Err(bad)
    } else {
        let body = line.skip(3);
        match header_close(body) {
            None => Err(bad),
            Some(end) => {
                let after = body.skip(end + 3);
                let section = if after.len() > 0 && after[0] == 32u8 {
                    after.skip(1)
                } else {
                    after
                };
                match ranges_spec(body.subrange(0, end), line) {
                    Err(e) => Err(e),
                    Ok((os, ol, ns, nl)) => Ok(
                        HunkV {
                            old_start: os,
                            old_lines: ol,
                            new_start: ns,
                            new_lines: nl,
                            section: section,
                            lines: Seq::empty(),
                        },
                    ),
                }
            },
        }
    }
}

/// Where the ` @@` that closes the ranges of a header body starts.
pub open spec fn header_close(body: Seq<u8>) -> Option<int> {
    crate::bytes::first_occ(body, space_at2(), 0)
}

/// The `-os,ol +ns,nl` part of a header: two ranges, their signs, one ASCII space between.
pub open spec fn ranges_spec(ranges: Seq<u8>, line: Seq<u8>) -> Result<
    (u32, u32, u32, u32),
    ParseErr,
> {
    let bad = ParseErr::BadHunkHeader(lossy_utf8(line));
    if !vstd::utf8::valid_utf8(ranges) {
        Err(bad)
    } else {
        match first_of(ranges, 32u8) {
            None => Err(bad),
            Some(sp) => {
                let old = ranges.subrange(0, sp);
                let new = ranges.skip(sp + 1);
                if first_of(new, 32u8).is_some() {
                    Err(bad)
                } else if !(old.len() > 0 && old[0] == 45u8) {
                    Err(bad)
                } else if !(new.len() > 0 && new[0] == 43u8) {
                    Err(bad)
                } else {
                    match parse_range_spec(old.skip(1)) {
                        Err(e) => Err(e),
                        Ok((os, ol)) => match parse_range_spec(new.skip(1)) {
                            Err(e) => Err(e),
                            Ok((ns, nl)) => Ok((os, ol, ns, nl)),
                        },
                    }
                }
            },
        }
    }
}

fn parse_ranges(ranges: &[u8], line: &[u8]) -> (r: Result<(u32, u32, u32, u32), ParseError>)
    ensures
        match (r, ranges_spec(ranges@, line@)) {
            (Ok(a), Ok(b)) => a == b,
            (Err(e), Err(f)) => e@ == f,
            _ => false,
        },
{
    if !is_valid_utf8(ranges) {
        return Err(bad_header(line));
    }
    let n = ranges.len();
    proof {
        lemma_first_of(ranges@, 32u8);
    }
    let sp = match find_byte_from(ranges, 32u8, 0) {
        Some(sp) => sp,
        None => return Err(bad_header(line)),
    };
    proof {
        crate::bytes::lemma_first_of_unique(ranges@, 32u8, sp as int);
    }
    let old = vstd::slice::slice_subrange(ranges, 0, sp);
    let new = vstd::slice::slice_subrange(ranges, sp + 1, n);
    proof {
        assert(new@ =~= ranges@.skip(sp + 1));
        lemma_first_of(new@, 32u8);
    }
    match find_byte_from(new, 32u8, 0) {
        Some(k) => {
            proof {
                crate::bytes::lemma_first_of_unique(new@, 32u8, k as int);
            }
            return Err(bad_header(line));
        },
        None => {},
    }
    if !(old.len() > 0 && old[0] == 45u8) {
        return Err(bad_header(line));
    }
    if !(new.len() > 0 && new[0] == 43u8) {
        return Err(bad_header(line));
    }
    let old_r = vstd::slice::slice_subrange(old, 1, old.len());
    let new_r = vstd::slice::slice_subrange(new, 1, new.len());
    proof {
        assert(old_r@ =~= old@.skip(1));
        assert(new_r@ =~= new@.skip(1));
    }
    let (os, ol) = match parse_range(old_r) {
        Ok(x) => x,
        Err(e) => return Err(e),
    };
    let (ns, nl) = match parse_range(new_r) {
        Ok(x) => x,
        Err(e) => return Err(e),
    };
    Ok((os, ol, ns, nl))
}

/// Read a `@@ -os[,ol] +ns[,nl] @@[ section]` line into an empty hunk.
pub fn parse_hunk_header(line: &[u8]) -> (r: Result<Hunk, ParseError>)
    ensures
        match (r, parse_hunk_header_spec(line@)) {
            (Ok(a), Ok(b)) => a@ == b,
            (Err(e), Err(f)) => e@ == f,
            _ => false,
        },
{
    let body = match strip_prefix(line, at2_bytes()) {
        Some(b) => b,
        None => return Err(bad_header(line)),
    };
    let n = body.len();
    let end = match find_subslice(body, space_at2_bytes()) {
        Some(e) => e,
        None => return Err(bad_header(line)),
    };
    proof {
        crate::bytes::lemma_first_occ(body@, space_at2(), 0);
    }
    let ranges = vstd::slice::slice_subrange(body, 0, end);
    let after = vstd::slice::slice_subrange(body, end + 3, n);
    let section = if after.len() > 0 && after[0] == 32u8 {
        vstd::slice::slice_subrange(after, 1, after.len())
    } else {
        after
    };
    proof {
        assert(after@ =~= body@.skip(end + 3));
        if after@.len() > 0 && after@[0] == 32u8 {
            assert(section@ =~= after@.skip(1));
        }
    }
    let (old_start, old_lines, new_start, new_lines) = match parse_ranges(ranges, line) {
        Ok(x) => x,
        Err(e) => return Err(e),
    };
    let h = Hunk {
        old_start,
        old_lines,
        new_start,
        new_lines,
        section: to_vec(section),
        lines: Vec::new(),
    };
    proof {
        assert(h@.lines =~= Seq::<LineV>::empty());
    }
    Ok(h)
}

// ------------------------------------------------------------------------------------------
// Paths
// ------------------------------------------------------------------------------------------

/// The byte a C-style escape `\c` stands for, for the single-character escapes git writes.
pub open spec fn esc_byte(c: u8) -> Option<u8> {
    if c == 97u8 {
        Some(7u8)
    } else if c == 98u8 {
        Some(8u8)
    } else if c == 102u8 {
        Some(12u8)
    } else if c == 110u8 {
        Some(10u8)
    } else if c == 114u8 {
        Some(13u8)
    } else if c == 116u8 {
        Some(9u8)
    } else if c == 118u8 {
        Some(11u8)
    } else if c == 92u8 {
        Some(92u8)
    } else if c == 34u8 {
        Some(34u8)
    } else {
        None
    }
}

pub open spec fn is_octal(b: u8) -> bool {
    48u8 <= b <= 55u8
}

pub open spec fn prepend(b: u8, r: Option<Seq<u8>>) -> Option<Seq<u8>> {
    match r {
        Some(t) => Some(seq![b] + t),
        None => None,
    }
}

/// Decode the inside of a git-quoted name: single-character escapes and three-digit octal
/// escapes of one byte; any other escape makes the name not a quoted one.
pub open spec fn unquote_body(b: Seq<u8>) -> Option<Seq<u8>>
    decreases b.len(),
{
    if b.len() == 0 {
        Some(Seq::empty())
    } else if b[0] != 92u8 {
        prepend(b[0], unquote_body(b.skip(1)))
    } else if b.len() < 2 {
        None
    } else {
        match esc_byte(b[1]) {
            Some(x) => prepend(x, unquote_body(b.skip(2))),
            None => if is_octal(b[1]) {
                if b.len() < 4 || !is_octal(b[2]) || !is_octal(b[3]) {
                    None
                } else {
                    let v = (b[1] - 48) * 64 + (b[2] - 48) * 8 + (b[3] - 48);
                    if v > 255 {
                        None
                    } else {
                        prepend(v as u8, unquote_body(b.skip(4)))
                    }
                }
            } else {
                None
            },
        }
    }
}

/// Git's quoted path form `"..."`, decoded; `None` when `s` is not one.
pub open spec fn unquote_spec(s: Seq<u8>) -> Option<Seq<u8>> {
    if s.len() >= 2 && s[0] == 34u8 && s.last() == 34u8 {
        unquote_body(s.subrange(1, s.len() - 1))
    } else {
        None
    }
}

fn unquote(s: &[u8]) -> (r: Option<Vec<u8>>)
    ensures
        match r {
            Some(v) => unquote_spec(s@) == Some(v@),
            None => unquote_spec(s@).is_none(),
        },
{
    let n = s.len();
    if !(n >= 2 && s[0] == 34u8 && s[n - 1] == 34u8) {
        return None;
    }
    let body = vstd::slice::slice_subrange(s, 1, n - 1);
    let ghost bv = body@;
    let mut out: Vec<u8> = Vec::new();
    let mut i: usize = 0;
    proof {
        assert(bv.skip(0) =~= bv);
        assert(s@.subrange(1, s@.len() - 1) =~= bv);
    }
    while i < body.len()
        invariant
            bv == body@,
            unquote_spec(s@) == unquote_body(bv),
            i <= bv.len(),
            match unquote_body(bv.skip(i as int)) {
                Some(r) => unquote_body(bv) == Some(out@ + r),
                None => unquote_body(bv).is_none(),
            },
        decreases bv.len() - i,
    {
        let ghost rest = bv.skip(i as int);
        let b = body[i];
        proof {
            assert(rest[0] == b);
        }
        if b != 92u8 {
            proof {
                assert(rest.skip(1) =~= bv.skip(i + 1));
                match unquote_body(bv.skip(i + 1)) {
                    Some(r) => assert(out@.push(b) + r =~= out@ + (seq![b] + r)),
                    None => {},
                }
            }
            out.push(b);
            i = i + 1;
            continue;
        }
        if i + 1 >= body.len() {
            proof {
                assert(unquote_body(rest).is_none());
            }
            return None;
        }
        let c = body[i + 1];
        let e = esc(c);
        proof {
            assert(rest[1] == c);
        }
        if let Some(x) = e {
            proof {
                assert(rest.skip(2) =~= bv.skip(i + 2));
                match unquote_body(bv.skip(i + 2)) {
                    Some(r) => assert(out@.push(x) + r =~= out@ + (seq![x] + r)),
                    None => {},
                }
            }
            out.push(x);
            i = i + 2;
            continue;
        }
        if !(48u8 <= c && c <= 55u8) || body.len() - i <= 3 {
            proof {
                assert(unquote_body(rest).is_none());
            }
            return None;
        }
        let d1 = body[i + 2];
        let d2 = body[i + 3];
        proof {
            assert(rest[2] == d1);
            assert(rest[3] == d2);
        }
        if !(48u8 <= d1 && d1 <= 55u8) || !(48u8 <= d2 && d2 <= 55u8) {
            proof {
                assert(unquote_body(rest).is_none());
            }
            return None;
        }
        let v: u32 = (c - 48u8) as u32 * 64 + (d1 - 48u8) as u32 * 8 + (d2 - 48u8) as u32;
        if v > 255 {
            proof {
                assert(unquote_body(rest).is_none());
            }
            return None;
        }
        proof {
            assert(rest.skip(4) =~= bv.skip(i + 4));
            match unquote_body(bv.skip(i + 4)) {
                Some(r) => assert(out@.push(v as u8) + r =~= out@ + (seq![v as u8] + r)),
                None => {},
            }
        }
        out.push(v as u8);
        i = i + 4;
    }
    proof {
        assert(bv.skip(i as int) =~= Seq::<u8>::empty());
        assert(out@ + Seq::<u8>::empty() =~= out@);
    }
    Some(out)
}

fn esc(c: u8) -> (r: Option<u8>)
    ensures
        r == esc_byte(c),
{
    if c == 97u8 {
        Some(7u8)
    } else if c == 98u8 {
        Some(8u8)
    } else if c == 102u8 {
        Some(12u8)
    } else if c == 110u8 {
        Some(10u8)
    } else if c == 114u8 {
        Some(13u8)
    } else if c == 116u8 {
        Some(9u8)
    } else if c == 118u8 {
        Some(11u8)
    } else if c == 92u8 {
        Some(92u8)
    } else if c == 34u8 {
        Some(34u8)
    } else {
        None
    }
}

/// `s` without a leading `a/` or `b/`.
pub open spec fn strip_ab_prefix_spec(s: Seq<u8>) -> Seq<u8> {
    if is_prefix(a_slash(), s) || is_prefix(b_slash(), s) {
        s.skip(2)
    } else {
        s
    }
}

fn strip_ab_prefix(s: &[u8]) -> (r: &[u8])
    ensures
        r@ == strip_ab_prefix_spec(s@),
{
    if let Some(r) = strip_prefix(s, a_slash_bytes()) {
        return r;
    }
    if let Some(r) = strip_prefix(s, b_slash_bytes()) {
        return r;
    }
    s
}

/// A path as written after `--- `/`+++ ` or on a `diff --git` line, decoded: the line's CR
/// dropped, git quoting undone (or a trailing tab-and-timestamp dropped), and a leading `a/` or
/// `b/` stripped.
pub open spec fn strip_ab_spec(s0: Seq<u8>) -> Seq<u8> {
    let s = strip_cr(s0);
    match unquote_spec(s) {
        Some(d) => strip_ab_prefix_spec(d),
        None => strip_ab_prefix_spec(
            match first_of(s, 9u8) {
                Some(i) => s.subrange(0, i),
                None => s,
            },
        ),
    }
}

fn strip_ab(s0: &[u8]) -> (r: Vec<u8>)
    ensures
        r@ == strip_ab_spec(s0@),
{
    let s = strip_cr_exec(s0);
    if let Some(decoded) = unquote(s) {
        return to_vec(strip_ab_prefix(decoded.as_slice()));
    }
    proof {
        lemma_first_of(s@, 9u8);
    }
    let cut = match find_byte_from(s, 9u8, 0) {
        Some(i) => {
            proof {
                crate::bytes::lemma_first_of_unique(s@, 9u8, i as int);
            }
            vstd::slice::slice_subrange(s, 0, i)
        },
        None => s,
    };
    to_vec(strip_ab_prefix(cut))
}

/// Where the quoted first path of a `diff --git` line closes: the first `"` from `i` on that
/// is not escaped by a backslash.
pub open spec fn close_quote(s: Seq<u8>, i: int, escaped: bool) -> Option<int>
    decreases s.len() - i,
{
    if i < 0 || i >= s.len() {
        None
    } else if escaped {
        close_quote(s, i + 1, false)
    } else if s[i] == 92u8 {
        close_quote(s, i + 1, true)
    } else if s[i] == 34u8 {
        Some(i)
    } else {
        close_quote(s, i + 1, false)
    }
}

/// The two paths of a `diff --git` line (the part after the command): a quoted first name is
/// self-delimiting; otherwise the midpoint when it falls on a space, else the last ` b/`.
pub open spec fn split_paths_spec(rest0: Seq<u8>) -> Option<(Seq<u8>, Seq<u8>)> {
    let rest = strip_cr(rest0);
    if rest.len() > 0 && rest[0] == 34u8 {
        match close_quote(rest, 1, false) {
            None => None,
            Some(end) => if end + 2 <= rest.len() {
                Some((strip_ab_spec(rest.subrange(0, end + 1)), strip_ab_spec(rest.skip(end + 2))))
            } else {
                None
            },
        }
    } else if rest.len() % 2 == 1 && rest[(rest.len() / 2) as int] == 32u8 {
        let mid = (rest.len() / 2) as int;
        Some((strip_ab_spec(rest.subrange(0, mid)), strip_ab_spec(rest.skip(mid + 1))))
    } else {
        match crate::bytes::last_occ(rest, space_b_slash(), rest.len() as int) {
            Some(at) => Some((strip_ab_spec(rest.subrange(0, at)), strip_ab_spec(rest.skip(at + 1)))),
            None => None,
        }
    }
}

fn find_close_quote(rest: &[u8]) -> (r: Option<usize>)
    ensures
        match r {
            Some(e) => close_quote(rest@, 1, false) == Some(e as int) && e < rest@.len(),
            None => close_quote(rest@, 1, false).is_none(),
        },
{
    let n = rest.len();
    let mut i: usize = 1;
    let mut escaped = false;
    while i < n
        invariant
            n == rest@.len(),
            1 <= i,
            close_quote(rest@, 1, false) == close_quote(rest@, i as int, escaped),
        decreases n - i,
    {
        let b = rest[i];
        if escaped {
            escaped = false;
        } else if b == 92u8 {
            escaped = true;
        } else if b == 34u8 {
            return Some(i);
        }
        i = i + 1;
    }
    None
}

fn split_diff_git_paths(rest0: &[u8]) -> (r: Option<(Vec<u8>, Vec<u8>)>)
    ensures
        match r {
            Some((a, b)) => split_paths_spec(rest0@) == Some((a@, b@)),
            None => split_paths_spec(rest0@).is_none(),
        },
{
    let rest = strip_cr_exec(rest0);
    let n = rest.len();
    if n > 0 && rest[0] == 34u8 {
        let end = match find_close_quote(rest) {
            Some(e) => e,
            None => return None,
        };
        if n - end < 2 {
            return None;
        }
        let first = vstd::slice::slice_subrange(rest, 0, end + 1);
        let second = vstd::slice::slice_subrange(rest, end + 2, n);
        proof {
            assert(second@ =~= rest@.skip(end + 2));
        }
        return Some((strip_ab(first), strip_ab(second)));
    }
    let mid = n / 2;
    if n % 2 == 1 && rest[mid] == 32u8 {
        let a = vstd::slice::slice_subrange(rest, 0, mid);
        let b = vstd::slice::slice_subrange(rest, mid + 1, n);
        proof {
            assert(b@ =~= rest@.skip(mid + 1));
        }
        return Some((strip_ab(a), strip_ab(b)));
    }
    let at = match find_last_subslice(rest, space_b_slash_bytes()) {
        Some(at) => at,
        None => return None,
    };
    let a = vstd::slice::slice_subrange(rest, 0, at);
    let b = vstd::slice::slice_subrange(rest, at + 1, n);
    proof {
        assert(b@ =~= rest@.skip(at + 1));
    }
    Some((strip_ab(a), strip_ab(b)))
}

// ------------------------------------------------------------------------------------------
// Markers and headers
// ------------------------------------------------------------------------------------------

pub open spec fn views(ps: Seq<&[u8]>) -> Seq<Seq<u8>> {
    ps.map_values(|p: &[u8]| p@)
}

/// The lines that open a file entry or a hunk in an ordinary diff.
pub open spec fn ordinary_markers() -> Seq<Seq<u8>> {
    seq![diff_git(), minus3(), plus3(), at2(), binary_files()]
}

/// The lines that mark a combined (merge) diff.
pub open spec fn combined_markers() -> Seq<Seq<u8>> {
    seq![diff_cc(), diff_combined(), at3()]
}

pub open spec fn all_markers() -> Seq<Seq<u8>> {
    ordinary_markers() + combined_markers()
}

/// The headers a path follows.
pub open spec fn path_headers() -> Seq<Seq<u8>> {
    seq![rename_from(), rename_to(), copy_from(), copy_to()]
}

/// The headers ASCII follows.
pub open spec fn ascii_headers() -> Seq<Seq<u8>> {
    seq![index_h(), similarity(), dissimilarity(), new_file_mode(), deleted_file_mode(), old_mode(), new_mode()]
}

/// The longest of `ps` that opens `line`; of equally long ones, the last listed.
pub open spec fn longest(ps: Seq<Seq<u8>>, line: Seq<u8>) -> Option<Seq<u8>>
    decreases ps.len(),
{
    if ps.len() == 0 {
        None
    } else {
        let b = longest(ps.drop_last(), line);
        let p = ps.last();
        if is_prefix(p, line) && (b.is_none() || p.len() >= b.unwrap().len()) {
            Some(p)
        } else {
            b
        }
    }
}

/// Every marker a diff line may open with, ordinary and combined.
pub fn markers() -> (r: Vec<&'static [u8]>)
    ensures
        views(r@) == all_markers(),
{
    let mut v: Vec<&'static [u8]> = Vec::new();
    v.push(diff_git_bytes());
    v.push(minus3_bytes());
    v.push(plus3_bytes());
    v.push(at2_bytes());
    v.push(binary_files_bytes());
    v.push(diff_cc_bytes());
    v.push(diff_combined_bytes());
    v.push(at3_bytes());
    proof {
        assert(views(v@) =~= all_markers());
    }
    v
}

/// Every extended header a path follows.
pub fn headers_a_path_follows() -> (r: Vec<&'static [u8]>)
    ensures
        views(r@) == path_headers(),
{
    let mut v: Vec<&'static [u8]> = Vec::new();
    v.push(rename_from_bytes());
    v.push(rename_to_bytes());
    v.push(copy_from_bytes());
    v.push(copy_to_bytes());
    proof {
        assert(views(v@) =~= path_headers());
    }
    v
}

/// Every extended header whose line is ASCII past it.
pub fn headers_ascii_follows() -> (r: Vec<&'static [u8]>)
    ensures
        views(r@) == ascii_headers(),
{
    let mut v: Vec<&'static [u8]> = Vec::new();
    v.push(index_h_bytes());
    v.push(similarity_bytes());
    v.push(dissimilarity_bytes());
    v.push(new_file_mode_bytes());
    v.push(deleted_file_mode_bytes());
    v.push(old_mode_bytes());
    v.push(new_mode_bytes());
    proof {
        assert(views(v@) =~= ascii_headers());
    }
    v
}

/// The longest of `prefixes` that opens `line`; of equally long ones, the last listed.
pub fn longest_prefix(prefixes: &[&'static [u8]], line: &[u8]) -> (r: Option<&'static [u8]>)
    ensures
        match r {
            Some(p) => longest(views(prefixes@), line@) == Some(p@),
            None => longest(views(prefixes@), line@).is_none(),
        },
{
    let ghost ps = views(prefixes@);
    let mut best: Option<&'static [u8]> = None;
    let mut i: usize = 0;
    while i < prefixes.len()
        invariant
            ps == views(prefixes@),
            i <= prefixes@.len(),
            match best {
                Some(p) => longest(ps.subrange(0, i as int), line@) == Some(p@),
                None => longest(ps.subrange(0, i as int), line@).is_none(),
            },
        decreases prefixes@.len() - i,
    {
        proof {
            assert(ps.subrange(0, i + 1).drop_last() =~= ps.subrange(0, i as int));
            assert(ps.subrange(0, i + 1).last() == prefixes@[i as int]@);
        }
        let p = prefixes[i];
        if starts_with(line, p) {
            match best {
                Some(b) => {
                    if p.len() >= b.len() {
                        best = Some(p);
                    }
                },
                None => {
                    best = Some(p);
                },
            }
        }
        i = i + 1;
    }
    proof {
        assert(ps.subrange(0, prefixes@.len() as int) =~= ps);
    }
    best
}

/// The marker at the head of `line` that opens a diff, if one does.
pub open spec fn diff_marker_spec(line: Seq<u8>) -> Option<Seq<u8>> {
    longest(all_markers(), line)
}

fn diff_marker(line: &[u8]) -> (r: Option<&'static [u8]>)
    ensures
        match r {
            Some(p) => diff_marker_spec(line@) == Some(p@),
            None => diff_marker_spec(line@).is_none(),
        },
{
    let m = markers();
    longest_prefix(m.as_slice(), line)
}

/// `line` says something past `prefix` beyond whitespace (and `prefix` opens it).
pub open spec fn carries_spec(line: Seq<u8>, prefix: Seq<u8>) -> bool {
    is_prefix(prefix, line) && !all_ws(line.skip(prefix.len() as int))
}

/// Whether `line` says anything past `prefix` beyond whitespace. A prefix that does not open
/// the line carries nothing of it.
pub fn carries_something_past(line: &[u8], prefix: &[u8]) -> (r: bool)
    ensures
        r == carries_spec(line@, prefix@),
{
    match strip_prefix(line, prefix) {
        Some(tail) => !crate::bytes::all_ws_exec(tail),
        None => false,
    }
}

/// `line` carries what its marker promises: a `@@` line that parses as a hunk header, and for
/// any other marker something past it that is not whitespace.
pub open spec fn marker_promise_spec(line: Seq<u8>) -> bool {
    match diff_marker_spec(line) {
        None => false,
        Some(m) => if m == at2() {
            parse_hunk_header_spec(line) is Ok
        } else {
            carries_spec(line, m)
        },
    }
}

fn says_what_its_marker_promises(line: &[u8]) -> (r: bool)
    ensures
        r == marker_promise_spec(line@),
{
    let marker = match diff_marker(line) {
        Some(m) => m,
        None => return false,
    };
    if crate::bytes::bytes_eq(marker, at2_bytes()) {
        return parse_hunk_header(line).is_ok();
    }
    carries_something_past(line, marker)
}

/// The header a path follows that opens `line`, the longest where one opens another.
pub fn the_header_a_path_follows_in(line: &[u8]) -> (r: Option<&'static [u8]>)
    ensures
        match r {
            Some(p) => longest(path_headers(), line@) == Some(p@),
            None => longest(path_headers(), line@).is_none(),
        },
{
    let h = headers_a_path_follows();
    longest_prefix(h.as_slice(), line)
}

pub open spec fn header_promise_spec(line: Seq<u8>) -> bool {
    match longest(ascii_headers(), line) {
        Some(h) => carries_spec(line, h),
        None => false,
    }
}

fn says_what_its_header_promises(line: &[u8]) -> (r: bool)
    ensures
        r == header_promise_spec(line@),
{
    let h = headers_ascii_follows();
    match longest_prefix(h.as_slice(), line) {
        Some(header) => carries_something_past(line, header),
        None => false,
    }
}

/// A line a diff writes: a marker line carrying what its marker promises, one of the headers a
/// path follows, or a header ASCII follows carrying something past it.
pub open spec fn reads_as_diff_line_spec(line: Seq<u8>) -> bool {
    marker_promise_spec(line) || longest(path_headers(), line).is_some() || header_promise_spec(
        line,
    )
}

/// Whether `line` reads as a line a diff writes.
pub fn reads_as_a_diff_line(line: &[u8]) -> (r: bool)
    ensures
        r == reads_as_diff_line_spec(line@),
{
    says_what_its_marker_promises(line) || the_header_a_path_follows_in(line).is_some()
        || says_what_its_header_promises(line)
}

/// The line marks a combined diff.
pub open spec fn is_combined_spec(line: Seq<u8>) -> bool {
    is_prefix(diff_cc(), line) || is_prefix(diff_combined(), line) || is_prefix(at3(), line)
}

fn is_combined_marker(line: &[u8]) -> (r: bool)
    ensures
        r == is_combined_spec(line@),
{
    starts_with(line, diff_cc_bytes()) || starts_with(line, diff_combined_bytes()) || starts_with(
        line,
        at3_bytes(),
    )
}

/// The line announces binary content, once the CR of a CRLF line is set aside.
pub open spec fn is_binary_marker_spec(line: Seq<u8>) -> bool {
    is_prefix(binary_files(), strip_cr(line)) || strip_cr(line) == git_binary_patch()
}

fn is_binary_marker(line: &[u8]) -> (r: bool)
    ensures
        r == is_binary_marker_spec(line@),
{
    let l = strip_cr_exec(line);
    starts_with(l, binary_files_bytes()) || crate::bytes::bytes_eq(l, git_binary_patch_bytes())
}

// ------------------------------------------------------------------------------------------
// Lines of the input
// ------------------------------------------------------------------------------------------

/// The pieces of `s` split at every `\n`, the piece being read starting at `start`.
pub open spec fn pieces_from(s: Seq<u8>, start: int, i: int) -> Seq<Seq<u8>>
    decreases s.len() - i,
{
    if i < start || start < 0 {
        Seq::empty()
    } else if i >= s.len() {
        seq![s.subrange(start, s.len() as int)]
    } else if s[i] == 10u8 {
        seq![s.subrange(start, i)] + pieces_from(s, i + 1, i + 1)
    } else {
        pieces_from(s, start, i + 1)
    }
}

/// `s` split at every `\n`, as `<[u8]>::split` splits it: one more piece than newlines.
pub open spec fn pieces(s: Seq<u8>) -> Seq<Seq<u8>> {
    pieces_from(s, 0, 0)
}

pub proof fn lemma_pieces_skip(s: Seq<u8>, start: int, i: int, j: int)
    requires
        0 <= start <= i <= j <= s.len(),
        forall|k: int| i <= k < j ==> s[k] != 10u8,
    ensures
        pieces_from(s, start, i) == pieces_from(s, start, j),
    decreases j - i,
{
    if i < j {
        lemma_pieces_skip(s, start, i + 1, j);
    }
}

pub proof fn lemma_pieces_nonempty(s: Seq<u8>, start: int, i: int)
    requires
        0 <= start <= i <= s.len(),
    ensures
        pieces_from(s, start, i).len() >= 1,
    decreases s.len() - i,
{
    if i < s.len() {
        if s[i] == 10u8 {
            lemma_pieces_nonempty(s, i + 1, i + 1);
        } else {
            lemma_pieces_nonempty(s, start, i + 1);
        }
    }
}

/// Whether `input` has a line that opens a diff.
pub open spec fn looks_like_a_diff_spec(input: Seq<u8>) -> bool {
    exists|i: int| 0 <= i < pieces(input).len() && diff_marker_spec(#[trigger] pieces(input)[i]).is_some()
}

/// Whether `input` has a line (a piece between newlines) that opens with a diff marker.
pub fn looks_like_a_diff(input: &[u8]) -> (r: bool)
    ensures
        r == looks_like_a_diff_spec(input@),
{
    let n = input.len();
    let ghost all = pieces(input@);
    let mut pos: usize = 0;
    let ghost mut k: int = 0;
    proof {
        lemma_pieces_nonempty(input@, 0, 0);
    }
    loop
        invariant
            n == input@.len(),
            all == pieces(input@),
            pos <= n,
            0 <= k < all.len(),
            all.skip(k) == pieces_from(input@, pos as int, pos as int),
            forall|j: int| 0 <= j < k ==> diff_marker_spec(#[trigger] all[j]).is_none(),
        decreases n - pos,
    {
        let nl = find_byte_from(input, 10u8, pos);
        let end = match nl {
            Some(j) => j,
            None => n,
        };
        let line = vstd::slice::slice_subrange(input, pos, end);
        proof {
            lemma_pieces_skip(input@, pos as int, pos as int, end as int);
            assert(all.skip(k)[0] == all[k]);
            if nl.is_some() {
                lemma_pieces_nonempty(input@, end + 1, end + 1);
            }
        }
        if diff_marker(line).is_some() {
            return true;
        }
        match nl {
            Some(j) => {
                proof {
                    assert(all.skip(k + 1) =~= all.skip(k).skip(1));
                }
                pos = j + 1;
                proof {
                    k = k + 1;
                }
            },
            None => {
                proof {
                    assert(all.skip(k).len() == 1);
                    assert(forall|j: int| 0 <= j < all.len() ==> diff_marker_spec(#[trigger] all[j]).is_none());
                }
                return false;
            },
        }
    }
}

// ------------------------------------------------------------------------------------------
// The parse state machine
// ------------------------------------------------------------------------------------------

/// How much of the hunk declared by the last `@@` header is still unread: the declared counts
/// minus what the body has consumed.
#[derive(Clone, Copy)]
pub struct Remaining {
    pub old: u32,
    pub new: u32,
}

impl Remaining {
    /// Zero on both sides: the hunk is complete.
    pub fn exhausted(&self) -> (r: bool)
        ensures
            r == (self.old == 0 && self.new == 0),
    {
        self.old == 0 && self.new == 0
    }
}

/// What reading one body line did.
pub enum BodyLine {
    /// The line was consumed into the hunk body.
    Consumed,
    /// The line does not belong to the body: the hunk has ended.
    HunkEnded,
}

/// Per-file parse state, reset whenever a new file starts.
#[derive(Clone, Copy)]
pub struct FileState {
    /// Inside a hunk body whose declared lines are not yet exhausted.
    pub in_hunk: bool,
    /// The file has had at least one hunk.
    pub saw_hunk: bool,
    /// The file has had its `+++ ` line.
    pub saw_marker_pair: bool,
    pub remaining: Remaining,
}

pub open spec fn fresh_state() -> FileState {
    FileState {
        in_hunk: false,
        saw_hunk: false,
        saw_marker_pair: false,
        remaining: Remaining { old: 0, new: 0 },
    }
}

fn fresh_state_exec() -> (r: FileState)
    ensures
        r == fresh_state(),
{
    FileState {
        in_hunk: false,
        saw_hunk: false,
        saw_marker_pair: false,
        remaining: Remaining { old: 0, new: 0 },
    }
}

/// The parser's state after some lines: what preceded the first entry, the finished entries,
/// the entry being read and its per-file state.
pub struct ParseStateV {
    pub preamble: Seq<Seq<u8>>,
    pub files: Seq<FileV>,
    pub cur: Option<FileV>,
    pub st: FileState,
}

pub open spec fn init_state() -> ParseStateV {
    ParseStateV { preamble: Seq::empty(), files: Seq::empty(), cur: None, st: fresh_state() }
}

pub open spec fn close_cur(files: Seq<FileV>, cur: Option<FileV>) -> Seq<FileV> {
    match cur {
        Some(f) => files.push(f),
        None => files,
    }
}

/// An empty text entry with the given header lines.
pub open spec fn new_file_spec(headers: Seq<Seq<u8>>) -> FileV {
    FileV {
        headers: headers,
        trailer: Seq::empty(),
        old_path: None,
        new_path: None,
        content: ContentV::Text(Seq::empty()),
    }
}

/// An entry opened by a `diff --git` line, its paths seeded from that line.
pub open spec fn start_git_file_spec(line: Seq<u8>, rest: Seq<u8>) -> FileV {
    let f = new_file_spec(seq![line]);
    match split_paths_spec(rest) {
        Some((o, n)) => FileV { old_path: Some(o), new_path: Some(n), ..f },
        None => f,
    }
}

/// Record a line that is not part of a hunk body: into a binary payload, as the start of one,
/// after the hunks already read, or among the leading headers (where `--- `/`+++ ` set the
/// paths).
pub open spec fn push_header_spec(f: FileV, line: Seq<u8>) -> FileV {
    match f.content {
        ContentV::Binary(b) => FileV { content: ContentV::Binary(b.push(line)), ..f },
        ContentV::Text(h) => if is_binary_marker_spec(line) {
            if h.len() == 0 {
                FileV { content: ContentV::Binary(seq![line]), ..f }
            } else {
                FileV { trailer: f.trailer.push((h.len() as usize, line)), ..f }
            }
        } else if h.len() > 0 {
            FileV { trailer: f.trailer.push((h.len() as usize, line)), ..f }
        } else {
            let f2 = if is_prefix(minus3(), line) {
                FileV { old_path: Some(strip_ab_spec(line.skip(4))), ..f }
            } else if is_prefix(plus3(), line) {
                FileV { new_path: Some(strip_ab_spec(line.skip(4))), ..f }
            } else {
                f
            };
            FileV { headers: f2.headers.push(line), ..f2 }
        },
    }
}

/// A `--- ` line opens an entry in a plain diff when no entry is being read, when the current
/// one's last hunk is complete, or when it is fully declared but has no hunks.
pub open spec fn starts_plain_file_spec(line: Seq<u8>, have_file: bool, st: FileState) -> bool {
    is_prefix(minus3(), line) && (!have_file || (st.saw_hunk && st.remaining.old == 0
        && st.remaining.new == 0) || (!st.saw_hunk && st.saw_marker_pair))
}

pub open spec fn mk_line_spec(kind: LineKind, text: Seq<u8>) -> LineV {
    LineV { kind: kind, text: text, no_newline: None }
}

/// Read one body line into `h` while the declared counts have budget for it: context takes
/// one of each side, `+` a new one, `-` an old one; a `\ ` line marks the line before it.
/// Anything else ends the hunk, with `h` and the budget left as they were.
pub open spec fn take_body_line_spec(h: HunkV, line: Seq<u8>, rem: Remaining) -> (
    HunkV,
    Remaining,
    bool,
) {
    if line.len() > 0 && line[0] == 32u8 && rem.old > 0 && rem.new > 0 {
        (
            HunkV { lines: h.lines.push(mk_line_spec(LineKind::Context, line.skip(1))), ..h },
            Remaining { old: (rem.old - 1) as u32, new: (rem.new - 1) as u32 },
            true,
        )
    } else if line.len() == 0 && rem.old > 0 && rem.new > 0 {
        (
            HunkV { lines: h.lines.push(mk_line_spec(LineKind::Context, Seq::empty())), ..h },
            Remaining { old: (rem.old - 1) as u32, new: (rem.new - 1) as u32 },
            true,
        )
    } else if line.len() > 0 && line[0] == 43u8 && rem.new > 0 {
        (
            HunkV { lines: h.lines.push(mk_line_spec(LineKind::Add, line.skip(1))), ..h },
            Remaining { old: rem.old, new: (rem.new - 1) as u32 },
            true,
        )
    } else if line.len() > 0 && line[0] == 45u8 && rem.old > 0 {
        (
            HunkV { lines: h.lines.push(mk_line_spec(LineKind::Del, line.skip(1))), ..h },
            Remaining { old: (rem.old - 1) as u32, new: rem.new },
            true,
        )
    } else if line.len() >= 2 && line[0] == 92u8 && line[1] == 32u8 {
        if h.lines.len() == 0 {
            (h, rem, false)
        } else {
            let last = h.lines.last();
            (
                HunkV {
                    lines: h.lines.update(
                        h.lines.len() - 1,
                        LineV { no_newline: Some(line), ..last },
                    ),
                    ..h
                },
                rem,
                true,
            )
        }
    } else {
        (h, rem, false)
    }
}

/// Start a hunk from its `@@` header: record the declared counts and open the body.
pub open spec fn open_hunk_spec(f: FileV, line: Seq<u8>, st: FileState) -> Result<
    (FileV, FileState),
    ParseErr,
> {
    match parse_hunk_header_spec(line) {
        Err(e) => Err(e),
        Ok(h) => match f.content {
            ContentV::Binary(_) => Err(ParseErr::Unexpected("hunk in binary file"@)),
            ContentV::Text(hs) => Ok(
                (
                    FileV { content: ContentV::Text(hs.push(h)), ..f },
                    FileState {
                        remaining: Remaining { old: h.old_lines, new: h.new_lines },
                        saw_hunk: true,
                        in_hunk: !(h.old_lines == 0 && h.new_lines == 0),
                        ..st
                    },
                ),
            ),
        },
    }
}

/// The rest of one line's step once its entry is settled.
pub open spec fn step_in_file(s: ParseStateV, line: Seq<u8>) -> Result<ParseStateV, ParseErr> {
    match s.cur {
        None => Ok(ParseStateV { preamble: s.preamble.push(line), ..s }),
        Some(f) => if is_prefix(at2(), line) {
            match open_hunk_spec(f, line, s.st) {
                Err(e) => Err(e),
                Ok((f2, st2)) => Ok(ParseStateV { cur: Some(f2), st: st2, ..s }),
            }
        } else if s.st.in_hunk {
            match f.content {
                ContentV::Text(hs) => if hs.len() > 0 {
                    let (h2, rem2, consumed) = take_body_line_spec(
                        hs.last(),
                        line,
                        s.st.remaining,
                    );
                    let f2 = FileV { content: ContentV::Text(hs.drop_last().push(h2)), ..f };
                    if consumed {
                        Ok(
                            ParseStateV {
                                cur: Some(f2),
                                st: FileState { remaining: rem2, ..s.st },
                                ..s
                            },
                        )
                    } else {
                        Ok(
                            ParseStateV {
                                cur: Some(push_header_spec(f2, line)),
                                st: FileState { in_hunk: false, remaining: rem2, ..s.st },
                                ..s
                            },
                        )
                    }
                } else {
                    Ok(s)
                },
                ContentV::Binary(_) => Ok(s),
            }
        } else {
            let st2 = if is_prefix(plus3(), line) {
                FileState { saw_marker_pair: true, ..s.st }
            } else {
                s.st
            };
            Ok(ParseStateV { cur: Some(push_header_spec(f, line)), st: st2, ..s })
        },
    }
}

/// What one input line does to the parser's state.
pub open spec fn step(s: ParseStateV, line: Seq<u8>) -> Result<ParseStateV, ParseErr> {
    if !s.st.in_hunk && is_combined_spec(line) {
        Err(ParseErr::Combined(lossy_utf8(line)))
    } else if is_prefix(diff_git(), line) {
        Ok(
            ParseStateV {
                preamble: s.preamble,
                files: close_cur(s.files, s.cur),
                cur: Some(start_git_file_spec(line, line.skip(11))),
                st: fresh_state(),
            },
        )
    } else {
        let s1 = if starts_plain_file_spec(line, s.cur.is_some(), s.st) {
            ParseStateV {
                preamble: s.preamble,
                files: close_cur(s.files, s.cur),
                cur: Some(new_file_spec(Seq::empty())),
                st: fresh_state(),
            }
        } else {
            s
        };
        step_in_file(s1, line)
    }
}

/// The state after reading `lines` in order, or the first error.
pub open spec fn run(lines: Seq<Seq<u8>>) -> Result<ParseStateV, ParseErr>
    decreases lines.len(),
{
    if lines.len() == 0 {
        Ok(init_state())
    } else {
        match run(lines.drop_last()) {
            Err(e) => Err(e),
            Ok(s) => step(s, lines.last()),
        }
    }
}

/// The lines the parser reads: the pieces between newlines, less the empty piece a final
/// newline leaves.
pub open spec fn lines_of(input: Seq<u8>) -> Seq<Seq<u8>> {
    let p = pieces(input);
    if p.len() > 0 && p.last().len() == 0 {
        p.drop_last()
    } else {
        p
    }
}

/// What [`parse`] makes of `input`.
pub open spec fn parse_spec(input: Seq<u8>) -> Result<PatchV, ParseErr> {
    match run(lines_of(input)) {
        Err(e) => Err(e),
        Ok(s) => Ok(
            PatchV {
                preamble: s.preamble,
                files: close_cur(s.files, s.cur),
                no_trailing_newline: input.len() > 0 && input.last() != 10u8,
            },
        ),
    }
}

/// A state the parser can be in: while a hunk body is open, the entry being read is a text
/// entry with that hunk as its last.
pub open spec fn state_wf(s: ParseStateV) -> bool {
    s.st.in_hunk ==> (s.cur.is_some() && s.cur.unwrap().content is Text
        && s.cur.unwrap().content->Text_0.len() > 0)
}

struct ParseState {
    preamble: Vec<Vec<u8>>,
    files: Vec<FileDiff>,
    cur: Option<FileDiff>,
    st: FileState,
}

pub open spec fn opt_file(o: Option<FileDiff>) -> Option<FileV> {
    match o {
        Some(f) => Some(f@),
        None => None,
    }
}

impl ParseState {
    spec fn view(&self) -> ParseStateV {
        ParseStateV {
            preamble: lines_view(self.preamble@),
            files: files_view(self.files@),
            cur: opt_file(self.cur),
            st: self.st,
        }
    }
}

fn new_file(headers: Vec<Vec<u8>>) -> (r: FileDiff)
    ensures
        r@ == new_file_spec(lines_view(headers@)),
{
    let r = FileDiff {
        headers,
        trailer: Vec::new(),
        old_path: None,
        new_path: None,
        content: FileContent::Text(Vec::new()),
    };
    proof {
        assert(r@.trailer =~= Seq::<(usize, Seq<u8>)>::empty());
        assert(hunks_view(Seq::<Hunk>::empty()) =~= Seq::<HunkV>::empty());
        assert(r@ =~= new_file_spec(lines_view(headers@)));
    }
    r
}

fn start_git_file(line: &[u8], rest: &[u8]) -> (r: FileDiff)
    ensures
        r@ == start_git_file_spec(line@, rest@),
{
    let mut hs: Vec<Vec<u8>> = Vec::new();
    hs.push(to_vec(line));
    proof {
        assert(lines_view(hs@) =~= seq![line@]);
    }
    let mut f = new_file(hs);
    if let Some((old_path, new_path)) = split_diff_git_paths(rest) {
        f.old_path = Some(old_path);
        f.new_path = Some(new_path);
    }
    f
}

fn push_header(f: &mut FileDiff, line: &[u8])
    ensures
        final(f)@ == push_header_spec(old(f)@, line@),
{
    match &mut f.content {
        FileContent::Binary(b) => {
            b.push(to_vec(line));
            proof {
                assert(lines_view(b@) =~= old(f)@.content->Binary_0.push(line@));
            }
            return;
        },
        FileContent::Text(_) => {},
    }
    let hunks_so_far = f.hunk_count();
    if is_binary_marker(line) {
        if hunks_so_far == 0 {
            let mut b: Vec<Vec<u8>> = Vec::new();
            b.push(to_vec(line));
            f.content = FileContent::Binary(b);
            proof {
                assert(lines_view(b@) =~= seq![line@]);
            }
        } else {
            f.trailer.push((hunks_so_far, to_vec(line)));
            proof {
                assert(trailer_view(f.trailer@) =~= trailer_view(old(f).trailer@).push(
                    (hunks_so_far, line@),
                ));
            }
        }
        return;
    }
    if hunks_so_far > 0 {
        f.trailer.push((hunks_so_far, to_vec(line)));
        proof {
            assert(trailer_view(f.trailer@) =~= trailer_view(old(f).trailer@).push(
                (hunks_so_far, line@),
            ));
        }
        return;
    }
    if let Some(rest) = strip_prefix(line, minus3_bytes()) {
        f.old_path = Some(strip_ab(rest));
    } else if let Some(rest) = strip_prefix(line, plus3_bytes()) {
        f.new_path = Some(strip_ab(rest));
    }
    f.headers.push(to_vec(line));
    proof {
        assert(lines_view(f.headers@) =~= lines_view(old(f).headers@).push(line@));
    }
}

fn mk_line(kind: LineKind, text: &[u8]) -> (r: Line)
    ensures
        r@ == mk_line_spec(kind, text@),
{
    Line { kind, text: to_vec(text), no_newline: None }
}

/// Read one line of a hunk body into `h`, drawing down `rem`.
fn take_body_line(h: &mut Hunk, line: &[u8], rem: &mut Remaining) -> (r: BodyLine)
    ensures
        ({
            let (h2, rem2, consumed) = take_body_line_spec(old(h)@, line@, *old(rem));
            &&& final(h)@ == h2
            &&& *final(rem) == rem2
            &&& (r is Consumed) == consumed
        }),
{
    let n = line.len();
    let ghost hl = old(h)@.lines;
    if n > 0 && line[0] == 32u8 && rem.old > 0 && rem.new > 0 {
        h.lines.push(mk_line(LineKind::Context, vstd::slice::slice_subrange(line, 1, n)));
        rem.old = rem.old - 1;
        rem.new = rem.new - 1;
        proof {
            assert(body_view(h.lines@) =~= hl.push(mk_line_spec(LineKind::Context, line@.skip(1))));
        }
        return BodyLine::Consumed;
    }
    if n == 0 && rem.old > 0 && rem.new > 0 {
        h.lines.push(mk_line(LineKind::Context, line));
        rem.old = rem.old - 1;
        rem.new = rem.new - 1;
        proof {
            assert(line@ =~= Seq::<u8>::empty());
            assert(body_view(h.lines@) =~= hl.push(mk_line_spec(LineKind::Context, Seq::empty())));
        }
        return BodyLine::Consumed;
    }
    if n > 0 && line[0] == 43u8 && rem.new > 0 {
        h.lines.push(mk_line(LineKind::Add, vstd::slice::slice_subrange(line, 1, n)));
        rem.new = rem.new - 1;
        proof {
            assert(body_view(h.lines@) =~= hl.push(mk_line_spec(LineKind::Add, line@.skip(1))));
        }
        return BodyLine::Consumed;
    }
    if n > 0 && line[0] == 45u8 && rem.old > 0 {
        h.lines.push(mk_line(LineKind::Del, vstd::slice::slice_subrange(line, 1, n)));
        rem.old = rem.old - 1;
        proof {
            assert(body_view(h.lines@) =~= hl.push(mk_line_spec(LineKind::Del, line@.skip(1))));
        }
        return BodyLine::Consumed;
    }
    if n >= 2 && line[0] == 92u8 && line[1] == 32u8 {
        if h.lines.len() == 0 {
            return BodyLine::HunkEnded;
        }
        let mut last = h.lines.pop().unwrap();
        last.no_newline = Some(to_vec(line));
        h.lines.push(last);
        proof {
            assert(body_view(h.lines@) =~= hl.update(
                hl.len() - 1,
                LineV { no_newline: Some(line@), ..hl.last() },
            ));
        }
        return BodyLine::Consumed;
    }
    BodyLine::HunkEnded
}

fn starts_plain_file(line: &[u8], have_file: bool, st: &FileState) -> (r: bool)
    ensures
        r == starts_plain_file_spec(line@, have_file, *st),
{
    starts_with(line, minus3_bytes()) && (!have_file || (st.saw_hunk && st.remaining.exhausted())
        || (!st.saw_hunk && st.saw_marker_pair))
}

/// Start a hunk from its `@@` header.
fn open_hunk(f: &mut FileDiff, line: &[u8], st: &mut FileState) -> (r: Result<(), ParseError>)
    ensures
        match open_hunk_spec(old(f)@, line@, *old(st)) {
            Ok((f2, st2)) => r is Ok && final(f)@ == f2 && *final(st) == st2,
            Err(e) => r matches Err(x) && x@ == e,
        },
{
    let hunk = match parse_hunk_header(line) {
        Ok(h) => h,
        Err(e) => return Err(e),
    };
    match &mut f.content {
        FileContent::Binary(_) => {
            return Err(ParseError::Unexpected(String::from_str("hunk in binary file")));
        },
        FileContent::Text(hunks) => {
            let ol = hunk.old_lines;
            let nl = hunk.new_lines;
            hunks.push(hunk);
            st.remaining = Remaining { old: ol, new: nl };
            st.saw_hunk = true;
            st.in_hunk = !st.remaining.exhausted();
            proof {
                assert(hunks_view(hunks@) =~= old(f)@.content->Text_0.push(hunk@));
            }
        },
    }
    Ok(())
}

/// What one input line does to the parser's state.
#[verifier::rlimit(40)]
#[verifier::spinoff_prover]
fn step_exec(s: &mut ParseState, line: &[u8]) -> (r: Result<(), ParseError>)
    requires
        state_wf(old(s).view()),
    ensures
        match step(old(s).view(), line@) {
            Ok(t) => r is Ok && final(s).view() == t && state_wf(t),
            Err(e) => r matches Err(x) && x@ == e,
        },
{
    let ghost s0 = s.view();
    // Checked before anything else claims the line, but only outside a hunk body.
    if !s.st.in_hunk && is_combined_marker(line) {
        return Err(ParseError::Combined(lossy_string(line)));
    }
    if let Some(rest) = strip_prefix(line, diff_git_bytes()) {
        if let Some(f) = s.cur.take() {
            s.files.push(f);
            proof {
                assert(files_view(s.files@) =~= s0.files.push(f@));
            }
        }
        s.cur = Some(start_git_file(line, rest));
        s.st = fresh_state_exec();
        return Ok(());
    }
    if starts_plain_file(line, s.cur.is_some(), &s.st) {
        if let Some(f) = s.cur.take() {
            s.files.push(f);
            proof {
                assert(files_view(s.files@) =~= s0.files.push(f@));
            }
        }
        s.cur = Some(new_file(Vec::new()));
        s.st = fresh_state_exec();
        proof {
            assert(lines_view(Seq::<Vec<u8>>::empty()) =~= Seq::<Seq<u8>>::empty());
        }
    }
    let ghost s1 = s.view();
    let mut f = match s.cur.take() {
        None => {
            // Before the first file entry: the preamble.
            s.preamble.push(to_vec(line));
            proof {
                assert(lines_view(s.preamble@) =~= s1.preamble.push(line@));
            }
            return Ok(());
        },
        Some(f) => f,
    };
    if starts_with(line, at2_bytes()) {
        let r = open_hunk(&mut f, line, &mut s.st);
        s.cur = Some(f);
        return r;
    }
    if s.st.in_hunk {
        let mut ended = false;
        match &mut f.content {
            FileContent::Text(hunks) => {
                if hunks.len() > 0 {
                    let ghost hv = hunks_view(hunks@);
                    let mut h = hunks.pop().unwrap();
                    proof {
                        assert(hunks_view(hunks@) =~= hv.drop_last());
                    }
                    let res = take_body_line(&mut h, line, &mut s.st.remaining);
                    hunks.push(h);
                    proof {
                        assert(hunks_view(hunks@) =~= hv.drop_last().push(h@));
                    }
                    if let BodyLine::HunkEnded = res {
                        ended = true;
                    }
                }
            },
            FileContent::Binary(_) => {},
        }
        if ended {
            s.st.in_hunk = false;
            push_header(&mut f, line);
        }
        s.cur = Some(f);
        return Ok(());
    }
    if starts_with(line, plus3_bytes()) {
        s.st.saw_marker_pair = true;
    }
    push_header(&mut f, line);
    s.cur = Some(f);
    Ok(())
}

proof fn lemma_run_err_prefix(l: Seq<Seq<u8>>, m: int)
    requires
        0 <= m <= l.len(),
        run(l.take(m)) is Err,
    ensures
        run(l) == run(l.take(m)),
    decreases l.len() - m,
{
    if m < l.len() {
        assert(l.take(m + 1).drop_last() =~= l.take(m));
        lemma_run_err_prefix(l, m + 1);
    } else {
        assert(l.take(m) =~= l);
    }
}

proof fn lemma_piece(input: Seq<u8>, k: int, pos: int, end: int, has_nl: bool)
    requires
        0 <= k < pieces(input).len(),
        pieces(input).skip(k) == pieces_from(input, pos, pos),
        0 <= pos <= end <= input.len(),
        forall|j: int| pos <= j < end ==> input[j] != 10u8,
        has_nl ==> end < input.len() && input[end] == 10u8,
        !has_nl ==> end == input.len(),
    ensures
        pieces(input)[k] == input.subrange(pos, end),
        pieces(input).take(k + 1).drop_last() == pieces(input).take(k),
        pieces(input).take(k + 1).last() == pieces(input)[k],
        has_nl ==> k + 1 < pieces(input).len() && pieces(input).skip(k + 1) == pieces_from(
            input,
            end + 1,
            end + 1,
        ) && lines_of(input).take(k + 1) == pieces(input).take(k + 1) && k + 1 <= lines_of(
            input,
        ).len(),
        !has_nl && end == pos ==> lines_of(input) == pieces(input).take(k),
        !has_nl && end > pos ==> lines_of(input) == pieces(input).take(k + 1),
{
    let all = pieces(input);
    lemma_pieces_skip(input, pos, pos, end);
    assert(all.skip(k)[0] == all[k]);
    assert(all.take(k + 1).drop_last() =~= all.take(k));
    if has_nl {
        lemma_pieces_nonempty(input, end + 1, end + 1);
        assert(all.skip(k).len() >= 2);
        assert(all.skip(k + 1) =~= all.skip(k).skip(1));
        assert(lines_of(input).take(k + 1) =~= all.take(k + 1));
    } else {
        assert(all.skip(k).len() == 1);
        if end == pos {
            assert(lines_of(input) =~= all.take(k));
        } else {
            assert(all.take(k + 1) =~= all);
        }
    }
}

/// Parse a unified diff, git-generated or plain, into a [`Patch`]. Every line is kept: the
/// preamble before the first entry, header lines, hunk bodies, lines after a hunk, the CR of
/// CRLF input and no-newline markers verbatim, and paths as raw bytes.
pub fn parse(input: &[u8]) -> (r: Result<Patch, ParseError>)
    ensures
        match parse_spec(input@) {
            Ok(p) => r matches Ok(q) && q@ == p,
            Err(e) => r matches Err(x) && x@ == e,
        },
{
    let n = input.len();
    let mut s = ParseState {
        preamble: Vec::new(),
        files: Vec::new(),
        cur: None,
        st: fresh_state_exec(),
    };
    proof {
        assert(lines_view(Seq::<Vec<u8>>::empty()) =~= Seq::<Seq<u8>>::empty());
        assert(files_view(Seq::<FileDiff>::empty()) =~= Seq::<FileV>::empty());
        assert(s.view() == init_state());
    }
    let ghost all = pieces(input@);
    let ghost lo = lines_of(input@);
    let mut pos: usize = 0;
    let ghost mut k: int = 0;
    proof {
        lemma_pieces_nonempty(input@, 0, 0);
        assert(all.skip(0) =~= all);
        assert(all.take(0) =~= Seq::<Seq<u8>>::empty());
    }
    loop
        invariant_except_break
            n == input@.len(),
            all == pieces(input@),
            lo == lines_of(input@),
            pos <= n,
            0 <= k < all.len(),
            all.skip(k) == pieces_from(input@, pos as int, pos as int),
            run(all.take(k)) == Ok::<ParseStateV, ParseErr>(s.view()),
            state_wf(s.view()),
        ensures
            run(lo) == Ok::<ParseStateV, ParseErr>(s.view()),
        decreases n - pos,
    {
        let nl = find_byte_from(input, 10u8, pos);
        let end = match nl {
            Some(j) => j,
            None => n,
        };
        let line = vstd::slice::slice_subrange(input, pos, end);
        proof {
            lemma_piece(input@, k, pos as int, end as int, nl.is_some());
        }
        if nl.is_none() && line.len() == 0 {
            break;
        }
        let ghost s0 = s.view();
        proof {
            assert(run(all.take(k + 1)) == step(s0, line@));
            if nl.is_none() {
                assert(lo.take(k + 1) =~= lo);
            }
            assert(lo.take(k + 1) == all.take(k + 1));
        }
        match step_exec(&mut s, line) {
            Ok(()) => {},
            Err(e) => {
                proof {
                    lemma_run_err_prefix(lo, k + 1);
                }
                return Err(e);
            },
        }
        match nl {
            Some(j) => {
                proof {
                    k = k + 1;
                }
                pos = j + 1;
            },
            None => {
                break;
            },
        }
    }
    let ghost sv = s.view();
    if let Some(f) = s.cur.take() {
        s.files.push(f);
        proof {
            assert(files_view(s.files@) =~= sv.files.push(f@));
        }
    }
    let no_trailing_newline = n > 0 && input[n - 1] != 10u8;
    let p = Patch { preamble: s.preamble, files: s.files, no_trailing_newline };
    Ok(p)
}

} // verus!
