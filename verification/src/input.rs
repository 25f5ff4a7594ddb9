//! What the command does with its input before any diff work: the size limit, the encodings it
//! will not guess at, the refusal of what is no diff at all, and the parse and validation of the
//! rest.

use crate::bytes::{all_ws, find_byte_from, first_of, lemma_first_of, lemma_first_of_unique};
use crate::error::{AppErr, AppError};
use crate::model::{Patch, PatchV};
use crate::parser::{
    carries_spec, lemma_pieces_nonempty, lemma_pieces_skip, longest, looks_like_a_diff_spec,
    parse_msg, parse_spec, path_headers, pieces, pieces_from, reads_as_diff_line_spec,
};
use crate::renumber::bodies_fit;
use crate::select::patch_fits;
use crate::validate::{check_patch, validation_msg};
use vstd::prelude::*;
use vstd::string::StringExecFns;

verus! {

// ------------------------------------------------------------------------------------------
// The size limit
// ------------------------------------------------------------------------------------------

/// The message for an input over the size limit.
pub open spec fn limit_msg(limit: u64) -> Seq<char> {
    "input exceeds limit of "@ + crate::text::dec_chars(limit as nat)
        + " bytes (override with --max-input-bytes)"@
}

/// The bytes of a source, read through the size limit: a source of more than `limit` bytes is
/// refused, and a `limit` of 0 disables the check. A caller reading a stream hands in at most
/// `limit + 1` of its bytes, which is enough to tell the two apart.
pub fn read_limited(input: &[u8], limit: u64) -> (r: Result<Vec<u8>, AppError>)
    ensures
        match r {
            Ok(v) => (limit == 0 || input@.len() <= limit) && v@ == input@,
            Err(e) => limit != 0 && input@.len() > limit && e@ == AppErr::Usage(limit_msg(limit)),
        },
{
    if limit != 0 && (input.len() as u64) > limit {
        let mut m = String::from_str("input exceeds limit of ");
        m.append(crate::text::dec_string(limit).as_str());
        m.append(" bytes (override with --max-input-bytes)");
        return Err(AppError::Usage(m));
    }
    Ok(crate::bytes::to_vec(input))
}

// ------------------------------------------------------------------------------------------
// Encodings the input cannot be read in
// ------------------------------------------------------------------------------------------

/// The encoding named by a leading byte-order mark, for the marks whose text cannot be read. A
/// UTF-8 mark is not one of them. UTF-32 comes first: its little-endian mark starts with the
/// UTF-16LE one.
pub open spec fn bom_spec(s: Seq<u8>) -> Option<Seq<char>> {
    if s.len() >= 4 && s[0] == 0xFFu8 && s[1] == 0xFEu8 && s[2] == 0u8 && s[3] == 0u8 {
        Some("UTF-32LE"@)
    } else if s.len() >= 4 && s[0] == 0u8 && s[1] == 0u8 && s[2] == 0xFEu8 && s[3] == 0xFFu8 {
        Some("UTF-32BE"@)
    } else if s.len() >= 2 && s[0] == 0xFFu8 && s[1] == 0xFEu8 {
        Some("UTF-16LE"@)
    } else if s.len() >= 2 && s[0] == 0xFEu8 && s[1] == 0xFFu8 {
        Some("UTF-16BE"@)
    } else {
        None
    }
}

/// The encoding named by a leading UTF-16 or UTF-32 byte-order mark, if the input opens with one.
pub fn utf16_or_32_bom(input: &[u8]) -> (r: Option<&'static str>)
    ensures
        match r {
            Some(e) => bom_spec(input@) == Some(e@),
            None => bom_spec(input@) is None,
        },
{
    let n = input.len();
    if n >= 4 && input[0] == 0xFF && input[1] == 0xFE && input[2] == 0 && input[3] == 0 {
        return Some("UTF-32LE");
    }
    if n >= 4 && input[0] == 0 && input[1] == 0 && input[2] == 0xFE && input[3] == 0xFF {
        return Some("UTF-32BE");
    }
    if n >= 2 && input[0] == 0xFF && input[1] == 0xFE {
        return Some("UTF-16LE");
    }
    if n >= 2 && input[0] == 0xFE && input[1] == 0xFF {
        return Some("UTF-16BE");
    }
    None
}

/// How many opening bytes are looked at for UTF-16 without a byte-order mark: wide enough for
/// the mail headers of a `git format-patch` input to pass before the diff marker arrives.
pub const UTF16_SNIFF_BYTES: usize = 8192;

/// The window looked at, cut to a whole number of 2-byte code units.
pub open spec fn sniff_window(n: int) -> int {
    let m = if n < UTF16_SNIFF_BYTES {
        n
    } else {
        UTF16_SNIFF_BYTES as int
    };
    m - m % 2
}

/// A byte a line of ASCII text holds: tab, line feed, carriage return, or a printable one.
pub open spec fn is_text_byte(b: u8) -> bool {
    b == 9u8 || b == 10u8 || b == 13u8 || (0x20u8 <= b && b <= 0x7Eu8)
}

/// Code unit `i` read with its text byte at offset `text_at` (0 little-endian, 1 big-endian):
/// the text byte where it is ASCII paired with NUL, else 0xFF, which opens no marker and ends no
/// line.
pub open spec fn narrow_unit(s: Seq<u8>, i: int, text_at: int) -> u8 {
    if s[2 * i + 1 - text_at] == 0u8 && is_text_byte(s[2 * i + text_at]) {
        s[2 * i + text_at]
    } else {
        0xFFu8
    }
}

/// The window read as one byte per code unit.
pub open spec fn narrowed(s: Seq<u8>, text_at: int) -> Seq<u8> {
    Seq::new((sniff_window(s.len() as int) / 2) as nat, |i: int| narrow_unit(s, i, text_at))
}

/// What a line says before its first unit that is not ASCII.
pub open spec fn read_as_ascii(line: Seq<u8>) -> Seq<u8> {
    match first_of(line, 0xFFu8) {
        Some(i) => line.take(i),
        None => line,
    }
}

/// A line that counts as one a diff writes: read no further than its first unit that is not
/// ASCII it reads as a diff line, and where it opens with a header a path follows, the path
/// stands in the whole line.
pub open spec fn counts_as_diff_line(line: Seq<u8>) -> bool {
    reads_as_diff_line_spec(read_as_ascii(line)) && match longest(path_headers(), line) {
        Some(h) => carries_spec(line, h),
        None => true,
    }
}

/// How many of `ls` count as lines a diff writes.
pub open spec fn diff_line_count(ls: Seq<Seq<u8>>) -> nat
    decreases ls.len(),
{
    if ls.len() == 0 {
        0
    } else {
        diff_line_count(ls.drop_last()) + if counts_as_diff_line(ls.last()) {
            1nat
        } else {
            0nat
        }
    }
}

/// Two lines of the window, read in the byte order `text_at` names, count as lines a diff
/// writes. One is what binary data holds by accident; two is what a patch has.
pub open spec fn reads_as_utf16(s: Seq<u8>, text_at: int) -> bool {
    diff_line_count(pieces(narrowed(s, text_at))) >= 2
}

/// The encoding of a UTF-16 input that carries no byte-order mark, when it reads like one;
/// little-endian is asked first.
pub open spec fn sniff_spec(s: Seq<u8>) -> Option<Seq<char>> {
    if reads_as_utf16(s, 0) {
        Some("UTF-16LE"@)
    } else if reads_as_utf16(s, 1) {
        Some("UTF-16BE"@)
    } else {
        None
    }
}

fn narrow(input: &[u8], text_at: usize) -> (r: Vec<u8>)
    requires
        text_at <= 1,
    ensures
        r@ == narrowed(input@, text_at as int),
{
    let n = input.len();
    let m = if n < UTF16_SNIFF_BYTES {
        n
    } else {
        UTF16_SNIFF_BYTES
    };
    let units = (m - m % 2) / 2;
    let nul_at = 1 - text_at;
    let mut out: Vec<u8> = Vec::new();
    let mut i: usize = 0;
    while i < units
        invariant
            n == input@.len(),
            units == sniff_window(n as int) / 2,
            2 * units <= n,
            text_at <= 1,
            nul_at == 1 - text_at,
            i <= units,
            out@ == narrowed(input@, text_at as int).take(i as int),
        decreases units - i,
    {
        let t = input[2 * i + text_at];
        let z = input[2 * i + nul_at];
        let b = if z == 0 && (t == 9 || t == 10 || t == 13 || (0x20 <= t && t <= 0x7E)) {
            t
        } else {
            0xFF
        };
        out.push(b);
        proof {
            assert(out@ =~= narrowed(input@, text_at as int).take(i + 1));
        }
        i = i + 1;
    }
    proof {
        assert(out@ =~= narrowed(input@, text_at as int));
    }
    out
}

fn counts_as_a_diff_line(line: &[u8]) -> (r: bool)
    ensures
        r == counts_as_diff_line(line@),
{
    let end = match find_byte_from(line, 0xFF, 0) {
        Some(i) => i,
        None => line.len(),
    };
    let ascii = vstd::slice::slice_subrange(line, 0, end);
    proof {
        lemma_first_of(line@, 0xFFu8);
        if end < line@.len() {
            lemma_first_of_unique(line@, 0xFFu8, end as int);
        } else {
            assert(first_of(line@, 0xFFu8) is None);
            assert(line@.subrange(0, end as int) =~= line@);
        }
        assert(ascii@ == read_as_ascii(line@));
    }
    crate::parser::reads_as_a_diff_line(ascii) && match crate::parser::the_header_a_path_follows_in(
        line,
    ) {
        Some(h) => crate::parser::carries_something_past(line, h),
        None => true,
    }
}

/// `min(diff_line_count(pieces(text)), 2)`: whether none, one, or at least two lines of `text`
/// count.
fn diff_lines_in(text: &[u8]) -> (r: usize)
    ensures
        r == if diff_line_count(pieces(text@)) >= 2 {
            2
        } else {
            diff_line_count(pieces(text@))
        },
{
    let n = text.len();
    let ghost all = pieces(text@);
    let mut pos: usize = 0;
    let mut count: usize = 0;
    let ghost mut k: int = 0;
    proof {
        lemma_pieces_nonempty(text@, 0, 0);
        assert(all.take(0) =~= Seq::<Seq<u8>>::empty());
    }
    loop
        invariant
            n == text@.len(),
            all == pieces(text@),
            pos <= n,
            0 <= k < all.len(),
            all.skip(k) == pieces_from(text@, pos as int, pos as int),
            count == if diff_line_count(all.take(k)) >= 2 {
                2
            } else {
                diff_line_count(all.take(k))
            },
        decreases n - pos,
    {
        let nl = find_byte_from(text, 10u8, pos);
        let end = match nl {
            Some(j) => j,
            None => n,
        };
        let line = vstd::slice::slice_subrange(text, pos, end);
        proof {
            lemma_pieces_skip(text@, pos as int, pos as int, end as int);
            assert(all.skip(k)[0] == all[k]);
            if nl.is_some() {
                lemma_pieces_nonempty(text@, end + 1, end + 1);
            }
            assert(all.take(k + 1).drop_last() =~= all.take(k));
            assert(all.take(k + 1).last() == all[k]);
        }
        if counts_as_a_diff_line(line) && count < 2 {
            count = count + 1;
        }
        match nl {
            Some(j) => {
                proof {
                    assert(all.skip(k + 1) =~= all.skip(k).skip(1));
                }
                pos = j + 1;
                proof {
                    k = k + 1;
                }
            },
            None => {
                proof {
                    assert(all.skip(k).len() == 1);
                    assert(all.take(k + 1) =~= all);
                }
                return count;
            },
        }
    }
}

/// The encoding of a UTF-16 input that carries no byte-order mark, when two lines of its
/// opening window, read as ASCII paired with NUL, read as lines a diff writes.
pub fn utf16_without_bom(input: &[u8]) -> (r: Option<&'static str>)
    ensures
        match r {
            Some(e) => sniff_spec(input@) == Some(e@),
            None => sniff_spec(input@) is None,
        },
{
    let le = narrow(input, 0);
    if diff_lines_in(le.as_slice()) >= 2 {
        return Some("UTF-16LE");
    }
    let be = narrow(input, 1);
    if diff_lines_in(be.as_slice()) >= 2 {
        return Some("UTF-16BE");
    }
    None
}

// ------------------------------------------------------------------------------------------
// What is no diff at all
// ------------------------------------------------------------------------------------------

/// What every message about an encoding says after naming it: what is read instead, and the
/// `iconv` call that converts from it.
pub open spec fn encoding_msg_spec(head: Seq<char>, enc: Seq<char>, mid: Seq<char>) -> Seq<char> {
    head + enc + mid
        + "; hunkpick reads a UTF-8 (or any ASCII-compatible) byte stream -- re-encode the diff, e.g. `iconv -f "@
        + enc + " -t UTF-8`"@
}

/// The message for an input that opens with a byte-order mark of encoding `enc`.
pub open spec fn bom_msg(enc: Seq<char>) -> Seq<char> {
    encoding_msg_spec("input starts with a "@, enc, " byte-order mark"@)
}

/// The message for an input that reads as UTF-16 of byte order `enc` without a mark.
pub open spec fn no_bom_msg(enc: Seq<char>) -> Seq<char> {
    encoding_msg_spec("input looks like "@, enc, " without a byte-order mark"@)
}

/// The message for an input holding a NUL byte.
pub open spec fn nul_msg() -> Seq<char> {
    "binary input: NUL byte found, expected a unified diff"@
}

/// The message for an input with no line that opens a diff.
pub open spec fn no_marker_msg() -> Seq<char> {
    "input does not look like a unified diff (no diff markers found)"@
}

/// Why a non-blank input is refused before parsing, if it is: an encoding it is not read in
/// (a mark first, then UTF-16 without one), a NUL byte, or no diff marker at all.
pub open spec fn reject_spec(s: Seq<u8>) -> Option<Seq<char>> {
    match bom_spec(s) {
        Some(e) => Some(bom_msg(e)),
        None => match sniff_spec(s) {
            Some(e) => Some(no_bom_msg(e)),
            None => if exists|i: int| 0 <= i < s.len() && s[i] == 0u8 {
                Some(nul_msg())
            } else if !looks_like_a_diff_spec(s) {
                Some(no_marker_msg())
            } else {
                None
            },
        },
    }
}

fn encoding_msg(head: &str, enc: &str, mid: &str) -> (r: String)
    ensures
        r@ == encoding_msg_spec(head@, enc@, mid@),
{
    let mut m = String::from_str(head);
    m.append(enc);
    m.append(mid);
    m.append(
        "; hunkpick reads a UTF-8 (or any ASCII-compatible) byte stream -- re-encode the diff, e.g. `iconv -f ",
    );
    m.append(enc);
    m.append(" -t UTF-8`");
    m
}

/// Refuse input that is clearly not a unified diff: text in an encoding that is not read,
/// binary data (a NUL byte), or text with no diff marker line at all. Both encoding checks come
/// before the NUL check: a UTF-16 diff is ASCII interleaved with NUL bytes, and is a diff with
/// an encoding problem, not binary data.
pub fn reject_non_diff(input: &[u8]) -> (r: Result<(), AppError>)
    ensures
        match reject_spec(input@) {
            None => r is Ok,
            Some(m) => r matches Err(e) && e@ == AppErr::Usage(m),
        },
{
    if let Some(enc) = utf16_or_32_bom(input) {
        return Err(AppError::Usage(encoding_msg("input starts with a ", enc, " byte-order mark")));
    }
    if let Some(enc) = utf16_without_bom(input) {
        return Err(
            AppError::Usage(encoding_msg("input looks like ", enc, " without a byte-order mark")),
        );
    }
    if find_byte_from(input, 0, 0).is_some() {
        return Err(AppError::Usage(String::from_str("binary input: NUL byte found, expected a unified diff")));
    }
    if !crate::parser::looks_like_a_diff(input) {
        return Err(
            AppError::Usage(
                String::from_str("input does not look like a unified diff (no diff markers found)"),
            ),
        );
    }
    Ok(())
}

// ------------------------------------------------------------------------------------------
// Parse and validation
// ------------------------------------------------------------------------------------------

/// The message for an input whose hunks run past what a hunk header can count.
pub open spec fn overflow_msg() -> Seq<char> {
    "input diff: a hunk runs past the line numbers a hunk header can count"@
}

/// What the input makes: nothing for a blank input, a refusal for one that is no diff, the
/// parse error, the validation error of the parsed diff, or a hunk with more than one change
/// run that runs past the line numbers a header can state, each a usage error; else the parsed
/// diff.
pub open spec fn load_spec(s: Seq<u8>) -> Result<Option<PatchV>, AppErr> {
    if all_ws(s) {
        Ok(None)
    } else {
        match reject_spec(s) {
            Some(m) => Err(AppErr::Usage(m)),
            None => match parse_spec(s) {
                Err(e) => Err(AppErr::Usage("parse error: "@ + parse_msg(e))),
                Ok(p) => match check_patch(p, false) {
                    Err(e) => Err(AppErr::Usage("input diff: "@ + validation_msg(e))),
                    Ok(()) => if patch_fits(p) {
                        Ok(Some(p))
                    } else {
                        Err(AppErr::Usage(overflow_msg()))
                    },
                },
            },
        }
    }
}

fn overflow_error() -> (e: AppError)
    ensures
        e@ == AppErr::Usage(overflow_msg()),
{
    AppError::Usage(
        String::from_str("input diff: a hunk runs past the line numbers a hunk header can count"),
    )
}

/// Validate and parse the input read. `Ok(None)` for an empty or whitespace-only input, which
/// every subcommand treats as nothing to do. A defect of the input diff is a usage error, not a
/// failed verification of a result.
pub fn load_and_parse(input: &[u8]) -> (r: Result<Option<Patch>, AppError>)
    ensures
        match r {
            Ok(Some(p)) => load_spec(input@) == Ok::<Option<PatchV>, AppErr>(Some(p@)),
            Ok(None) => load_spec(input@) == Ok::<Option<PatchV>, AppErr>(None),
            Err(e) => load_spec(input@) == Err::<Option<PatchV>, AppErr>(e@),
        },
        r matches Ok(Some(p)) ==> patch_fits(p@) && bodies_fit(p@),
{
    if crate::bytes::all_ws_exec(input) {
        return Ok(None);
    }
    match reject_non_diff(input) {
        Ok(()) => {},
        Err(e) => return Err(e),
    }
    let patch = match crate::parser::parse(input) {
        Ok(p) => p,
        Err(e) => {
            let mut m = String::from_str("parse error: ");
            m.append(e.message().as_str());
            return Err(AppError::Usage(m));
        },
    };
    proof {
        crate::parsed::lemma_parsed_within_headers(input@);
    }
    match crate::validate::validate_input(&patch) {
        Ok(()) => {},
        Err(e) => {
            let mut m = String::from_str("input diff: ");
            m.append(e.message().as_str());
            return Err(AppError::Usage(m));
        },
    }
    if !crate::select::patch_in_bounds(&patch) {
        return Err(overflow_error());
    }
    Ok(Some(patch))
}

} // verus!
