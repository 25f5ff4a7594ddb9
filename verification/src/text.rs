//! Turning raw bytes into text for display, the one place the library leaves its byte world.

use vstd::prelude::*;
use vstd::string::{StrSliceExecFns, StringExecFns};

verus! {

/// What `String::from_utf8_lossy` makes of `bytes`: the bytes decoded as UTF-8, with every
/// ill-formed sequence replaced by U+FFFD.
pub uninterp spec fn lossy_utf8(bytes: Seq<u8>) -> Seq<char>;

/// `String::from_utf8_lossy(bytes).into_owned()`. Trusted: the result is the named lossy
/// decoding of the bytes, and equals their plain UTF-8 decoding when they are valid UTF-8 (the
/// std documentation: valid input is returned as the `str` it encodes). The exact replacement
/// rule for ill-formed input is not stated.
#[verifier::external_body]
pub(crate) fn lossy_string(bytes: &[u8]) -> (s: String)
    ensures
        s@ == lossy_utf8(bytes@),
        vstd::utf8::valid_utf8(bytes@) ==> s@ == vstd::utf8::decode_utf8(bytes@),
{
    String::from_utf8_lossy(bytes).into_owned()
}

/// Whether `std::str::from_utf8(bytes)` succeeds. Trusted: the std documentation says it
/// fails exactly when the bytes are not valid UTF-8.
#[verifier::external_body]
pub(crate) fn is_valid_utf8(bytes: &[u8]) -> (r: bool)
    ensures
        r == vstd::utf8::valid_utf8(bytes@),
{
    std::str::from_utf8(bytes).is_ok()
}

/// Whether `c` has Unicode's `White_Space` property, which is what `char::is_whitespace`
/// and `str::trim` go by.
pub open spec fn is_white_space(c: char) -> bool {
    let u = c as u32;
    ||| 0x09 <= u <= 0x0d
    ||| u == 0x20 || u == 0x85 || u == 0xa0 || u == 0x1680
    ||| 0x2000 <= u <= 0x200a
    ||| u == 0x2028 || u == 0x2029 || u == 0x202f || u == 0x205f || u == 0x3000
}

fn white_space(c: char) -> (r: bool)
    ensures
        r == is_white_space(c),
{
    let u = c as u32;
    (0x09 <= u && u <= 0x0d) || u == 0x20 || u == 0x85 || u == 0xa0 || u == 0x1680 || (0x2000
        <= u && u <= 0x200a) || u == 0x2028 || u == 0x2029 || u == 0x202f || u == 0x205f || u
        == 0x3000
}

/// `s` without its leading whitespace.
pub open spec fn trim_start(s: Seq<char>) -> Seq<char>
    decreases s.len(),
{
    if s.len() > 0 && is_white_space(s[0]) {
        trim_start(s.drop_first())
    } else {
        s
    }
}

/// `s` without its trailing whitespace.
pub open spec fn trim_end(s: Seq<char>) -> Seq<char>
    decreases s.len(),
{
    if s.len() > 0 && is_white_space(s.last()) {
        trim_end(s.drop_last())
    } else {
        s
    }
}

/// `s` without its leading and trailing whitespace: what `str::trim` leaves.
pub open spec fn trimmed(s: Seq<char>) -> Seq<char> {
    trim_end(trim_start(s))
}

/// `s` with its leading and trailing whitespace removed.
pub fn trim_string(s: &str) -> (r: String)
    ensures
        r@ == trimmed(s@),
{
    let n = s.unicode_len();
    let mut i: usize = 0;
    assert(s@.subrange(0, n as int) =~= s@);
    while i < n && white_space(s.get_char(i))
        invariant
            n == s@.len(),
            i <= n,
            trim_start(s@) == trim_start(s@.subrange(i as int, n as int)),
        decreases n - i,
    {
        assert(s@.subrange(i as int, n as int).drop_first() =~= s@.subrange(i + 1, n as int));
        i = i + 1;
    }
    assert(trim_start(s@) == s@.subrange(i as int, n as int));
    let mut j: usize = n;
    while j > i && white_space(s.get_char(j - 1))
        invariant
            n == s@.len(),
            i <= j <= n,
            trim_start(s@) == s@.subrange(i as int, n as int),
            trimmed(s@) == trim_end(s@.subrange(i as int, j as int)),
        decreases j - i,
    {
        assert(s@.subrange(i as int, j as int).drop_last() =~= s@.subrange(i as int, j - 1));
        j = j - 1;
    }
    assert(trimmed(s@) == s@.subrange(i as int, j as int));
    String::from_str(s.substring_char(i, j))
}

/// The decimal digits of `n` as characters.
pub open spec fn dec_chars(n: nat) -> Seq<char> {
    crate::bytes::dec(n).map_values(|b: u8| b as char)
}

/// A string of ASCII bytes holds exactly those bytes as characters.
pub proof fn lemma_ascii_decodes(bytes: Seq<u8>)
    requires
        forall|i: int| 0 <= i < bytes.len() ==> #[trigger] bytes[i] < 128,
    ensures
        vstd::utf8::valid_utf8(bytes),
        vstd::utf8::decode_utf8(bytes) == bytes.map_values(|b: u8| b as char),
{
    let chars = bytes.map_values(|b: u8| b as char);
    assert(vstd::utf8::is_ascii_chars(chars));
    vstd::utf8::is_ascii_chars_encode_utf8(chars);
    assert(bytes =~= vstd::utf8::encode_utf8(chars));
    vstd::utf8::encode_utf8_valid_utf8(chars);
    vstd::utf8::encode_utf8_decode_utf8(chars);
}

/// The decimal digits of `n` as a string.
pub fn dec_string(n: u64) -> (r: String)
    ensures
        r@ == dec_chars(n as nat),
{
    let d = crate::bytes::fmt_dec(n);
    proof {
        crate::bytes::lemma_dec_digits(n as nat);
        lemma_ascii_decodes(d@);
    }
    lossy_string(d.as_slice())
}

/// The decimal digits of `i` as characters, after a `-` when it is negative.
pub open spec fn int_chars(i: int) -> Seq<char> {
    if i < 0 {
        "-"@ + dec_chars((-i) as nat)
    } else {
        dec_chars(i as nat)
    }
}

/// The decimal form of `i` as a string, `-` first when it is negative.
pub fn int_string(i: i32) -> (r: String)
    ensures
        r@ == int_chars(i as int),
{
    if i < 0 {
        let mut s = String::from_str("-");
        let m: i64 = 0i64 - (i as i64);
        s.append(dec_string(m as u64).as_str());
        s
    } else {
        dec_string(i as u64)
    }
}

/// The decimal digits of `n + 1`, the 1-based number of a 0-based index, as a string.
pub fn ordinal_string(n: usize) -> (r: String)
    ensures
        r@ == dec_chars(n as nat + 1),
{
    let m = n as u64;
    if m < 0xffff_ffff_ffff_ffff {
        dec_string(m + 1)
    } else {
        // `n + 1` is 2^64, one past what a `u64` holds: its digits differ from those of
        // 2^64 - 1 only in the last one.
        let mut b = crate::bytes::fmt_dec(m);
        let last = b.len() - 1;
        proof {
            crate::bytes::lemma_dec_max();
        }
        b.set(last, 54);
        proof {
            crate::bytes::lemma_dec_digits(n as nat + 1);
            crate::bytes::lemma_dec_max();
            lemma_ascii_decodes(b@);
        }
        lossy_string(b.as_slice())
    }
}
} // verus!
