//! Byte-string helpers the diff format is read and written with, and the fixed markers of
//! the format as byte strings.

use vstd::prelude::*;

verus! {

/// `p` opens `s`.
pub open spec fn is_prefix(p: Seq<u8>, s: Seq<u8>) -> bool {
    p.len() <= s.len() && s.subrange(0, p.len() as int) == p
}

/// Whether `s` starts with `p`.
pub fn starts_with(s: &[u8], p: &[u8]) -> (r: bool)
    ensures
        r == is_prefix(p@, s@),
{
    if p.len() > s.len() {
        return false;
    }
    let mut i: usize = 0;
    while i < p.len()
        invariant
            p@.len() <= s@.len(),
            i <= p@.len(),
            forall|j: int| 0 <= j < i ==> s@[j] == p@[j],
        decreases p@.len() - i,
    {
        if s[i] != p[i] {
            proof {
                assert(s@.subrange(0, p@.len() as int)[i as int] != p@[i as int]);
            }
            return false;
        }
        i = i + 1;
    }
    proof {
        assert(s@.subrange(0, p@.len() as int) =~= p@);
    }
    true
}

/// `s` without the prefix `p`, if `p` opens it.
pub fn strip_prefix<'a>(s: &'a [u8], p: &[u8]) -> (r: Option<&'a [u8]>)
    ensures
        r.is_some() == is_prefix(p@, s@),
        r.is_some() ==> r.unwrap()@ == s@.skip(p@.len() as int),
{
    if starts_with(s, p) {
        Some(vstd::slice::slice_subrange(s, p.len(), s.len()))
    } else {
        None
    }
}

/// The bytes of `s` without one trailing carriage return.
pub open spec fn strip_cr(s: Seq<u8>) -> Seq<u8> {
    if s.len() > 0 && s.last() == 13u8 {
        s.drop_last()
    } else {
        s
    }
}

/// `s` without one trailing `\r`.
pub fn strip_cr_exec(s: &[u8]) -> (r: &[u8])
    ensures
        r@ == strip_cr(s@),
{
    if s.len() > 0 && s[s.len() - 1] == 13u8 {
        vstd::slice::slice_subrange(s, 0, s.len() - 1)
    } else {
        s
    }
}

/// Byte-wise equality.
pub fn bytes_eq(a: &[u8], b: &[u8]) -> (r: bool)
    ensures
        r == (a@ == b@),
{
    if a.len() != b.len() {
        return false;
    }
    let r = starts_with(a, b);
    proof {
        if r {
            assert(a@ =~= a@.subrange(0, b@.len() as int));
        } else {
            assert(a@.subrange(0, a@.len() as int) =~= a@);
        }
    }
    r
}

/// An owned copy of `s`.
pub fn to_vec(s: &[u8]) -> (r: Vec<u8>)
    ensures
        r@ == s@,
{
    vstd::slice::slice_to_vec(s)
}

/// Append every byte of `s` to `out`.
pub fn push_all(out: &mut Vec<u8>, s: &[u8])
    ensures
        final(out)@ == old(out)@ + s@,
{
    let mut i: usize = 0;
    let ghost start = out@;
    while i < s.len()
        invariant
            i <= s@.len(),
            out@ == start + s@.subrange(0, i as int),
        decreases s@.len() - i,
    {
        out.push(s[i]);
        i = i + 1;
        proof {
            assert(out@ =~= start + s@.subrange(0, i as int));
        }
    }
    proof {
        assert(s@.subrange(0, s@.len() as int) =~= s@);
    }
}

/// ASCII whitespace as `u8::is_ascii_whitespace` defines it: space, tab, line feed, form
/// feed and carriage return.
pub open spec fn is_ws(b: u8) -> bool {
    b == 32u8 || b == 9u8 || b == 10u8 || b == 12u8 || b == 13u8
}

pub fn is_ws_exec(b: u8) -> (r: bool)
    ensures
        r == is_ws(b),
{
    b == 32u8 || b == 9u8 || b == 10u8 || b == 12u8 || b == 13u8
}

pub open spec fn is_digit(b: u8) -> bool {
    48u8 <= b <= 57u8
}

/// Whether every byte of `s` is ASCII whitespace.
pub open spec fn all_ws(s: Seq<u8>) -> bool {
    forall|i: int| 0 <= i < s.len() ==> is_ws(#[trigger] s[i])
}

pub fn all_ws_exec(s: &[u8]) -> (r: bool)
    ensures
        r == all_ws(s@),
{
    let mut i: usize = 0;
    while i < s.len()
        invariant
            i <= s@.len(),
            forall|j: int| 0 <= j < i ==> is_ws(#[trigger] s@[j]),
        decreases s@.len() - i,
    {
        if !is_ws_exec(s[i]) {
            return false;
        }
        i = i + 1;
    }
    true
}

/// `needle` occurs in `hay` at `i`.
pub open spec fn occurs_at(hay: Seq<u8>, needle: Seq<u8>, i: int) -> bool {
    0 <= i && i + needle.len() <= hay.len() && hay.subrange(i, i + needle.len()) == needle
}

/// The first position of `needle` in `hay`; `None` for an empty or over-long needle.
pub fn find_subslice(hay: &[u8], needle: &[u8]) -> (r: Option<usize>)
    ensures
        needle@.len() > 0 ==> (match r {
            Some(i) => first_occ(hay@, needle@, 0) == Some(i as int),
            None => first_occ(hay@, needle@, 0).is_none(),
        }),
        match r {
            Some(i) => needle@.len() > 0 && occurs_at(hay@, needle@, i as int) && forall|j: int|
                0 <= j < i ==> !occurs_at(hay@, needle@, j),
            None => needle@.len() == 0 || forall|j: int|
                0 <= j <= hay@.len() - needle@.len() ==> !occurs_at(hay@, needle@, j),
        },
{
    if needle.len() == 0 || needle.len() > hay.len() {
        proof {
            if needle@.len() > 0 {
                lemma_first_occ(hay@, needle@, 0);
            }
        }
        return None;
    }
    proof {
        lemma_first_occ(hay@, needle@, 0);
    }
    let last = hay.len() - needle.len();
    let mut i: usize = 0;
    while i <= last
        invariant
            last == hay@.len() - needle@.len(),
            hay@.len() == hay.len(),
            needle@.len() > 0,
            i <= last + 1,
            forall|j: int| 0 <= j < i ==> !occurs_at(hay@, needle@, j),
        decreases last + 1 - i,
    {
        let w = vstd::slice::slice_subrange(hay, i, i + needle.len());
        if bytes_eq(w, needle) {
            proof {
                assert(occurs_at(hay@, needle@, i as int));
                lemma_first_occ(hay@, needle@, 0);
            }
            return Some(i);
        }
        i = i + 1;
    }
    None
}

/// The last position of `needle` in `hay`; `None` for an empty or over-long needle.
pub fn find_last_subslice(hay: &[u8], needle: &[u8]) -> (r: Option<usize>)
    ensures
        needle@.len() > 0 ==> (match r {
            Some(i) => last_occ(hay@, needle@, hay@.len() as int) == Some(i as int),
            None => last_occ(hay@, needle@, hay@.len() as int).is_none(),
        }),
        match r {
            Some(i) => needle@.len() > 0 && occurs_at(hay@, needle@, i as int) && forall|j: int|
                i < j <= hay@.len() - needle@.len() ==> !occurs_at(hay@, needle@, j),
            None => needle@.len() == 0 || forall|j: int|
                0 <= j <= hay@.len() - needle@.len() ==> !occurs_at(hay@, needle@, j),
        },
{
    proof {
        if needle@.len() > 0 {
            lemma_last_occ(hay@, needle@, hay@.len() as int);
        }
    }
    if needle.len() == 0 || needle.len() > hay.len() {
        return None;
    }
    let mut i: usize = hay.len() - needle.len() + 1;
    while i > 0
        invariant
            needle@.len() > 0,
            needle@.len() <= hay@.len(),
            hay@.len() == hay.len(),
            i <= hay@.len() - needle@.len() + 1,
            forall|j: int| i <= j <= hay@.len() - needle@.len() ==> !occurs_at(hay@, needle@, j),
        decreases i,
    {
        let k = i - 1;
        let w = vstd::slice::slice_subrange(hay, k, k + needle.len());
        if bytes_eq(w, needle) {
            proof {
                assert(occurs_at(hay@, needle@, k as int));
                lemma_last_occ(hay@, needle@, hay@.len() as int);
                let c = last_occ(hay@, needle@, hay@.len() as int);
                if c.is_some() {
                    assert(c.unwrap() == k as int);
                }
            }
            return Some(k);
        }
        i = k;
    }
    None
}

/// The first occurrence of a non-empty `needle` in `hay` at or after `from`.
pub open spec fn first_occ(hay: Seq<u8>, needle: Seq<u8>, from: int) -> Option<int>
    decreases hay.len() - from,
{
    if from < 0 || needle.len() == 0 || from + needle.len() > hay.len() {
        None
    } else if occurs_at(hay, needle, from) {
        Some(from)
    } else {
        first_occ(hay, needle, from + 1)
    }
}

pub proof fn lemma_first_occ(hay: Seq<u8>, needle: Seq<u8>, from: int)
    requires
        0 <= from,
        needle.len() > 0,
    ensures
        match first_occ(hay, needle, from) {
            Some(i) => from <= i && occurs_at(hay, needle, i) && forall|j: int|
                from <= j < i ==> !occurs_at(hay, needle, j),
            None => forall|j: int| from <= j ==> !occurs_at(hay, needle, j),
        },
    decreases hay.len() - from,
{
    if from + needle.len() <= hay.len() && !occurs_at(hay, needle, from) {
        lemma_first_occ(hay, needle, from + 1);
    }
}

/// The last occurrence of a non-empty `needle` in `hay` starting before `to`.
pub open spec fn last_occ(hay: Seq<u8>, needle: Seq<u8>, to: int) -> Option<int>
    decreases to,
{
    if to <= 0 || needle.len() == 0 {
        None
    } else if occurs_at(hay, needle, to - 1) {
        Some(to - 1)
    } else {
        last_occ(hay, needle, to - 1)
    }
}

pub proof fn lemma_last_occ(hay: Seq<u8>, needle: Seq<u8>, to: int)
    requires
        needle.len() > 0,
    ensures
        match last_occ(hay, needle, to) {
            Some(i) => 0 <= i < to && occurs_at(hay, needle, i) && forall|j: int|
                i < j < to ==> !occurs_at(hay, needle, j),
            None => forall|j: int| 0 <= j < to ==> !occurs_at(hay, needle, j),
        },
    decreases to,
{
    if to > 0 && !occurs_at(hay, needle, to - 1) {
        lemma_last_occ(hay, needle, to - 1);
    }
}

/// The first position of byte `b` in `s`.
pub open spec fn first_of(s: Seq<u8>, b: u8) -> Option<int>
    decreases s.len(),
{
    if s.len() == 0 {
        None
    } else if s[0] == b {
        Some(0)
    } else {
        match first_of(s.drop_first(), b) {
            Some(i) => Some(i + 1),
            None => None,
        }
    }
}

pub proof fn lemma_first_of(s: Seq<u8>, b: u8)
    ensures
        match first_of(s, b) {
            Some(i) => 0 <= i < s.len() && s[i] == b && forall|j: int| 0 <= j < i ==> s[j] != b,
            None => forall|j: int| 0 <= j < s.len() ==> s[j] != b,
        },
    decreases s.len(),
{
    if s.len() > 0 && s[0] != b {
        lemma_first_of(s.drop_first(), b);
        match first_of(s.drop_first(), b) {
            Some(i) => {
                assert forall|j: int| 0 <= j < i + 1 implies s[j] != b by {
                    if j > 0 {
                        assert(s[j] == s.drop_first()[j - 1]);
                    }
                }
            },
            None => {
                assert forall|j: int| 0 <= j < s.len() implies s[j] != b by {
                    if j > 0 {
                        assert(s[j] == s.drop_first()[j - 1]);
                    }
                }
            },
        }
    }
}

pub proof fn lemma_first_of_unique(s: Seq<u8>, b: u8, i: int)
    requires
        0 <= i < s.len(),
        s[i] == b,
        forall|j: int| 0 <= j < i ==> s[j] != b,
    ensures
        first_of(s, b) == Some(i),
{
    lemma_first_of(s, b);
}

/// The first position of byte `b` in `s` at or after `from`.
pub fn find_byte_from(s: &[u8], b: u8, from: usize) -> (r: Option<usize>)
    requires
        from <= s@.len(),
    ensures
        match r {
            Some(i) => from <= i < s@.len() && s@[i as int] == b && forall|j: int|
                from <= j < i ==> s@[j] != b,
            None => forall|j: int| from <= j < s@.len() ==> s@[j] != b,
        },
{
    let mut i = from;
    while i < s.len()
        invariant
            from <= i <= s@.len(),
            forall|j: int| from <= j < i ==> s@[j] != b,
        decreases s@.len() - i,
    {
        if s[i] == b {
            return Some(i);
        }
        i = i + 1;
    }
    None
}

/// The decimal digits of `n`, most significant first, with no leading zeros.
pub open spec fn dec(n: nat) -> Seq<u8>
    decreases n,
{
    if n < 10 {
        seq![(48 + n) as u8]
    } else {
        dec(n / 10).push((48 + n % 10) as u8)
    }
}

/// Decimal digits are ASCII.
pub proof fn lemma_dec_digits(n: nat)
    ensures
        forall|i: int| 0 <= i < dec(n).len() ==> #[trigger] dec(n)[i] < 128,
    decreases n,
{
    if n >= 10 {
        lemma_dec_digits(n / 10);
        let d = dec(n / 10);
        assert forall|i: int| 0 <= i < dec(n).len() implies #[trigger] dec(n)[i] < 128 by {
            if i < d.len() {
                assert(dec(n)[i] == d[i]);
            }
        }
    }
}

/// The digits of 2^64 - 1 and of 2^64 differ only in the last one, a 5 against a 6.
pub proof fn lemma_dec_max()
    ensures
        dec(0xffff_ffff_ffff_ffffnat).len() == 20,
        dec(0x1_0000_0000_0000_0000nat) == dec(0xffff_ffff_ffff_ffffnat).update(19, 54u8),
{
    reveal_with_fuel(dec, 21);
    assert(dec(0x1_0000_0000_0000_0000nat) =~= dec(0xffff_ffff_ffff_ffffnat).update(19, 54u8));
}

/// `n` written in decimal, as `u64::to_string` writes it.
pub fn fmt_dec(n: u64) -> (r: Vec<u8>)
    ensures
        r@ == dec(n as nat),
    decreases n,
{
    if n < 10 {
        let mut v = Vec::new();
        v.push((48 + n) as u8);
        proof {
            assert(v@ =~= dec(n as nat));
        }
        v
    } else {
        let mut v = fmt_dec(n / 10);
        v.push((48 + n % 10) as u8);
        v
    }
}

/// Append `n` in decimal to `out`.
pub fn push_dec(out: &mut Vec<u8>, n: u64)
    ensures
        final(out)@ == old(out)@ + dec(n as nat),
{
    let d = fmt_dec(n);
    push_all(out, d.as_slice());
}

/// The bytes of `diff --git `.
pub open spec fn diff_git() -> Seq<u8> {
    seq![100u8, 105u8, 102u8, 102u8, 32u8, 45u8, 45u8, 103u8, 105u8, 116u8, 32u8]
}

/// `diff --git ` as a byte slice.
pub fn diff_git_bytes() -> (r: &'static [u8])
    ensures
        r@ == diff_git(),
{
    proof {
        reveal_strlit("diff --git ");
        vstd::string::is_ascii_spec_bytes("diff --git ");
    }
    let r = "diff --git ".as_bytes();
    proof {
        assert(r@ =~= diff_git());
    }
    r
}

/// The bytes of `--- `.
pub open spec fn minus3() -> Seq<u8> {
    seq![45u8, 45u8, 45u8, 32u8]
}

/// `--- ` as a byte slice.
pub fn minus3_bytes() -> (r: &'static [u8])
    ensures
        r@ == minus3(),
{
    proof {
        reveal_strlit("--- ");
        vstd::string::is_ascii_spec_bytes("--- ");
    }
    let r = "--- ".as_bytes();
    proof {
        assert(r@ =~= minus3());
    }
    r
}

/// The bytes of `+++ `.
pub open spec fn plus3() -> Seq<u8> {
    seq![43u8, 43u8, 43u8, 32u8]
}

/// `+++ ` as a byte slice.
pub fn plus3_bytes() -> (r: &'static [u8])
    ensures
        r@ == plus3(),
{
    proof {
        reveal_strlit("+++ ");
        vstd::string::is_ascii_spec_bytes("+++ ");
    }
    let r = "+++ ".as_bytes();
    proof {
        assert(r@ =~= plus3());
    }
    r
}

/// The bytes of `@@ `.
pub open spec fn at2() -> Seq<u8> {
    seq![64u8, 64u8, 32u8]
}

/// `@@ ` as a byte slice.
pub fn at2_bytes() -> (r: &'static [u8])
    ensures
        r@ == at2(),
{
    proof {
        reveal_strlit("@@ ");
        vstd::string::is_ascii_spec_bytes("@@ ");
    }
    let r = "@@ ".as_bytes();
    proof {
        assert(r@ =~= at2());
    }
    r
}

/// The bytes of `Binary files `.
pub open spec fn binary_files() -> Seq<u8> {
    seq![66u8, 105u8, 110u8, 97u8, 114u8, 121u8, 32u8, 102u8, 105u8, 108u8, 101u8, 115u8, 32u8]
}

/// `Binary files ` as a byte slice.
pub fn binary_files_bytes() -> (r: &'static [u8])
    ensures
        r@ == binary_files(),
{
    proof {
        reveal_strlit("Binary files ");
        vstd::string::is_ascii_spec_bytes("Binary files ");
    }
    let r = "Binary files ".as_bytes();
    proof {
        assert(r@ =~= binary_files());
    }
    r
}

/// The bytes of `diff --cc `.
pub open spec fn diff_cc() -> Seq<u8> {
    seq![100u8, 105u8, 102u8, 102u8, 32u8, 45u8, 45u8, 99u8, 99u8, 32u8]
}

/// `diff --cc ` as a byte slice.
pub fn diff_cc_bytes() -> (r: &'static [u8])
    ensures
        r@ == diff_cc(),
{
    proof {
        reveal_strlit("diff --cc ");
        vstd::string::is_ascii_spec_bytes("diff --cc ");
    }
    let r = "diff --cc ".as_bytes();
    proof {
        assert(r@ =~= diff_cc());
    }
    r
}

/// The bytes of `diff --combined `.
pub open spec fn diff_combined() -> Seq<u8> {
    seq![100u8, 105u8, 102u8, 102u8, 32u8, 45u8, 45u8, 99u8, 111u8, 109u8, 98u8, 105u8, 110u8, 101u8, 100u8, 32u8]
}

/// `diff --combined ` as a byte slice.
pub fn diff_combined_bytes() -> (r: &'static [u8])
    ensures
        r@ == diff_combined(),
{
    proof {
        reveal_strlit("diff --combined ");
        vstd::string::is_ascii_spec_bytes("diff --combined ");
    }
    let r = "diff --combined ".as_bytes();
    proof {
        assert(r@ =~= diff_combined());
    }
    r
}

/// The bytes of `@@@`.
pub open spec fn at3() -> Seq<u8> {
    seq![64u8, 64u8, 64u8]
}

/// `@@@` as a byte slice.
pub fn at3_bytes() -> (r: &'static [u8])
    ensures
        r@ == at3(),
{
    proof {
        reveal_strlit("@@@");
        vstd::string::is_ascii_spec_bytes("@@@");
    }
    let r = "@@@".as_bytes();
    proof {
        assert(r@ =~= at3());
    }
    r
}

/// The bytes of `rename from `.
pub open spec fn rename_from() -> Seq<u8> {
    seq![114u8, 101u8, 110u8, 97u8, 109u8, 101u8, 32u8, 102u8, 114u8, 111u8, 109u8, 32u8]
}

/// `rename from ` as a byte slice.
pub fn rename_from_bytes() -> (r: &'static [u8])
    ensures
        r@ == rename_from(),
{
    proof {
        reveal_strlit("rename from ");
        vstd::string::is_ascii_spec_bytes("rename from ");
    }
    let r = "rename from ".as_bytes();
    proof {
        assert(r@ =~= rename_from());
    }
    r
}

/// The bytes of `rename to `.
pub open spec fn rename_to() -> Seq<u8> {
    seq![114u8, 101u8, 110u8, 97u8, 109u8, 101u8, 32u8, 116u8, 111u8, 32u8]
}

/// `rename to ` as a byte slice.
pub fn rename_to_bytes() -> (r: &'static [u8])
    ensures
        r@ == rename_to(),
{
    proof {
        reveal_strlit("rename to ");
        vstd::string::is_ascii_spec_bytes("rename to ");
    }
    let r = "rename to ".as_bytes();
    proof {
        assert(r@ =~= rename_to());
    }
    r
}

/// The bytes of `copy from `.
pub open spec fn copy_from() -> Seq<u8> {
    seq![99u8, 111u8, 112u8, 121u8, 32u8, 102u8, 114u8, 111u8, 109u8, 32u8]
}

/// `copy from ` as a byte slice.
pub fn copy_from_bytes() -> (r: &'static [u8])
    ensures
        r@ == copy_from(),
{
    proof {
        reveal_strlit("copy from ");
        vstd::string::is_ascii_spec_bytes("copy from ");
    }
    let r = "copy from ".as_bytes();
    proof {
        assert(r@ =~= copy_from());
    }
    r
}

/// The bytes of `copy to `.
pub open spec fn copy_to() -> Seq<u8> {
    seq![99u8, 111u8, 112u8, 121u8, 32u8, 116u8, 111u8, 32u8]
}

/// `copy to ` as a byte slice.
pub fn copy_to_bytes() -> (r: &'static [u8])
    ensures
        r@ == copy_to(),
{
    proof {
        reveal_strlit("copy to ");
        vstd::string::is_ascii_spec_bytes("copy to ");
    }
    let r = "copy to ".as_bytes();
    proof {
        assert(r@ =~= copy_to());
    }
    r
}

/// The bytes of `index `.
pub open spec fn index_h() -> Seq<u8> {
    seq![105u8, 110u8, 100u8, 101u8, 120u8, 32u8]
}

/// `index ` as a byte slice.
pub fn index_h_bytes() -> (r: &'static [u8])
    ensures
        r@ == index_h(),
{
    proof {
        reveal_strlit("index ");
        vstd::string::is_ascii_spec_bytes("index ");
    }
    let r = "index ".as_bytes();
    proof {
        assert(r@ =~= index_h());
    }
    r
}

/// The bytes of `similarity index `.
pub open spec fn similarity() -> Seq<u8> {
    seq![115u8, 105u8, 109u8, 105u8, 108u8, 97u8, 114u8, 105u8, 116u8, 121u8, 32u8, 105u8, 110u8, 100u8, 101u8, 120u8, 32u8]
}

/// `similarity index ` as a byte slice.
pub fn similarity_bytes() -> (r: &'static [u8])
    ensures
        r@ == similarity(),
{
    proof {
        reveal_strlit("similarity index ");
        vstd::string::is_ascii_spec_bytes("similarity index ");
    }
    let r = "similarity index ".as_bytes();
    proof {
        assert(r@ =~= similarity());
    }
    r
}

/// The bytes of `dissimilarity index `.
pub open spec fn dissimilarity() -> Seq<u8> {
    seq![100u8, 105u8, 115u8, 115u8, 105u8, 109u8, 105u8, 108u8, 97u8, 114u8, 105u8, 116u8, 121u8, 32u8, 105u8, 110u8, 100u8, 101u8, 120u8, 32u8]
}

/// `dissimilarity index ` as a byte slice.
pub fn dissimilarity_bytes() -> (r: &'static [u8])
    ensures
        r@ == dissimilarity(),
{
    proof {
        reveal_strlit("dissimilarity index ");
        vstd::string::is_ascii_spec_bytes("dissimilarity index ");
    }
    let r = "dissimilarity index ".as_bytes();
    proof {
        assert(r@ =~= dissimilarity());
    }
    r
}

/// The bytes of `new file mode `.
pub open spec fn new_file_mode() -> Seq<u8> {
    seq![110u8, 101u8, 119u8, 32u8, 102u8, 105u8, 108u8, 101u8, 32u8, 109u8, 111u8, 100u8, 101u8, 32u8]
}

/// `new file mode ` as a byte slice.
pub fn new_file_mode_bytes() -> (r: &'static [u8])
    ensures
        r@ == new_file_mode(),
{
    proof {
        reveal_strlit("new file mode ");
        vstd::string::is_ascii_spec_bytes("new file mode ");
    }
    let r = "new file mode ".as_bytes();
    proof {
        assert(r@ =~= new_file_mode());
    }
    r
}

/// The bytes of `deleted file mode `.
pub open spec fn deleted_file_mode() -> Seq<u8> {
    seq![100u8, 101u8, 108u8, 101u8, 116u8, 101u8, 100u8, 32u8, 102u8, 105u8, 108u8, 101u8, 32u8, 109u8, 111u8, 100u8, 101u8, 32u8]
}

/// `deleted file mode ` as a byte slice.
pub fn deleted_file_mode_bytes() -> (r: &'static [u8])
    ensures
        r@ == deleted_file_mode(),
{
    proof {
        reveal_strlit("deleted file mode ");
        vstd::string::is_ascii_spec_bytes("deleted file mode ");
    }
    let r = "deleted file mode ".as_bytes();
    proof {
        assert(r@ =~= deleted_file_mode());
    }
    r
}

/// The bytes of `old mode `.
pub open spec fn old_mode() -> Seq<u8> {
    seq![111u8, 108u8, 100u8, 32u8, 109u8, 111u8, 100u8, 101u8, 32u8]
}

/// `old mode ` as a byte slice.
pub fn old_mode_bytes() -> (r: &'static [u8])
    ensures
        r@ == old_mode(),
{
    proof {
        reveal_strlit("old mode ");
        vstd::string::is_ascii_spec_bytes("old mode ");
    }
    let r = "old mode ".as_bytes();
    proof {
        assert(r@ =~= old_mode());
    }
    r
}

/// The bytes of `new mode `.
pub open spec fn new_mode() -> Seq<u8> {
    seq![110u8, 101u8, 119u8, 32u8, 109u8, 111u8, 100u8, 101u8, 32u8]
}

/// `new mode ` as a byte slice.
pub fn new_mode_bytes() -> (r: &'static [u8])
    ensures
        r@ == new_mode(),
{
    proof {
        reveal_strlit("new mode ");
        vstd::string::is_ascii_spec_bytes("new mode ");
    }
    let r = "new mode ".as_bytes();
    proof {
        assert(r@ =~= new_mode());
    }
    r
}

/// The bytes of `GIT binary patch`.
pub open spec fn git_binary_patch() -> Seq<u8> {
    seq![71u8, 73u8, 84u8, 32u8, 98u8, 105u8, 110u8, 97u8, 114u8, 121u8, 32u8, 112u8, 97u8, 116u8, 99u8, 104u8]
}

/// `GIT binary patch` as a byte slice.
pub fn git_binary_patch_bytes() -> (r: &'static [u8])
    ensures
        r@ == git_binary_patch(),
{
    proof {
        reveal_strlit("GIT binary patch");
        vstd::string::is_ascii_spec_bytes("GIT binary patch");
    }
    let r = "GIT binary patch".as_bytes();
    proof {
        assert(r@ =~= git_binary_patch());
    }
    r
}

/// The bytes of ` @@`.
pub open spec fn space_at2() -> Seq<u8> {
    seq![32u8, 64u8, 64u8]
}

/// ` @@` as a byte slice.
pub fn space_at2_bytes() -> (r: &'static [u8])
    ensures
        r@ == space_at2(),
{
    proof {
        reveal_strlit(" @@");
        vstd::string::is_ascii_spec_bytes(" @@");
    }
    let r = " @@".as_bytes();
    proof {
        assert(r@ =~= space_at2());
    }
    r
}

/// The bytes of `a/`.
pub open spec fn a_slash() -> Seq<u8> {
    seq![97u8, 47u8]
}

/// `a/` as a byte slice.
pub fn a_slash_bytes() -> (r: &'static [u8])
    ensures
        r@ == a_slash(),
{
    proof {
        reveal_strlit("a/");
        vstd::string::is_ascii_spec_bytes("a/");
    }
    let r = "a/".as_bytes();
    proof {
        assert(r@ =~= a_slash());
    }
    r
}

/// The bytes of `b/`.
pub open spec fn b_slash() -> Seq<u8> {
    seq![98u8, 47u8]
}

/// `b/` as a byte slice.
pub fn b_slash_bytes() -> (r: &'static [u8])
    ensures
        r@ == b_slash(),
{
    proof {
        reveal_strlit("b/");
        vstd::string::is_ascii_spec_bytes("b/");
    }
    let r = "b/".as_bytes();
    proof {
        assert(r@ =~= b_slash());
    }
    r
}

/// The bytes of ` b/`.
pub open spec fn space_b_slash() -> Seq<u8> {
    seq![32u8, 98u8, 47u8]
}

/// ` b/` as a byte slice.
pub fn space_b_slash_bytes() -> (r: &'static [u8])
    ensures
        r@ == space_b_slash(),
{
    proof {
        reveal_strlit(" b/");
        vstd::string::is_ascii_spec_bytes(" b/");
    }
    let r = " b/".as_bytes();
    proof {
        assert(r@ =~= space_b_slash());
    }
    r
}

/// The bytes of `/dev/null`.
pub open spec fn dev_null_lit() -> Seq<u8> {
    seq![47u8, 100u8, 101u8, 118u8, 47u8, 110u8, 117u8, 108u8, 108u8]
}

/// `/dev/null` as a byte slice.
pub fn dev_null_lit_bytes() -> (r: &'static [u8])
    ensures
        r@ == dev_null_lit(),
{
    proof {
        reveal_strlit("/dev/null");
        vstd::string::is_ascii_spec_bytes("/dev/null");
    }
    let r = "/dev/null".as_bytes();
    proof {
        assert(r@ =~= dev_null_lit());
    }
    r
}

/// The bytes of `deleted file mode`.
pub open spec fn deleted_file_mode_bare() -> Seq<u8> {
    seq![100u8, 101u8, 108u8, 101u8, 116u8, 101u8, 100u8, 32u8, 102u8, 105u8, 108u8, 101u8, 32u8, 109u8, 111u8, 100u8, 101u8]
}

/// `deleted file mode` as a byte slice.
pub fn deleted_file_mode_bare_bytes() -> (r: &'static [u8])
    ensures
        r@ == deleted_file_mode_bare(),
{
    proof {
        reveal_strlit("deleted file mode");
        vstd::string::is_ascii_spec_bytes("deleted file mode");
    }
    let r = "deleted file mode".as_bytes();
    proof {
        assert(r@ =~= deleted_file_mode_bare());
    }
    r
}

/// The bytes of `@@ -`.
pub open spec fn at2_minus() -> Seq<u8> {
    seq![64u8, 64u8, 32u8, 45u8]
}

/// `@@ -` as a byte slice.
pub fn at2_minus_bytes() -> (r: &'static [u8])
    ensures
        r@ == at2_minus(),
{
    proof {
        reveal_strlit("@@ -");
        vstd::string::is_ascii_spec_bytes("@@ -");
    }
    let r = "@@ -".as_bytes();
    proof {
        assert(r@ =~= at2_minus());
    }
    r
}

/// The bytes of ` +`.
pub open spec fn space_plus() -> Seq<u8> {
    seq![32u8, 43u8]
}

/// ` +` as a byte slice.
pub fn space_plus_bytes() -> (r: &'static [u8])
    ensures
        r@ == space_plus(),
{
    proof {
        reveal_strlit(" +");
        vstd::string::is_ascii_spec_bytes(" +");
    }
    let r = " +".as_bytes();
    proof {
        assert(r@ =~= space_plus());
    }
    r
}

} // verus!
