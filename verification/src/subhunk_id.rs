//! Content ids of sub-hunks: a 64-bit FNV-1a hash of a file's paths and a sub-hunk's changed
//! lines, written as 16 lowercase hex digits.
//!
//! FNV-1a gives a fixed, portable hash: an id must come out the same in every run and on every
//! platform, since one invocation lists it and a later one selects by it. Accidental collisions
//! between distinct sub-hunks are caught by comparing content at selection time.

use vstd::prelude::*;

use crate::model::{changed_of, FileDiff, FileV, Hunk, HunkV, LineKind, LineV};

verus! {

/// The FNV-1a offset basis.
pub const FNV_OFFSET: u64 = 0xcbf2_9ce4_8422_2325;

/// The FNV-1a prime.
pub const FNV_PRIME: u64 = 0x0000_0100_0000_01b3;

/// One FNV-1a step: fold byte `b` into the state `h`.
pub open spec fn fnv_step(h: u64, b: u8) -> u64 {
    (h ^ (b as u64)).wrapping_mul(FNV_PRIME)
}

/// The FNV-1a state after folding `bytes` into `h`, in order.
pub open spec fn fnv_fold(h: u64, bytes: Seq<u8>) -> u64
    decreases bytes.len(),
{
    if bytes.len() == 0 {
        h
    } else {
        fnv_step(fnv_fold(h, bytes.drop_last()), bytes.last())
    }
}

/// Folding two byte strings one after the other is folding their concatenation.
pub proof fn lemma_fnv_concat(h: u64, a: Seq<u8>, b: Seq<u8>)
    ensures
        fnv_fold(h, a + b) == fnv_fold(fnv_fold(h, a), b),
    decreases b.len(),
{
    if b.len() == 0 {
        assert(a + b =~= a);
    } else {
        lemma_fnv_concat(h, a, b.drop_last());
        assert((a + b).drop_last() =~= a + b.drop_last());
    }
}

/// A path as hashed: its bytes, or nothing when there is none.
pub open spec fn path_bytes(p: Option<Seq<u8>>) -> Seq<u8> {
    match p {
        Some(b) => b,
        None => Seq::empty(),
    }
}

/// The marker byte of a changed line.
pub open spec fn change_marker(k: LineKind) -> u8 {
    if k == LineKind::Add {
        '+' as u8
    } else {
        '-' as u8
    }
}

/// What one changed line contributes: its marker, its text, a NUL, and whether it carries the
/// no-newline marker.
pub open spec fn changed_line_bytes(l: LineV) -> Seq<u8> {
    seq![change_marker(l.kind)] + l.text + seq![
        0u8,
        if l.no_newline is Some {
            1u8
        } else {
            0u8
        },
    ]
}

/// What a sequence of changed lines contributes, in order.
pub open spec fn changed_bytes(cs: Seq<LineV>) -> Seq<u8>
    decreases cs.len(),
{
    if cs.len() == 0 {
        Seq::empty()
    } else {
        changed_bytes(cs.drop_last()) + changed_line_bytes(cs.last())
    }
}

/// The bytes that define a sub-hunk's identity: the new path, the old path, and the changed
/// lines, each variable-length field closed by a NUL so adjacent fields cannot run together.
/// Context lines, line numbers and the section header take no part.
pub open spec fn id_bytes(f: FileV, h: HunkV) -> Seq<u8> {
    path_bytes(f.new_path) + seq![0u8] + path_bytes(f.old_path) + seq![0u8] + changed_bytes(
        changed_of(h.lines),
    )
}

/// The content hash of sub-hunk `h` of file entry `f`.
pub open spec fn subhunk_hash_spec(f: FileV, h: HunkV) -> u64 {
    fnv_fold(FNV_OFFSET, id_bytes(f, h))
}

/// The lowercase hex digit for `d` (below 16).
pub open spec fn hex_digit(d: nat) -> u8 {
    if d < 10 {
        (48 + d) as u8
    } else {
        (87 + d) as u8
    }
}

/// The last `k` hex digits of `n`, most significant first.
pub open spec fn hex_bytes(n: nat, k: nat) -> Seq<u8>
    decreases k,
{
    if k == 0 {
        Seq::empty()
    } else {
        hex_bytes(n / 16, (k - 1) as nat).push(hex_digit(n % 16))
    }
}

/// The id text of a hash: its 16 lowercase hex digits.
pub open spec fn id_text(h: u64) -> Seq<char> {
    hex_bytes(h as nat, 16).map_values(|b: u8| b as char)
}

/// An FNV-1a hash being computed.
struct Fnv1a(u64);

impl Fnv1a {
    fn new() -> (r: Fnv1a)
        ensures
            r.0 == FNV_OFFSET,
    {
        Fnv1a(FNV_OFFSET)
    }

    fn write(&mut self, bytes: &[u8])
        ensures
            final(self).0 == fnv_fold(old(self).0, bytes@),
    {
        let ghost start = self.0;
        let mut i: usize = 0;
        while i < bytes.len()
            invariant
                i <= bytes@.len(),
                self.0 == fnv_fold(start, bytes@.subrange(0, i as int)),
            decreases bytes@.len() - i,
        {
            proof {
                assert(bytes@.subrange(0, i + 1).drop_last() =~= bytes@.subrange(0, i as int));
            }
            let b = bytes[i];
            self.0 = (self.0 ^ (b as u64)).wrapping_mul(FNV_PRIME);
            i = i + 1;
        }
        proof {
            assert(bytes@.subrange(0, bytes@.len() as int) =~= bytes@);
        }
    }

    fn write_u8(&mut self, b: u8)
        ensures
            final(self).0 == fnv_fold(old(self).0, seq![b]),
    {
        proof {
            assert(seq![b].drop_last() =~= Seq::<u8>::empty());
            assert(fnv_fold(self.0, Seq::<u8>::empty()) == self.0);
            assert(seq![b].last() == b);
        }
        self.0 = (self.0 ^ (b as u64)).wrapping_mul(FNV_PRIME);
    }
}

/// The bytes of an optional path, or none.
fn path_or_empty(p: &Option<Vec<u8>>) -> (r: &[u8])
    ensures
        r@ == path_bytes(crate::model::opt_bytes(*p)),
{
    match p {
        Some(b) => b.as_slice(),
        None => &[],
    }
}

/// Feed the identity-defining bytes of sub-hunk `sub` of `file` into `h`.
fn feed(h: &mut Fnv1a, file: &FileDiff, sub: &Hunk)
    ensures
        final(h).0 == fnv_fold(old(h).0, id_bytes(file@, sub@)),
{
    let ghost start = h.0;
    let ghost head = path_bytes(file@.new_path) + seq![0u8] + path_bytes(file@.old_path) + seq![
        0u8,
    ];
    h.write(path_or_empty(&file.new_path));
    h.write_u8(0);
    h.write(path_or_empty(&file.old_path));
    h.write_u8(0);
    proof {
        lemma_fnv_concat(start, path_bytes(file@.new_path), seq![0u8]);
        lemma_fnv_concat(start, path_bytes(file@.new_path) + seq![0u8], path_bytes(file@.old_path));
        lemma_fnv_concat(
            start,
            path_bytes(file@.new_path) + seq![0u8] + path_bytes(file@.old_path),
            seq![0u8],
        );
        assert(h.0 == fnv_fold(start, head));
    }
    let changed = sub.changed_lines();
    let ghost cs = changed_of(sub@.lines);
    proof {
        crate::model::lemma_changed_of_kinds(sub@.lines);
    }
    let mut i: usize = 0;
    while i < changed.len()
        invariant
            changed@.len() == cs.len(),
            forall|j: int| 0 <= j < changed@.len() ==> (#[trigger] changed@[j]).1@ == cs[j],
            forall|j: int| 0 <= j < cs.len() ==> (#[trigger] cs[j]).kind != LineKind::Context,
            i <= cs.len(),
            h.0 == fnv_fold(start, head + changed_bytes(cs.subrange(0, i as int))),
        decreases cs.len() - i,
    {
        let l = changed[i].1;
        let ghost before = h.0;
        let marker: u8 = if l.kind == LineKind::Add {
            43
        } else {
            45
        };
        h.write_u8(marker);
        h.write(l.text.as_slice());
        h.write_u8(0);
        let nn: u8 = if l.no_newline.is_some() {
            1
        } else {
            0
        };
        h.write_u8(nn);
        proof {
            let lv = cs[i as int];
            assert(l@ == lv);
            lemma_fnv_concat(before, seq![marker], lv.text);
            lemma_fnv_concat(before, seq![marker] + lv.text, seq![0u8]);
            lemma_fnv_concat(before, seq![marker] + lv.text + seq![0u8], seq![nn]);
            assert(seq![marker] + lv.text + seq![0u8] + seq![nn] =~= changed_line_bytes(lv));
            assert(h.0 == fnv_fold(before, changed_line_bytes(lv)));
            let prev = head + changed_bytes(cs.subrange(0, i as int));
            lemma_fnv_concat(start, prev, changed_line_bytes(lv));
            assert(cs.subrange(0, i + 1).drop_last() =~= cs.subrange(0, i as int));
            assert(prev + changed_line_bytes(lv) =~= head + changed_bytes(cs.subrange(0, i + 1)));
        }
        i = i + 1;
    }
    proof {
        assert(cs.subrange(0, cs.len() as int) =~= cs);
        assert(head + changed_bytes(cs) =~= id_bytes(file@, sub@));
    }
}

/// The 64-bit content hash of a sub-hunk, the value behind [`subhunk_id`].
pub fn subhunk_hash(file: &FileDiff, sub: &Hunk) -> (r: u64)
    ensures
        r == subhunk_hash_spec(file@, sub@),
{
    let mut h = Fnv1a::new();
    feed(&mut h, file, sub);
    h.0
}

/// Append the last `k` hex digits of `n` to `out`, most significant first.
fn push_hex(out: &mut Vec<u8>, n: u64, k: usize)
    ensures
        final(out)@ == old(out)@ + hex_bytes(n as nat, k as nat),
    decreases k,
{
    if k > 0 {
        push_hex(out, n / 16, k - 1);
        let d = n % 16;
        let c: u8 = if d < 10 {
            48 + d as u8
        } else {
            87 + d as u8
        };
        proof {
            assert(c == hex_digit((n as nat) % 16));
        }
        let ghost before = out@;
        out.push(c);
        proof {
            assert(out@ =~= old(out)@ + hex_bytes(n as nat, k as nat));
        }
    }
}

proof fn lemma_hex_ascii(n: nat, k: nat)
    ensures
        hex_bytes(n, k).len() == k,
        forall|i: int| 0 <= i < k ==> #[trigger] hex_bytes(n, k)[i] < 128,
    decreases k,
{
    if k > 0 {
        lemma_hex_ascii(n / 16, (k - 1) as nat);
    }
}

/// The text of a content id: the 16 lowercase hex digits of `h`.
pub fn format_id(h: u64) -> (r: String)
    ensures
        r@ == id_text(h),
{
    let mut out: Vec<u8> = Vec::new();
    push_hex(&mut out, h, 16);
    proof {
        let chars = id_text(h);
        lemma_hex_ascii(h as nat, 16);
        assert(out@ =~= hex_bytes(h as nat, 16));
        assert(vstd::utf8::is_ascii_chars(chars));
        vstd::utf8::is_ascii_chars_encode_utf8(chars);
        assert(out@ =~= vstd::utf8::encode_utf8(chars));
        vstd::utf8::encode_utf8_valid_utf8(chars);
        vstd::utf8::encode_utf8_decode_utf8(chars);
    }
    crate::text::lossy_string(out.as_slice())
}

/// The stable content id of a sub-hunk: its hash as 16 lowercase hex digits. It is a function
/// of the file's paths and the sub-hunk's changed lines (kind, bytes, no-newline marker) only:
/// the same change keeps its id when its line numbers shift or its context changes.
pub fn subhunk_id(file: &FileDiff, sub: &Hunk) -> (r: String)
    ensures
        r@ == id_text(subhunk_hash_spec(file@, sub@)),
{
    format_id(subhunk_hash(file, sub))
}

/// The content id depends on nothing but the file's paths and the sub-hunk's changed lines:
/// two sub-hunks that agree on those share their hash, whatever their line numbers, section
/// headers or context lines.
pub proof fn lemma_id_depends_on_changes_only(f1: FileV, h1: HunkV, f2: FileV, h2: HunkV)
    requires
        f1.new_path == f2.new_path,
        f1.old_path == f2.old_path,
        changed_of(h1.lines) == changed_of(h2.lines),
    ensures
        subhunk_hash_spec(f1, h1) == subhunk_hash_spec(f2, h2),
{
}

/// What an id keeps of a changed line: whether it adds or deletes, its text, and whether it
/// carries the no-newline marker.
pub open spec fn change_key(l: LineV) -> (LineKind, Seq<u8>, bool) {
    (l.kind, l.text, l.no_newline is Some)
}

/// Changed lines as an id sees them: additions and deletions whose text holds no NUL byte, as
/// in every diff the input check lets through.
pub open spec fn plain_changes(cs: Seq<LineV>) -> bool {
    forall|i: int|
        0 <= i < cs.len() ==> (#[trigger] cs[i]).kind != LineKind::Context && forall|j: int|
            0 <= j < cs[i].text.len() ==> cs[i].text[j] != 0u8
}

proof fn lemma_changed_bytes_front(l: LineV, rest: Seq<LineV>)
    ensures
        changed_bytes(seq![l] + rest) == changed_line_bytes(l) + changed_bytes(rest),
    decreases rest.len(),
{
    if rest.len() == 0 {
        assert(seq![l] + rest =~= seq![l]);
        assert(seq![l].drop_last() =~= Seq::<LineV>::empty());
        assert(seq![l].last() == l);
        assert(changed_bytes(Seq::<LineV>::empty()) == Seq::<u8>::empty());
        assert(changed_bytes(seq![l]) == changed_bytes(seq![l].drop_last()) + changed_line_bytes(
            seq![l].last(),
        ));
        assert(changed_line_bytes(l) + changed_bytes(rest) =~= changed_line_bytes(l));
        assert(Seq::<u8>::empty() + changed_line_bytes(l) =~= changed_line_bytes(l));
    } else {
        lemma_changed_bytes_front(l, rest.drop_last());
        assert((seq![l] + rest).drop_last() =~= seq![l] + rest.drop_last());
        assert((seq![l] + rest).last() == rest.last());
        assert(changed_line_bytes(l) + changed_bytes(rest) =~= (changed_line_bytes(l)
            + changed_bytes(rest.drop_last())) + changed_line_bytes(rest.last()));
    }
}

proof fn lemma_changed_bytes_len(cs: Seq<LineV>)
    ensures
        cs.len() > 0 ==> changed_bytes(cs).len() >= 3,
    decreases cs.len(),
{
    if cs.len() > 0 {
        lemma_changed_bytes_len(cs.drop_last());
    }
}

/// Two changed lines whose bytes open two equal byte strings are the same line as an id sees
/// it, and the rest of the strings are equal too.
proof fn lemma_line_bytes_split(x: LineV, y: LineV, r1: Seq<u8>, r2: Seq<u8>)
    requires
        x.kind != LineKind::Context,
        y.kind != LineKind::Context,
        forall|j: int| 0 <= j < x.text.len() ==> x.text[j] != 0u8,
        forall|j: int| 0 <= j < y.text.len() ==> y.text[j] != 0u8,
        changed_line_bytes(x) + r1 == changed_line_bytes(y) + r2,
    ensures
        change_key(x) == change_key(y),
        r1 == r2,
{
    let a = changed_line_bytes(x) + r1;
    let b = changed_line_bytes(y) + r2;
    let nx = x.text.len() as int;
    let ny = y.text.len() as int;
    assert(a[0] == change_marker(x.kind));
    assert(b[0] == change_marker(y.kind));
    assert(x.kind == y.kind);
    if nx < ny {
        assert(a[1 + nx] == 0u8);
        assert(b[1 + nx] == y.text[nx]);
    }
    if ny < nx {
        assert(b[1 + ny] == 0u8);
        assert(a[1 + ny] == x.text[ny]);
    }
    assert(nx == ny);
    assert forall|j: int| 0 <= j < nx implies x.text[j] == y.text[j] by {
        assert(a[1 + j] == x.text[j]);
        assert(b[1 + j] == y.text[j]);
    }
    assert(x.text =~= y.text);
    let fx: u8 = if x.no_newline is Some { 1u8 } else { 0u8 };
    let fy: u8 = if y.no_newline is Some { 1u8 } else { 0u8 };
    assert(changed_line_bytes(x) == seq![change_marker(x.kind)] + x.text + seq![0u8, fx]);
    assert(changed_line_bytes(y) == seq![change_marker(y.kind)] + y.text + seq![0u8, fy]);
    assert(a[2 + nx] == fx);
    assert(b[2 + nx] == fy);
    assert((x.no_newline is Some) == (y.no_newline is Some));
    assert(changed_line_bytes(x) == changed_line_bytes(y));
    let m = changed_line_bytes(x).len() as int;
    assert(r1 =~= a.subrange(m, a.len() as int));
    assert(r2 =~= b.subrange(m, b.len() as int));
}

/// The bytes of a run of changed lines give the lines back, as an id sees them.
proof fn lemma_changed_bytes_injective(a: Seq<LineV>, b: Seq<LineV>)
    requires
        plain_changes(a),
        plain_changes(b),
        changed_bytes(a) == changed_bytes(b),
    ensures
        a.map_values(|l: LineV| change_key(l)) == b.map_values(|l: LineV| change_key(l)),
    decreases a.len(),
{
    lemma_changed_bytes_len(a);
    lemma_changed_bytes_len(b);
    if a.len() == 0 || b.len() == 0 {
        assert(a.len() == 0 && b.len() == 0);
        assert(a.map_values(|l: LineV| change_key(l)) =~= b.map_values(|l: LineV| change_key(l)));
    } else {
        let x = a[0];
        let y = b[0];
        let ar = a.drop_first();
        let br = b.drop_first();
        assert(a =~= seq![x] + ar);
        assert(b =~= seq![y] + br);
        lemma_changed_bytes_front(x, ar);
        lemma_changed_bytes_front(y, br);
        assert(x.kind != LineKind::Context && y.kind != LineKind::Context);
        assert(forall|j: int| 0 <= j < x.text.len() ==> x.text[j] != 0u8);
        assert(forall|j: int| 0 <= j < y.text.len() ==> y.text[j] != 0u8);
        lemma_line_bytes_split(x, y, changed_bytes(ar), changed_bytes(br));
        assert(plain_changes(ar)) by {
            assert forall|i: int| 0 <= i < ar.len() implies (#[trigger] ar[i]).kind
                != LineKind::Context && forall|j: int| 0 <= j < ar[i].text.len() ==> ar[i].text[j]
                != 0u8 by {
                assert(ar[i] == a[i + 1]);
            }
        }
        assert(plain_changes(br)) by {
            assert forall|i: int| 0 <= i < br.len() implies (#[trigger] br[i]).kind
                != LineKind::Context && forall|j: int| 0 <= j < br[i].text.len() ==> br[i].text[j]
                != 0u8 by {
                assert(br[i] == b[i + 1]);
            }
        }
        lemma_changed_bytes_injective(ar, br);
        let ka = a.map_values(|l: LineV| change_key(l));
        let kb = b.map_values(|l: LineV| change_key(l));
        assert(ar.map_values(|l: LineV| change_key(l)).len() == br.map_values(|l: LineV| change_key(l)).len());
        assert(ka.len() == kb.len());
        assert forall|i: int| 0 <= i < ka.len() implies ka[i] == kb[i] by {
            if i == 0 {
                assert(ka[0] == change_key(x));
                assert(kb[0] == change_key(y));
            } else {
                assert(ar.map_values(|l: LineV| change_key(l))[i - 1] == ka[i]);
                assert(br.map_values(|l: LineV| change_key(l))[i - 1] == kb[i]);
            }
        }
        assert(ka =~= kb);
    }
}

/// The changed lines of a body are additions and deletions.
proof fn lemma_changed_of_changes(lines: Seq<LineV>)
    requires
        forall|i: int|
            0 <= i < lines.len() ==> forall|j: int|
                0 <= j < (#[trigger] lines[i]).text.len() ==> lines[i].text[j] != 0u8,
    ensures
        plain_changes(changed_of(lines)),
    decreases lines.len(),
{
    if lines.len() > 0 {
        let d = lines.drop_last();
        assert forall|i: int| 0 <= i < d.len() implies forall|j: int|
            0 <= j < (#[trigger] d[i]).text.len() ==> d[i].text[j] != 0u8 by {
            assert(d[i] == lines[i]);
        }
        lemma_changed_of_changes(d);
        let c = changed_of(lines);
        let cd = changed_of(d);
        assert(lines.last() == lines[lines.len() - 1]);
        assert forall|i: int| 0 <= i < c.len() implies (#[trigger] c[i]).kind != LineKind::Context
            && forall|j: int| 0 <= j < c[i].text.len() ==> c[i].text[j] != 0u8 by {
            if i < cd.len() {
                assert(c[i] == cd[i]);
            }
        }
    }
}

/// The bytes an id hashes hold every changed line whole, deletions included: two sub-hunks of
/// one entry whose ids are made of the same bytes have the same changed lines, in order, each
/// with its kind, its full text and its no-newline marker. Shown for bodies without NUL bytes,
/// as every diff the input check lets through has.
pub proof fn lemma_id_bytes_determine_the_changes(f: FileV, h1: HunkV, h2: HunkV)
    requires
        forall|i: int|
            0 <= i < h1.lines.len() ==> forall|j: int|
                0 <= j < (#[trigger] h1.lines[i]).text.len() ==> h1.lines[i].text[j] != 0u8,
        forall|i: int|
            0 <= i < h2.lines.len() ==> forall|j: int|
                0 <= j < (#[trigger] h2.lines[i]).text.len() ==> h2.lines[i].text[j] != 0u8,
        id_bytes(f, h1) == id_bytes(f, h2),
    ensures
        changed_of(h1.lines).map_values(|l: LineV| change_key(l)) == changed_of(h2.lines).map_values(
            |l: LineV| change_key(l),
        ),
{
    let pre = path_bytes(f.new_path) + seq![0u8] + path_bytes(f.old_path) + seq![0u8];
    let c1 = changed_bytes(changed_of(h1.lines));
    let c2 = changed_bytes(changed_of(h2.lines));
    assert(id_bytes(f, h1) == pre + c1);
    assert(id_bytes(f, h2) == pre + c2);
    assert(c1 =~= (pre + c1).subrange(pre.len() as int, (pre + c1).len() as int));
    assert(c2 =~= (pre + c2).subrange(pre.len() as int, (pre + c2).len() as int));
    lemma_changed_of_changes(h1.lines);
    lemma_changed_of_changes(h2.lines);
    lemma_changed_bytes_injective(changed_of(h1.lines), changed_of(h2.lines));
}

} // verus!
