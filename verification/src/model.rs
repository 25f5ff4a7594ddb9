//! The data model of a parsed diff: a patch, its file entries, their hunks and body lines.

use vstd::prelude::*;

verus! {

/// What one body line of a hunk does to the file.
#[derive(Clone, Copy, Debug, PartialEq, Eq, Structural)]
pub enum LineKind {
    /// Unchanged line, present on both sides (` ` marker).
    Context,
    /// Line the diff adds (`+` marker).
    Add,
    /// Line the diff removes (`-` marker).
    Del,
}

/// One body line of a hunk.
#[derive(Clone, Debug, PartialEq, Eq)]
pub struct Line {
    /// Whether the line is context, an addition or a deletion.
    pub kind: LineKind,
    /// Content without the leading marker and without the trailing newline (a trailing CR of
    /// a CRLF diff is kept). Raw bytes, so any encoding round-trips.
    pub text: Vec<u8>,
    /// The `\ No newline at end of file` marker line that follows this line, verbatim and
    /// without its line ending; `None` when the line ends normally.
    pub no_newline: Option<Vec<u8>>,
}

/// One hunk: the `@@ -old_start,old_lines +new_start,new_lines @@ section` header and its body.
#[derive(Clone, Debug, PartialEq, Eq)]
pub struct Hunk {
    /// First line of the hunk on the old side.
    pub old_start: u32,
    /// How many old-side lines the hunk covers (context and deletions).
    pub old_lines: u32,
    /// First line of the hunk on the new side.
    pub new_start: u32,
    /// How many new-side lines the hunk covers (context and additions).
    pub new_lines: u32,
    /// Text after the second `@@` of the header, without the separating space. May be empty.
    pub section: Vec<u8>,
    /// Body lines in file order.
    pub lines: Vec<Line>,
}

/// The body of one file entry: hunks for a text file, raw lines for a binary one.
#[derive(Clone, Debug, PartialEq, Eq)]
pub enum FileContent {
    /// Hunks of a text file, in file order.
    Text(Vec<Hunk>),
    /// Binary patch body lines, verbatim, without their newline.
    Binary(Vec<Vec<u8>>),
}

/// One file entry of a diff: its header lines, its paths and its body.
#[derive(Clone, Debug, PartialEq, Eq)]
pub struct FileDiff {
    /// Raw header lines before the first hunk, verbatim, without their newline.
    pub headers: Vec<Vec<u8>>,
    /// Raw lines that follow a hunk body, each paired with the number of hunks before it.
    /// Ordered by that number, non-decreasing.
    pub trailer: Vec<(usize, Vec<u8>)>,
    /// Old-side path with the `a/` prefix stripped and git quoting decoded.
    pub old_path: Option<Vec<u8>>,
    /// New-side path, in the same form as `old_path`.
    pub new_path: Option<Vec<u8>>,
    /// The file's body.
    pub content: FileContent,
}

/// A parsed unified diff.
#[derive(Clone, Debug, PartialEq, Eq, Default)]
pub struct Patch {
    /// Raw lines before the first file entry, verbatim.
    pub preamble: Vec<Vec<u8>>,
    /// File entries in input order.
    pub files: Vec<FileDiff>,
    /// True when the input's last line had no line ending.
    pub no_trailing_newline: bool,
}

/// Mathematical view of a [`Line`].
pub struct LineV {
    pub kind: LineKind,
    pub text: Seq<u8>,
    pub no_newline: Option<Seq<u8>>,
}

/// Mathematical view of a [`Hunk`].
pub struct HunkV {
    pub old_start: u32,
    pub old_lines: u32,
    pub new_start: u32,
    pub new_lines: u32,
    pub section: Seq<u8>,
    pub lines: Seq<LineV>,
}

/// Mathematical view of a [`FileContent`].
pub enum ContentV {
    Text(Seq<HunkV>),
    Binary(Seq<Seq<u8>>),
}

/// Mathematical view of a [`FileDiff`].
pub struct FileV {
    pub headers: Seq<Seq<u8>>,
    pub trailer: Seq<(usize, Seq<u8>)>,
    pub old_path: Option<Seq<u8>>,
    pub new_path: Option<Seq<u8>>,
    pub content: ContentV,
}

/// Mathematical view of a [`Patch`].
pub struct PatchV {
    pub preamble: Seq<Seq<u8>>,
    pub files: Seq<FileV>,
    pub no_trailing_newline: bool,
}

pub open spec fn opt_bytes(o: Option<Vec<u8>>) -> Option<Seq<u8>> {
    match o {
        Some(v) => Some(v@),
        None => None,
    }
}

pub open spec fn lines_view(v: Seq<Vec<u8>>) -> Seq<Seq<u8>> {
    v.map_values(|l: Vec<u8>| l@)
}

impl View for Line {
    type V = LineV;

    open spec fn view(&self) -> LineV {
        LineV { kind: self.kind, text: self.text@, no_newline: opt_bytes(self.no_newline) }
    }
}

pub open spec fn body_view(v: Seq<Line>) -> Seq<LineV> {
    v.map_values(|l: Line| l@)
}

impl View for Hunk {
    type V = HunkV;

    open spec fn view(&self) -> HunkV {
        HunkV {
            old_start: self.old_start,
            old_lines: self.old_lines,
            new_start: self.new_start,
            new_lines: self.new_lines,
            section: self.section@,
            lines: body_view(self.lines@),
        }
    }
}

pub open spec fn hunks_view(v: Seq<Hunk>) -> Seq<HunkV> {
    v.map_values(|h: Hunk| h@)
}

impl View for FileContent {
    type V = ContentV;

    open spec fn view(&self) -> ContentV {
        match self {
            FileContent::Text(h) => ContentV::Text(hunks_view(h@)),
            FileContent::Binary(b) => ContentV::Binary(lines_view(b@)),
        }
    }
}

pub open spec fn trailer_view(v: Seq<(usize, Vec<u8>)>) -> Seq<(usize, Seq<u8>)> {
    v.map_values(|e: (usize, Vec<u8>)| (e.0, e.1@))
}

impl View for FileDiff {
    type V = FileV;

    open spec fn view(&self) -> FileV {
        FileV {
            headers: lines_view(self.headers@),
            trailer: trailer_view(self.trailer@),
            old_path: opt_bytes(self.old_path),
            new_path: opt_bytes(self.new_path),
            content: self.content@,
        }
    }
}

pub open spec fn files_view(v: Seq<FileDiff>) -> Seq<FileV> {
    v.map_values(|f: FileDiff| f@)
}

impl View for Patch {
    type V = PatchV;

    open spec fn view(&self) -> PatchV {
        PatchV {
            preamble: lines_view(self.preamble@),
            files: files_view(self.files@),
            no_trailing_newline: self.no_trailing_newline,
        }
    }
}

/// How many of `lines` are of kind `k`.
pub open spec fn count_of(lines: Seq<LineV>, k: LineKind) -> nat
    decreases lines.len(),
{
    if lines.len() == 0 {
        0
    } else {
        count_of(lines.drop_last(), k) + if lines.last().kind == k { 1nat } else { 0nat }
    }
}

/// The changed (`+`/`-`) lines of a body, in body order.
pub open spec fn changed_of(lines: Seq<LineV>) -> Seq<LineV>
    decreases lines.len(),
{
    if lines.len() == 0 {
        Seq::empty()
    } else if lines.last().kind == LineKind::Context {
        changed_of(lines.drop_last())
    } else {
        changed_of(lines.drop_last()).push(lines.last())
    }
}

/// Both sides of a body fit the `u32` counts of a hunk header.
pub open spec fn sides_fit(lines: Seq<LineV>) -> bool {
    &&& count_of(lines, LineKind::Context) + count_of(lines, LineKind::Del) <= u32::MAX
    &&& count_of(lines, LineKind::Context) + count_of(lines, LineKind::Add) <= u32::MAX
}

impl HunkV {
    /// Old-side lines the body holds.
    pub open spec fn body_old(self) -> nat {
        count_of(self.lines, LineKind::Context) + count_of(self.lines, LineKind::Del)
    }

    /// New-side lines the body holds.
    pub open spec fn body_new(self) -> nat {
        count_of(self.lines, LineKind::Context) + count_of(self.lines, LineKind::Add)
    }

    /// The body, placed at the header's starts, stays within `u32` line numbers on both
    /// sides.
    pub open spec fn fits(self) -> bool {
        &&& self.old_start + self.body_old() <= u32::MAX
        &&& self.new_start + self.body_new() <= u32::MAX
    }
}

impl ContentV {
    pub open spec fn hunk_count(self) -> nat {
        match self {
            ContentV::Text(h) => h.len(),
            ContentV::Binary(_) => 0,
        }
    }
}

/// The display path of an entry as bytes: the new path, else the old one, skipping the
/// `/dev/null` placeholder; empty if neither.
pub open spec fn display_bytes(f: FileV) -> Seq<u8> {
    if f.new_path.is_some() && f.new_path.unwrap() != dev_null() {
        f.new_path.unwrap()
    } else if f.old_path.is_some() && f.old_path.unwrap() != dev_null() {
        f.old_path.unwrap()
    } else {
        Seq::empty()
    }
}

pub open spec fn dev_null() -> Seq<u8> {
    seq!['/' as u8, 'd' as u8, 'e' as u8, 'v' as u8, '/' as u8, 'n' as u8, 'u' as u8, 'l' as u8, 'l' as u8]
}


} // verus!

verus! {

pub proof fn lemma_hunks_view_push(v: Seq<Hunk>, h: Hunk)
    ensures
        hunks_view(v.push(h)) == hunks_view(v).push(h@),
{
    assert(hunks_view(v.push(h)) =~= hunks_view(v).push(h@));
}

/// Every changed line is an addition or a deletion.
pub proof fn lemma_changed_of_kinds(lines: Seq<LineV>)
    ensures
        forall|j: int|
            0 <= j < changed_of(lines).len() ==> (#[trigger] changed_of(lines)[j]).kind
                != LineKind::Context,
    decreases lines.len(),
{
    if lines.len() > 0 {
        lemma_changed_of_kinds(lines.drop_last());
    }
}

pub proof fn lemma_count_prefix(lines: Seq<LineV>, i: int, k: LineKind)
    requires
        0 <= i <= lines.len(),
    ensures
        count_of(lines.subrange(0, i), k) <= count_of(lines, k),
    decreases lines.len() - i,
{
    if i < lines.len() {
        lemma_count_prefix(lines, i + 1, k);
        assert(lines.subrange(0, i + 1).drop_last() =~= lines.subrange(0, i));
    } else {
        assert(lines.subrange(0, i) =~= lines);
    }
}

pub proof fn lemma_count_concat(a: Seq<LineV>, b: Seq<LineV>, k: LineKind)
    ensures
        count_of(a + b, k) == count_of(a, k) + count_of(b, k),
    decreases b.len(),
{
    if b.len() == 0 {
        assert(a + b =~= a);
    } else {
        lemma_count_concat(a, b.drop_last(), k);
        assert((a + b).drop_last() =~= a + b.drop_last());
    }
}

pub proof fn lemma_changed_concat(a: Seq<LineV>, b: Seq<LineV>)
    ensures
        changed_of(a + b) == changed_of(a) + changed_of(b),
    decreases b.len(),
{
    if b.len() == 0 {
        assert(a + b =~= a);
        assert(changed_of(a) + changed_of(b) =~= changed_of(a));
    } else {
        lemma_changed_concat(a, b.drop_last());
        assert((a + b).drop_last() =~= a + b.drop_last());
        assert(changed_of(a) + changed_of(b.drop_last()).push(b.last()) =~= (changed_of(a)
            + changed_of(b.drop_last())).push(b.last()));
    }
}

/// An owned copy of a byte vector.
pub fn clone_bytes(v: &Vec<u8>) -> (r: Vec<u8>)
    ensures
        r@ == v@,
{
    vstd::slice::slice_to_vec(v.as_slice())
}

pub fn clone_opt_bytes(v: &Option<Vec<u8>>) -> (r: Option<Vec<u8>>)
    ensures
        opt_bytes(r) == opt_bytes(*v),
{
    match v {
        Some(b) => Some(clone_bytes(b)),
        None => None,
    }
}

/// An owned copy of a list of byte strings.
pub fn clone_byte_lines(v: &Vec<Vec<u8>>) -> (r: Vec<Vec<u8>>)
    ensures
        lines_view(r@) == lines_view(v@),
{
    let mut r: Vec<Vec<u8>> = Vec::new();
    let mut i: usize = 0;
    while i < v.len()
        invariant
            i <= v@.len(),
            r@.len() == i,
            forall|j: int| 0 <= j < i ==> (#[trigger] r@[j])@ == v@[j]@,
        decreases v@.len() - i,
    {
        r.push(clone_bytes(&v[i]));
        i = i + 1;
    }
    proof {
        assert(lines_view(r@) =~= lines_view(v@));
    }
    r
}

impl Line {
    /// An owned copy of the line.
    pub fn clone_line(&self) -> (r: Line)
        ensures
            r@ == self@,
    {
        Line {
            kind: self.kind,
            text: clone_bytes(&self.text),
            no_newline: clone_opt_bytes(&self.no_newline),
        }
    }
}

/// An owned copy of a hunk body.
pub fn clone_body(v: &[Line]) -> (r: Vec<Line>)
    ensures
        body_view(r@) == body_view(v@),
{
    let mut r: Vec<Line> = Vec::new();
    let mut i: usize = 0;
    while i < v.len()
        invariant
            i <= v@.len(),
            r@.len() == i,
            forall|j: int| 0 <= j < i ==> (#[trigger] r@[j])@ == v@[j]@,
        decreases v@.len() - i,
    {
        r.push(v[i].clone_line());
        i = i + 1;
    }
    proof {
        assert(body_view(r@) =~= body_view(v@));
    }
    r
}

impl Hunk {
    /// An owned copy of the hunk.
    pub fn clone_hunk(&self) -> (r: Hunk)
        ensures
            r@ == self@,
    {
        Hunk {
            old_start: self.old_start,
            old_lines: self.old_lines,
            new_start: self.new_start,
            new_lines: self.new_lines,
            section: clone_bytes(&self.section),
            lines: clone_body(self.lines.as_slice()),
        }
    }
}

/// (context, added, deleted) line counts over a body.
pub fn count_kinds(lines: &[Line]) -> (r: (u32, u32, u32))
    requires
        sides_fit(body_view(lines@)),
    ensures
        r.0 == count_of(body_view(lines@), LineKind::Context),
        r.1 == count_of(body_view(lines@), LineKind::Add),
        r.2 == count_of(body_view(lines@), LineKind::Del),
{
    let ghost v = body_view(lines@);
    let mut ctx: u32 = 0;
    let mut add: u32 = 0;
    let mut del: u32 = 0;
    let mut i: usize = 0;
    while i < lines.len()
        invariant
            v == body_view(lines@),
            sides_fit(v),
            i <= lines@.len(),
            ctx == count_of(v.subrange(0, i as int), LineKind::Context),
            add == count_of(v.subrange(0, i as int), LineKind::Add),
            del == count_of(v.subrange(0, i as int), LineKind::Del),
        decreases lines@.len() - i,
    {
        proof {
            assert(v.subrange(0, i + 1).drop_last() =~= v.subrange(0, i as int));
            lemma_count_prefix(v, i + 1, LineKind::Context);
            lemma_count_prefix(v, i + 1, LineKind::Add);
            lemma_count_prefix(v, i + 1, LineKind::Del);
        }
        match lines[i].kind {
            LineKind::Context => ctx = ctx + 1,
            LineKind::Add => add = add + 1,
            LineKind::Del => del = del + 1,
        }
        i = i + 1;
    }
    proof {
        assert(v.subrange(0, lines@.len() as int) =~= v);
    }
    (ctx, add, del)
}


/// Whether both sides of a body fit the `u32` counts of a hunk header.
pub fn sides_in_bounds(lines: &[Line]) -> (r: bool)
    ensures
        r == sides_fit(body_view(lines@)),
{
    let ghost v = body_view(lines@);
    let mut ctx: u64 = 0;
    let mut add: u64 = 0;
    let mut del: u64 = 0;
    let mut i: usize = 0;
    while i < lines.len()
        invariant
            v == body_view(lines@),
            i <= lines@.len(),
            ctx == count_of(v.subrange(0, i as int), LineKind::Context),
            add == count_of(v.subrange(0, i as int), LineKind::Add),
            del == count_of(v.subrange(0, i as int), LineKind::Del),
            ctx + add + del == i,
        decreases lines@.len() - i,
    {
        proof {
            assert(v.subrange(0, i + 1).drop_last() =~= v.subrange(0, i as int));
            lemma_count_prefix(v, i + 1, LineKind::Context);
            lemma_count_prefix(v, i + 1, LineKind::Add);
            lemma_count_prefix(v, i + 1, LineKind::Del);
        }
        match lines[i].kind {
            LineKind::Context => ctx = ctx + 1,
            LineKind::Add => add = add + 1,
            LineKind::Del => del = del + 1,
        }
        i = i + 1;
    }
    proof {
        assert(v.subrange(0, lines@.len() as int) =~= v);
    }
    ctx + del <= 0xffff_ffff && ctx + add <= 0xffff_ffff
}

/// (context, added, deleted) line counts over `lines[from..to]`.
pub fn count_kinds_in(lines: &[Line], from: usize, to: usize) -> (r: (u32, u32, u32))
    requires
        from <= to <= lines@.len(),
        sides_fit(body_view(lines@).subrange(from as int, to as int)),
    ensures
        r.0 == count_of(body_view(lines@).subrange(from as int, to as int), LineKind::Context),
        r.1 == count_of(body_view(lines@).subrange(from as int, to as int), LineKind::Add),
        r.2 == count_of(body_view(lines@).subrange(from as int, to as int), LineKind::Del),
{
    let ghost w = body_view(lines@);
    let ghost v = w.subrange(from as int, to as int);
    let mut ctx: u32 = 0;
    let mut add: u32 = 0;
    let mut del: u32 = 0;
    let mut i: usize = from;
    while i < to
        invariant
            w == body_view(lines@),
            v == w.subrange(from as int, to as int),
            from <= i <= to <= lines@.len(),
            sides_fit(v),
            ctx == count_of(v.subrange(0, i - from), LineKind::Context),
            add == count_of(v.subrange(0, i - from), LineKind::Add),
            del == count_of(v.subrange(0, i - from), LineKind::Del),
        decreases to - i,
    {
        proof {
            let k = i - from;
            assert(v.subrange(0, k + 1).drop_last() =~= v.subrange(0, k));
            assert(v.subrange(0, k + 1).last() == w[i as int]);
            lemma_count_prefix(v, k + 1, LineKind::Context);
            lemma_count_prefix(v, k + 1, LineKind::Add);
            lemma_count_prefix(v, k + 1, LineKind::Del);
        }
        match lines[i].kind {
            LineKind::Context => ctx = ctx + 1,
            LineKind::Add => add = add + 1,
            LineKind::Del => del = del + 1,
        }
        i = i + 1;
    }
    proof {
        assert(v.subrange(0, to - from) =~= v);
    }
    (ctx, add, del)
}

/// An owned copy of `v[from..to]`.
pub fn clone_range(v: &[Line], from: usize, to: usize) -> (r: Vec<Line>)
    requires
        from <= to <= v@.len(),
    ensures
        body_view(r@) == body_view(v@).subrange(from as int, to as int),
{
    let mut r: Vec<Line> = Vec::new();
    let mut i: usize = from;
    while i < to
        invariant
            from <= i <= to <= v@.len(),
            r@.len() == i - from,
            forall|j: int| 0 <= j < r@.len() ==> (#[trigger] r@[j])@ == v@[from + j]@,
        decreases to - i,
    {
        r.push(v[i].clone_line());
        i = i + 1;
    }
    proof {
        assert(body_view(r@) =~= body_view(v@).subrange(from as int, to as int));
    }
    r
}

/// Counting the kinds of a body accounts for every line.
pub proof fn lemma_count_total(lines: Seq<LineV>)
    ensures
        count_of(lines, LineKind::Context) + count_of(lines, LineKind::Add) + count_of(
            lines,
            LineKind::Del,
        ) == lines.len(),
    decreases lines.len(),
{
    if lines.len() > 0 {
        lemma_count_total(lines.drop_last());
    }
}

/// The counts over a middle stretch of a body, together with what precedes it, never exceed
/// the counts over the whole body.
pub proof fn lemma_count_split3(lines: Seq<LineV>, a: int, b: int, k: LineKind)
    requires
        0 <= a <= b <= lines.len(),
    ensures
        count_of(lines.subrange(0, a), k) + count_of(lines.subrange(a, b), k) == count_of(
            lines.subrange(0, b),
            k,
        ),
        count_of(lines.subrange(0, b), k) <= count_of(lines, k),
{
    lemma_count_concat(lines.subrange(0, a), lines.subrange(a, b), k);
    assert(lines.subrange(0, a) + lines.subrange(a, b) =~= lines.subrange(0, b));
    lemma_count_prefix(lines, b, k);
}

impl Hunk {
    /// (added, deleted) line counts.
    pub fn change_counts(&self) -> (r: (u32, u32))
        requires
            sides_fit(self@.lines),
        ensures
            r.0 == count_of(self@.lines, LineKind::Add),
            r.1 == count_of(self@.lines, LineKind::Del),
    {
        let (_, add, del) = count_kinds(self.lines.as_slice());
        (add, del)
    }

    /// The changed (`+`/`-`) lines in body order, each with its 1-based index over them
    /// (additions and deletions share one numbering). Context lines are left out.
    pub fn changed_lines(&self) -> (r: Vec<(usize, &Line)>)
        ensures
            r@.len() == changed_of(self@.lines).len(),
            forall|i: int|
                0 <= i < r@.len() ==> (#[trigger] r@[i]).0 == i + 1 && r@[i].1@ == changed_of(
                    self@.lines,
                )[i],
    {
        let ghost v = self@.lines;
        let mut r: Vec<(usize, &Line)> = Vec::new();
        let mut i: usize = 0;
        while i < self.lines.len()
            invariant
                v == self@.lines,
                v == body_view(self.lines@),
                i <= self.lines@.len(),
                r@.len() == changed_of(v.subrange(0, i as int)).len(),
                r@.len() <= i,
                forall|j: int|
                    0 <= j < r@.len() ==> (#[trigger] r@[j]).0 == j + 1 && r@[j].1@ == changed_of(
                        v.subrange(0, i as int),
                    )[j],
            decreases self.lines@.len() - i,
        {
            proof {
                assert(v.subrange(0, i + 1).drop_last() =~= v.subrange(0, i as int));
            }
            let l = &self.lines[i];
            if l.kind != LineKind::Context {
                let n = r.len() + 1;
                r.push((n, l));
            }
            i = i + 1;
        }
        proof {
            assert(v.subrange(0, self.lines@.len() as int) =~= v);
        }
        r
    }
}

impl FileContent {
    /// How many hunks the body carries; a binary body has none.
    pub fn hunk_count(&self) -> (r: usize)
        ensures
            r == self@.hunk_count(),
    {
        match self {
            FileContent::Text(hunks) => hunks.len(),
            FileContent::Binary(_) => 0,
        }
    }
}

impl FileDiff {
    /// Best-effort display path: the new path, else the old one, decoded lossily, skipping the
    /// `/dev/null` placeholder of a creation or deletion. Empty if neither.
    pub fn display_path(&self) -> (r: String)
        ensures
            r@ == crate::text::lossy_utf8(display_bytes(self@)),
            vstd::utf8::valid_utf8(display_bytes(self@)) ==> r@ == vstd::utf8::decode_utf8(
                display_bytes(self@),
            ),
    {
        let b = self.display_bytes_exec();
        crate::text::lossy_string(b)
    }

    /// The bytes [`FileDiff::display_path`] decodes.
    pub fn display_bytes_exec(&self) -> (r: &[u8])
        ensures
            r@ == display_bytes(self@),
    {
        let null = crate::bytes::dev_null_lit_bytes();
        proof {
            assert(crate::bytes::dev_null_lit() =~= dev_null());
        }
        if let Some(p) = &self.new_path {
            if !crate::bytes::bytes_eq(p.as_slice(), null) {
                return p.as_slice();
            }
        }
        if let Some(p) = &self.old_path {
            if !crate::bytes::bytes_eq(p.as_slice(), null) {
                return p.as_slice();
            }
        }
        &[]
    }

    /// How many hunks the entry carries.
    pub fn hunk_count(&self) -> (r: usize)
        ensures
            r == self@.content.hunk_count(),
    {
        self.content.hunk_count()
    }
}

} // verus!
