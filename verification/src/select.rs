//! Selection: resolve selectors against a parsed diff and build the diff of the chosen
//! sub-hunks.
//!
//! A file's sub-hunks are its hunks auto-split at the context between change runs, numbered
//! from 1 in file order. A selector addresses them by path and index set, by index set alone in
//! a single-file diff, or by content id anywhere in the diff.

use vstd::prelude::*;

use crate::model::{
    changed_of, display_bytes, files_view, hunks_view, lines_view, opt_bytes, trailer_view,
    ContentV, FileContent, FileDiff, FileV, Hunk, HunkV, Line, LineKind, LineV, Patch, PatchV,
};
use crate::split::{auto_split_hunk, auto_split_spec, hunks_of};
use crate::subhunk_id::subhunk_hash_spec;
use vstd::string::StringExecFns;

verus! {

/// One parsed selector argument.
#[derive(Debug, PartialEq, Eq)]
pub enum Selector {
    /// Sub-hunks within one file: the `path:set` form, or the bare `set` form (no path) of a
    /// single-file diff. The path is raw bytes, so a name that is not UTF-8 can be spelled.
    File { path: Option<Vec<u8>>, indices: IndexSet },
    /// Sub-hunks by content id (the `@<id>` form): every sub-hunk of the diff whose id it is.
    Id(String),
}

/// The index part of a `File` selector.
#[derive(Debug, PartialEq, Eq)]
pub enum IndexSet {
    /// `*`: every sub-hunk of the file (and the entry itself when it has none).
    All,
    /// 1-based sub-hunk indices, ranges already expanded.
    List(Vec<usize>),
    /// `INDEX@L<set>`: one sub-hunk cut down to a subset of its changed lines, numbered
    /// `1..=changed` in body order.
    LineSet { index: usize, lines: Vec<usize> },
}

/// Why a selection could not be made. Every variant is a usage error.
#[derive(Debug, PartialEq, Eq)]
pub enum SelectError {
    /// A selector argument does not parse: the argument and the reason.
    BadSelector(String),
    /// A `path:` selector names a file the diff does not contain.
    UnknownPath(String),
    /// A `path:` selector matches more than one file of the diff.
    AmbiguousPath(String),
    /// An index addresses a sub-hunk the file does not have: `path:index`.
    NoIndex(String),
    /// An `@<id>` selector matched no sub-hunk.
    UnknownId(String),
    /// An `@<id>` selector matched sub-hunks with differing content.
    IdCollision(String),
    /// No selector was given.
    EmptySelection,
    /// A selector used the removed `INDEX@lo-hi` form.
    RemovedRangeForm(String),
    /// An `INDEX@L<set>` selector could not be applied.
    LineSelect(String),
}

/// Mathematical view of an [`IndexSet`].
pub enum IndexSetV {
    All,
    List(Seq<usize>),
    LineSet { index: usize, lines: Seq<usize> },
}

/// Mathematical view of a [`Selector`].
pub enum SelectorV {
    File { path: Option<Seq<u8>>, indices: IndexSetV },
    Id(Seq<char>),
}

/// Mathematical view of a [`SelectError`].
pub enum SelErr {
    BadSelector(Seq<char>),
    UnknownPath(Seq<char>),
    AmbiguousPath(Seq<char>),
    NoIndex(Seq<char>),
    UnknownId(Seq<char>),
    IdCollision(Seq<char>),
    EmptySelection,
    RemovedRangeForm(Seq<char>),
    LineSelect(Seq<char>),
}

impl View for IndexSet {
    type V = IndexSetV;

    open spec fn view(&self) -> IndexSetV {
        match self {
            IndexSet::All => IndexSetV::All,
            IndexSet::List(v) => IndexSetV::List(v@),
            IndexSet::LineSet { index, lines } => IndexSetV::LineSet {
                index: *index,
                lines: lines@,
            },
        }
    }
}

impl View for Selector {
    type V = SelectorV;

    open spec fn view(&self) -> SelectorV {
        match self {
            Selector::File { path, indices } => SelectorV::File {
                path: opt_bytes(*path),
                indices: indices@,
            },
            Selector::Id(id) => SelectorV::Id(id@),
        }
    }
}

impl View for SelectError {
    type V = SelErr;

    open spec fn view(&self) -> SelErr {
        match self {
            SelectError::BadSelector(s) => SelErr::BadSelector(s@),
            SelectError::UnknownPath(s) => SelErr::UnknownPath(s@),
            SelectError::AmbiguousPath(s) => SelErr::AmbiguousPath(s@),
            SelectError::NoIndex(s) => SelErr::NoIndex(s@),
            SelectError::UnknownId(s) => SelErr::UnknownId(s@),
            SelectError::IdCollision(s) => SelErr::IdCollision(s@),
            SelectError::EmptySelection => SelErr::EmptySelection,
            SelectError::RemovedRangeForm(s) => SelErr::RemovedRangeForm(s@),
            SelectError::LineSelect(s) => SelErr::LineSelect(s@),
        }
    }
}

pub open spec fn selectors_view(v: Seq<Selector>) -> Seq<SelectorV> {
    v.map_values(|s: Selector| s@)
}

/// The sub-hunks of the first `k` hunks of `hs`, in order.
pub open spec fn subs_upto(hs: Seq<HunkV>, k: int) -> Seq<HunkV>
    decreases k,
{
    if k <= 0 {
        Seq::empty()
    } else {
        subs_upto(hs, k - 1) + auto_split_spec(hs[k - 1])
    }
}

/// The sub-hunks of a file entry: its hunks auto-split, in order; none for a binary entry.
pub open spec fn file_subs_spec(f: FileV) -> Seq<HunkV> {
    match f.content {
        ContentV::Text(hs) => subs_upto(hs, hs.len() as int),
        ContentV::Binary(_) => Seq::empty(),
    }
}

/// Every hunk of the entry can be auto-split.
pub open spec fn file_fits(f: FileV) -> bool {
    match f.content {
        ContentV::Text(hs) => forall|j: int| 0 <= j < hs.len() ==> crate::split::splits_fit(#[trigger] hs[j]),
        ContentV::Binary(_) => true,
    }
}

/// Every hunk of the diff can be auto-split and sliced, and its body holds at most `u32::MAX`
/// lines.
pub open spec fn patch_fits(p: PatchV) -> bool {
    forall|i: int|
        0 <= i < p.files.len() ==> file_fits(#[trigger] p.files[i]) && match p.files[i].content {
            ContentV::Text(hs) => forall|j: int|
                0 <= j < hs.len() ==> (#[trigger] hs[j]).lines.len() <= u32::MAX,
            ContentV::Binary(_) => true,
        }
}

/// Auto-split one file entry's hunks into its ordered sub-hunks (none for a binary entry).
pub fn build_file_subs(f: &FileDiff) -> (r: Vec<Hunk>)
    requires
        file_fits(f@),
    ensures
        hunks_of(r@) == file_subs_spec(f@),
{
    match &f.content {
        FileContent::Text(hunks) => {
            let ghost hs = hunks_view(hunks@);
            proof {
                assert(f@.content == ContentV::Text(hs));
                assert(file_fits(f@));
                assert forall|j: int| 0 <= j < hs.len() implies crate::split::splits_fit(#[trigger] hs[j]) by {
                    assert(f@.content->Text_0 == hs);
                }
            }
            let mut subs: Vec<Hunk> = Vec::new();
            let mut i: usize = 0;
            while i < hunks.len()
                invariant
                    hs == hunks_view(hunks@),
                    forall|j: int| 0 <= j < hs.len() ==> crate::split::splits_fit(#[trigger] hs[j]),
                    i <= hs.len(),
                    hunks_of(subs@) == subs_upto(hs, i as int),
                decreases hs.len() - i,
            {
                proof {
                    assert(hunks@[i as int]@ == hs[i as int]);
                }
                let mut more = auto_split_hunk(&hunks[i]);
                let ghost before = hunks_of(subs@);
                let ghost added = hunks_of(more@);
                subs.append(&mut more);
                proof {
                    assert(hunks_of(subs@) =~= before + added);
                }
                i = i + 1;
            }
            proof {
                assert(f@.content == ContentV::Text(hs));
            }
            subs
        },
        FileContent::Binary(_) => Vec::new(),
    }
}

/// Per-file auto-split view: entry `i` holds the ordered sub-hunks of file entry `i`.
pub fn build_view(patch: &Patch) -> (r: Vec<Vec<Hunk>>)
    requires
        forall|i: int| 0 <= i < patch@.files.len() ==> file_fits(#[trigger] patch@.files[i]),
    ensures
        r@.len() == patch@.files.len(),
        forall|i: int|
            0 <= i < r@.len() ==> hunks_of(#[trigger] r@[i]@) == file_subs_spec(patch@.files[i]),
{
    let mut r: Vec<Vec<Hunk>> = Vec::new();
    let mut i: usize = 0;
    while i < patch.files.len()
        invariant
            forall|j: int| 0 <= j < patch@.files.len() ==> file_fits(#[trigger] patch@.files[j]),
            i <= patch@.files.len(),
            r@.len() == i,
            forall|j: int|
                0 <= j < i ==> hunks_of(#[trigger] r@[j]@) == file_subs_spec(patch@.files[j]),
        decreases patch@.files.len() - i,
    {
        proof {
            assert(patch.files@[i as int]@ == patch@.files[i as int]);
        }
        r.push(build_file_subs(&patch.files[i]));
        i = i + 1;
    }
    r
}

/// Two changed lines are the same: same kind, same bytes, same no-newline marker.
fn same_line(a: &Line, b: &Line) -> (r: bool)
    ensures
        r == (a@ == b@),
{
    if a.kind != b.kind || !crate::bytes::bytes_eq(a.text.as_slice(), b.text.as_slice()) {
        return false;
    }
    match (&a.no_newline, &b.no_newline) {
        (None, None) => true,
        (Some(x), Some(y)) => crate::bytes::bytes_eq(x.as_slice(), y.as_slice()),
        _ => false,
    }
}

/// Two optional paths are the same.
fn same_path(a: &Option<Vec<u8>>, b: &Option<Vec<u8>>) -> (r: bool)
    ensures
        r == (opt_bytes(*a) == opt_bytes(*b)),
{
    match (a, b) {
        (None, None) => true,
        (Some(x), Some(y)) => crate::bytes::bytes_eq(x.as_slice(), y.as_slice()),
        _ => false,
    }
}

/// Two sub-hunks change the same lines, in the same order; context is not compared.
fn same_changed(a: &Hunk, b: &Hunk) -> (r: bool)
    ensures
        r == (changed_of(a@.lines) == changed_of(b@.lines)),
{
    let ca = a.changed_lines();
    let cb = b.changed_lines();
    if ca.len() != cb.len() {
        proof {
            assert(changed_of(a@.lines).len() != changed_of(b@.lines).len());
        }
        return false;
    }
    let mut i: usize = 0;
    while i < ca.len()
        invariant
            ca@.len() == changed_of(a@.lines).len(),
            cb@.len() == changed_of(b@.lines).len(),
            ca@.len() == cb@.len(),
            forall|j: int| 0 <= j < ca@.len() ==> (#[trigger] ca@[j]).1@ == changed_of(a@.lines)[j],
            forall|j: int| 0 <= j < cb@.len() ==> (#[trigger] cb@[j]).1@ == changed_of(b@.lines)[j],
            i <= ca@.len(),
            forall|j: int| 0 <= j < i ==> changed_of(a@.lines)[j] == changed_of(b@.lines)[j],
        decreases ca@.len() - i,
    {
        if !same_line(ca[i].1, cb[i].1) {
            proof {
                assert(changed_of(a@.lines)[i as int] != changed_of(b@.lines)[i as int]);
            }
            return false;
        }
        i = i + 1;
    }
    proof {
        assert(changed_of(a@.lines) =~= changed_of(b@.lines));
    }
    true
}

/// Every item has the same id-defining content as the first: the same paths and the same
/// changed lines.
pub open spec fn same_content(items: Seq<(FileV, HunkV)>) -> bool {
    forall|k: int|
        0 <= k < items.len() ==> {
            &&& (#[trigger] items[k]).0.new_path == items[0].0.new_path
            &&& items[k].0.old_path == items[0].0.old_path
            &&& changed_of(items[k].1.lines) == changed_of(items[0].1.lines)
        }
}

/// Whether every `(file, sub-hunk)` pair has the content its content id is made of in common:
/// the file paths and the sub-hunk's changed lines, context left out. Sub-hunks that share an id
/// are then the same change made in one or more places; otherwise the shared id is an
/// accidental collision.
pub fn all_same_content(items: &[(&FileDiff, &Hunk)]) -> (r: bool)
    ensures
        r == same_content(items@.map_values(|e: (&FileDiff, &Hunk)| (e.0@, e.1@))),
{
    let ghost iv = items@.map_values(|e: (&FileDiff, &Hunk)| (e.0@, e.1@));
    if items.len() == 0 {
        return true;
    }
    let (ff, fs) = items[0];
    let mut k: usize = 0;
    while k < items.len()
        invariant
            iv == items@.map_values(|e: (&FileDiff, &Hunk)| (e.0@, e.1@)),
            items@.len() > 0,
            ff@ == iv[0].0,
            fs@ == iv[0].1,
            k <= items@.len(),
            forall|j: int|
                0 <= j < k ==> {
                    &&& (#[trigger] iv[j]).0.new_path == iv[0].0.new_path
                    &&& iv[j].0.old_path == iv[0].0.old_path
                    &&& changed_of(iv[j].1.lines) == changed_of(iv[0].1.lines)
                },
        decreases items@.len() - k,
    {
        let (f, s) = items[k];
        proof {
            assert(iv[k as int] == (f@, s@));
        }
        if !same_path(&f.new_path, &ff.new_path) || !same_path(&f.old_path, &ff.old_path)
            || !same_changed(s, fs) {
            return false;
        }
        k = k + 1;
    }
    true
}

/// File entry `fi` names `path` on either side.
pub open spec fn names_path(p: PatchV, fi: int, path: Seq<u8>) -> bool {
    p.files[fi].new_path == Some(path) || p.files[fi].old_path == Some(path)
}

/// What a path (or its absence) resolves to: the only entry that names it; an unknown path;
/// a path more than one entry names; or, without a path, the entry of a single-file diff.
pub open spec fn resolve_path_ok(p: PatchV, path: Option<Seq<u8>>, r: Result<usize, SelErr>) -> bool {
    match path {
        None => if p.files.len() == 1 {
            r == Ok::<usize, SelErr>(0)
        } else {
            r == Err::<usize, SelErr>(SelErr::AmbiguousPath("<no path on multi-file diff>"@))
        },
        Some(b) => match r {
            Ok(fi) => fi < p.files.len() && names_path(p, fi as int, b) && forall|j: int|
                0 <= j < p.files.len() && j != fi ==> !names_path(p, j, b),
            Err(SelErr::UnknownPath(s)) => s == crate::text::lossy_utf8(b) && forall|j: int|
                0 <= j < p.files.len() ==> !names_path(p, j, b),
            Err(SelErr::AmbiguousPath(s)) => s == crate::text::lossy_utf8(b) && exists|i: int, j: int|
                #![trigger names_path(p, i, b), names_path(p, j, b)]
                0 <= i < j < p.files.len() && names_path(p, i, b) && names_path(p, j, b),
            _ => false,
        },
    }
}

proof fn lemma_ambiguous(p: PatchV, b: Seq<u8>, i: int, j: int)
    requires
        0 <= i < j < p.files.len(),
        names_path(p, i, b),
        names_path(p, j, b),
    ensures
        resolve_path_ok(p, Some(b), Err(SelErr::AmbiguousPath(crate::text::lossy_utf8(b)))),
{
}

/// The view of an index-or-error result.
pub open spec fn idx_view(r: Result<usize, SelectError>) -> Result<usize, SelErr> {
    match r {
        Ok(i) => Ok(i),
        Err(e) => Err(e@),
    }
}

/// The view of an optional byte slice.
pub open spec fn opt_slice(p: Option<&[u8]>) -> Option<Seq<u8>> {
    match p {
        Some(b) => Some(b@),
        None => None,
    }
}

/// Some two different entries name `b`.
pub open spec fn ambiguous(p: PatchV, b: Seq<u8>) -> bool {
    exists|i: int, j: int|
        #![trigger names_path(p, i, b), names_path(p, j, b)]
        0 <= i < j < p.files.len() && names_path(p, i, b) && names_path(p, j, b)
}

/// The file entry a path (or its absence) resolves to, or why it resolves to none.
pub open spec fn resolve_path_spec(p: PatchV, path: Option<Seq<u8>>) -> Result<usize, SelErr> {
    match path {
        None => if p.files.len() == 1 {
            Ok(0)
        } else {
            Err(SelErr::AmbiguousPath("<no path on multi-file diff>"@))
        },
        Some(b) => if ambiguous(p, b) {
            Err(SelErr::AmbiguousPath(crate::text::lossy_utf8(b)))
        } else if exists|i: usize| i < p.files.len() && names_path(p, i as int, b) {
            Ok(choose|i: usize| i < p.files.len() && names_path(p, i as int, b))
        } else {
            Err(SelErr::UnknownPath(crate::text::lossy_utf8(b)))
        },
    }
}

pub proof fn lemma_resolve_path_spec(p: PatchV, path: Option<Seq<u8>>, r: Result<usize, SelErr>)
    requires
        resolve_path_ok(p, path, r),
    ensures
        r == resolve_path_spec(p, path),
{
    if let Some(b) = path {
        match r {
            Ok(fi) => {
                if ambiguous(p, b) {
                    let (i, j) = choose|i: int, j: int|
                        #![trigger names_path(p, i, b), names_path(p, j, b)]
                        0 <= i < j < p.files.len() && names_path(p, i, b) && names_path(p, j, b);
                    assert(i == fi || j == fi);
                }
                assert(names_path(p, fi as int, b));
                let c = choose|i: usize| i < p.files.len() && names_path(p, i as int, b);
                assert(c == fi);
            },
            Err(_) => {},
        }
    }
}

/// Whether an optional path equals `b`.
fn path_is(p: &Option<Vec<u8>>, b: &[u8]) -> (r: bool)
    ensures
        r == (opt_bytes(*p) == Some(b@)),
{
    match p {
        Some(x) => crate::bytes::bytes_eq(x.as_slice(), b),
        None => false,
    }
}

/// Resolve an optional path to a file entry index. Without a path, only a single-file diff
/// resolves.
pub fn resolve_path(patch: &Patch, path: Option<&[u8]>) -> (r: Result<usize, SelectError>)
    ensures
        match r {
            Ok(fi) => Ok::<usize, SelErr>(fi),
            Err(e) => Err(e@),
        } == resolve_path_spec(
            patch@,
            match path {
                Some(b) => Some(b@),
                None => None,
            },
        ),
{
    let r = find_path(patch, path);
    proof {
        lemma_resolve_path_spec(
            patch@,
            match path {
                Some(b) => Some(b@),
                None => None,
            },
            idx_view(r),
        );
    }
    r
}

fn find_path(patch: &Patch, path: Option<&[u8]>) -> (r: Result<usize, SelectError>)
    ensures
        resolve_path_ok(
            patch@,
            match path {
                Some(b) => Some(b@),
                None => None,
            },
            match r {
                Ok(fi) => Ok(fi),
                Err(e) => Err(e@),
            },
        ),
{
    let p = match path {
        None => {
            if patch.files.len() == 1 {
                return Ok(0);
            }
            let msg = "<no path on multi-file diff>".to_string();
            proof {
                vstd::string::to_string_from_display_ensures_for_str("<no path on multi-file diff>", msg);
            }
            return Err(SelectError::AmbiguousPath(msg));
        },
        Some(p) => p,
    };
    proof {
        assert(path == Some(p));
    }
    let mut found: Option<usize> = None;
    let mut i: usize = 0;
    while i < patch.files.len()
        invariant
            path == Some(p),
            i <= patch@.files.len(),
            match found {
                None => forall|j: int| 0 <= j < i ==> !names_path(patch@, j, p@),
                Some(fi) => fi < i && names_path(patch@, fi as int, p@) && forall|j: int|
                    0 <= j < i && j != fi ==> !names_path(patch@, j, p@),
            },
        decreases patch@.files.len() - i,
    {
        let f = &patch.files[i];
        proof {
            assert(f@ == patch@.files[i as int]);
        }
        if path_is(&f.new_path, p) || path_is(&f.old_path, p) {
            match found {
                None => {
                    found = Some(i);
                },
                Some(fi) => {
                    proof {
                        assert(names_path(patch@, fi as int, p@) && names_path(patch@, i as int, p@));
                    }
                    let e = SelectError::AmbiguousPath(crate::text::lossy_string(p));
                    proof {
                        lemma_ambiguous(patch@, p@, fi as int, i as int);
                    }
                    return Err(e);
                },
            }
        }
        i = i + 1;
    }
    match found {
        Some(fi) => Ok(fi),
        None => Err(SelectError::UnknownPath(crate::text::lossy_string(p))),
    }
}

/// What the selectors picked out of one file: sub-hunks taken whole, by 1-based index, and
/// `@L` slices in the order they were named.
pub struct PicksV {
    pub whole: Set<int>,
    pub lines: Seq<(int, Seq<usize>)>,
}

/// Nothing picked yet.
pub open spec fn no_picks() -> PicksV {
    PicksV { whole: Set::empty(), lines: Seq::empty() }
}

/// What file `fi` holds so far.
pub open spec fn picks_of(ch: Seq<Option<PicksV>>, fi: int) -> PicksV {
    match ch[fi] {
        Some(p) => p,
        None => no_picks(),
    }
}

/// The number of sub-hunks of file entry `fi`.
pub open spec fn sub_count(p: PatchV, fi: int) -> nat {
    file_subs_spec(p.files[fi]).len()
}

/// How a file is named in an error: the path as given, or the entry's display path.
pub open spec fn name_chars(p: PatchV, fi: int, path: Option<Seq<u8>>) -> Seq<char> {
    match path {
        Some(b) => crate::text::lossy_utf8(b),
        None => crate::text::lossy_utf8(display_bytes(p.files[fi])),
    }
}

/// The text of a missing-index error: `name:index`.
pub open spec fn no_index_msg(p: PatchV, fi: int, path: Option<Seq<u8>>, idx: nat) -> Seq<char> {
    name_chars(p, fi, path) + ":"@ + crate::text::dec_chars(idx)
}

/// The position of the first of the first `k` indices of `v` above `n`, if any.
pub open spec fn first_over(v: Seq<usize>, n: int, k: int) -> Option<int>
    decreases k,
{
    if k <= 0 {
        None
    } else {
        match first_over(v, n, k - 1) {
            Some(j) => Some(j),
            None => if v[k - 1] > n {
                Some(k - 1)
            } else {
                None
            },
        }
    }
}

/// The picks after a `path:set` (or bare set) selector, or why it fails.
pub open spec fn file_step(
    p: PatchV,
    ch: Seq<Option<PicksV>>,
    path: Option<Seq<u8>>,
    set: IndexSetV,
) -> Result<Seq<Option<PicksV>>, SelErr> {
    match resolve_path_spec(p, path) {
        Err(e) => Err(e),
        Ok(fi) => {
            let f = p.files[fi as int];
            let n = sub_count(p, fi as int);
            let cur = picks_of(ch, fi as int);
            if f.content is Binary {
                if set is LineSet {
                    Err(
                        SelErr::LineSelect(
                            crate::text::lossy_utf8(display_bytes(f)) + " is a binary file"@,
                        ),
                    )
                } else {
                    Ok(ch.update(fi as int, Some(cur)))
                }
            } else {
                match set {
                    IndexSetV::All => Ok(
                        ch.update(
                            fi as int,
                            Some(
                                PicksV {
                                    whole: cur.whole.union(Set::new(|i: int| 1 <= i <= n)),
                                    lines: cur.lines,
                                },
                            ),
                        ),
                    ),
                    IndexSetV::List(v) => match first_over(v, n as int, v.len() as int) {
                        Some(k) => Err(SelErr::NoIndex(no_index_msg(p, fi as int, path, v[k] as nat))),
                        None => Ok(
                            ch.update(
                                fi as int,
                                Some(
                                    PicksV {
                                        whole: cur.whole.union(
                                            Set::new(
                                                |i: int|
                                                    exists|k: int| 0 <= k < v.len() && v[k] == i,
                                            ),
                                        ),
                                        lines: cur.lines,
                                    },
                                ),
                            ),
                        ),
                    },
                    IndexSetV::LineSet { index, lines } => if index > n {
                        Err(SelErr::NoIndex(no_index_msg(p, fi as int, path, index as nat)))
                    } else {
                        Ok(
                            ch.update(
                                fi as int,
                                Some(
                                    PicksV {
                                        whole: cur.whole,
                                        lines: cur.lines.push((index as int, lines)),
                                    },
                                ),
                            ),
                        )
                    },
                }
            }
        },
    }
}

/// The picks of one file, as held while selectors are resolved.
struct FilePicks {
    /// Flag per sub-hunk, slot `i - 1` for index `i`: taken whole.
    whole: Vec<bool>,
    /// `@L` slices in the order they were named.
    lines: Vec<(usize, Vec<usize>)>,
}

impl View for FilePicks {
    type V = PicksV;

    closed spec fn view(&self) -> PicksV {
        PicksV {
            whole: Set::new(|i: int| 1 <= i <= self.whole@.len() && self.whole@[i - 1]),
            lines: self.lines@.map_values(|e: (usize, Vec<usize>)| (e.0 as int, e.1@)),
        }
    }
}

spec fn chosen_view(ch: Seq<Option<FilePicks>>) -> Seq<Option<PicksV>> {
    ch.map_values(
        |o: Option<FilePicks>|
            match o {
                Some(fp) => Some(fp@),
                None => None,
            },
    )
}

/// Every file's flags cover exactly its sub-hunks, and its slices name sub-hunks it has.
spec fn chosen_wf(p: PatchV, ch: Seq<Option<FilePicks>>) -> bool {
    &&& ch.len() == p.files.len()
    &&& forall|fi: int|
        0 <= fi < ch.len() ==> match #[trigger] ch[fi] {
            Some(fp) => fp.whole@.len() == sub_count(p, fi) && forall|k: int|
                0 <= k < fp.lines@.len() ==> 1 <= (#[trigger] fp.lines@[k]).0 <= sub_count(p, fi),
            None => true,
        }
}

fn fresh_picks(n: usize) -> (r: FilePicks)
    ensures
        r.whole@.len() == n,
        r@ == no_picks(),
        r.lines@.len() == 0,
{
    let mut whole: Vec<bool> = Vec::new();
    let mut i: usize = 0;
    while i < n
        invariant
            i <= n,
            whole@.len() == i,
            forall|j: int| 0 <= j < i ==> !whole@[j],
        decreases n - i,
    {
        whole.push(false);
        i = i + 1;
    }
    let r = FilePicks { whole, lines: Vec::new() };
    proof {
        assert(r@.whole =~= Set::<int>::empty());
        assert(r@.lines =~= Seq::<(int, Seq<usize>)>::empty());
    }
    r
}

/// Take file `fi`'s picks out of `chosen`, or fresh ones when it has none yet.
fn take_picks(chosen: &mut Vec<Option<FilePicks>>, fi: usize, n: usize) -> (r: FilePicks)
    requires
        fi < old(chosen)@.len(),
        match old(chosen)@[fi as int] {
            Some(fp) => fp.whole@.len() == n,
            None => true,
        },
    ensures
        r@ == match old(chosen)@[fi as int] {
            Some(fp) => fp@,
            None => no_picks(),
        },
        r.whole@.len() == n,
        match old(chosen)@[fi as int] {
            Some(fp) => r.lines@ == fp.lines@,
            None => r.lines@.len() == 0,
        },
        final(chosen)@ == old(chosen)@.update(fi as int, None),
{
    let mut slot: Option<FilePicks> = None;
    chosen.set_and_swap(fi, &mut slot);
    proof {
        assert(chosen@ =~= old(chosen)@.update(fi as int, None));
    }
    match slot {
        Some(fp) => fp,
        None => fresh_picks(n),
    }
}

/// The message of a file selector's error: `name:index`.
fn no_index_error(patch: &Patch, fi: usize, path: Option<&[u8]>, idx: usize) -> (r: SelectError)
    requires
        fi < patch@.files.len(),
    ensures
        r@ == SelErr::NoIndex(no_index_msg(patch@, fi as int, opt_slice(path), idx as nat)),
{
    let mut name = match path {
        Some(b) => crate::text::lossy_string(b),
        None => {
            proof {
                assert(patch.files@[fi as int]@ == patch@.files[fi as int]);
            }
            patch.files[fi].display_path()
        },
    };
    name.append(":");
    let d = crate::text::dec_string(idx as u64);
    name.append(d.as_str());
    SelectError::NoIndex(name)
}

/// The picks a flag vector and a list of slices stand for.
spec fn picks_view(whole: Seq<bool>, lines: Seq<(usize, Vec<usize>)>) -> PicksV {
    PicksV {
        whole: Set::new(|i: int| 1 <= i <= whole.len() && whole[i - 1]),
        lines: lines.map_values(|e: (usize, Vec<usize>)| (e.0 as int, e.1@)),
    }
}

/// Flag every sub-hunk index `1..=n`.
fn flag_all(whole: &mut Vec<bool>)
    ensures
        final(whole)@.len() == old(whole)@.len(),
        forall|j: int| 0 <= j < final(whole)@.len() ==> final(whole)@[j],
{
    let n = whole.len();
    let mut i: usize = 0;
    while i < n
        invariant
            i <= n,
            whole@.len() == n,
            forall|j: int| 0 <= j < i ==> whole@[j],
        decreases n - i,
    {
        whole.set(i, true);
        i = i + 1;
    }
}

/// Flag every index of `v`, or name the first one past `whole`.
fn flag_list(whole: &mut Vec<bool>, v: &[usize]) -> (r: Option<usize>)
    requires
        forall|k: int| 0 <= k < v@.len() ==> v@[k] >= 1,
    ensures
        final(whole)@.len() == old(whole)@.len(),
        r == match first_over(v@, old(whole)@.len() as int, v@.len() as int) {
            Some(k) => Some(v@[k]),
            None => None::<usize>,
        },
        r is None ==> forall|j: int|
            0 <= j < final(whole)@.len() ==> final(whole)@[j] == (old(whole)@[j] || exists|m: int|
                0 <= m < v@.len() && v@[m] == j + 1),
{
    let n = whole.len();
    let ghost w0 = whole@;
    let mut k: usize = 0;
    while k < v.len()
        invariant
            k <= v@.len(),
            w0 == old(whole)@,
            w0.len() == n,
            whole@.len() == n,
            forall|j: int| 0 <= j < v@.len() ==> v@[j] >= 1,
            first_over(v@, n as int, k as int) is None,
            forall|j: int|
                #![trigger whole@[j]]
                0 <= j < n ==> whole@[j] == (w0[j] || exists|m: int| 0 <= m < k && v@[m] == j + 1),
        decreases v@.len() - k,
    {
        let idx = v[k];
        if idx > n {
            proof {
                assert(first_over(v@, n as int, k + 1) == Some(k as int));
                lemma_first_over_stays(v@, n as int, k + 1, v@.len() as int);
            }
            return Some(idx);
        }
        let ghost before = whole@;
        whole.set(idx - 1, true);
        proof {
            assert forall|j: int|
                #![trigger whole@[j]]
                0 <= j < n implies whole@[j] == (w0[j] || exists|m: int|
                    0 <= m < k + 1 && v@[m] == j + 1) by {
                if j == idx - 1 {
                    assert(v@[k as int] == j + 1);
                    assert(0 <= k < k + 1 && v@[k as int] == j + 1);
                } else {
                    assert(whole@[j] == before[j]);
                    assert(before[j] == (w0[j] || exists|m: int| 0 <= m < k && v@[m] == j + 1));
                    if exists|m: int| 0 <= m < k && v@[m] == j + 1 {
                        let m = choose|m: int| 0 <= m < k && v@[m] == j + 1;
                        assert(0 <= m < k + 1 && v@[m] == j + 1);
                    }
                    if exists|m: int| 0 <= m < k + 1 && v@[m] == j + 1 {
                        let m = choose|m: int| 0 <= m < k + 1 && v@[m] == j + 1;
                        assert(m != k);
                        assert(0 <= m < k && v@[m] == j + 1);
                    }
                }
            }
        }
        k = k + 1;
    }
    None
}

/// Resolve one `path:set` selector (or a bare set) and record its picks in `chosen`.
fn resolve_file_selector(
    patch: &Patch,
    view: &Vec<Vec<Hunk>>,
    path: Option<&[u8]>,
    indices: &IndexSet,
    chosen: &mut Vec<Option<FilePicks>>,
) -> (r: Result<(), SelectError>)
    requires
        view@.len() == patch@.files.len(),
        forall|i: int|
            0 <= i < view@.len() ==> hunks_of(#[trigger] view@[i]@) == file_subs_spec(
                patch@.files[i],
            ),
        chosen_wf(patch@, old(chosen)@),
        index_set_wf(indices@),
    ensures
        match r {
            Ok(()) => file_step(patch@, chosen_view(old(chosen)@), opt_slice(path), indices@)
                == Ok::<Seq<Option<PicksV>>, SelErr>(chosen_view(final(chosen)@)) && chosen_wf(
                patch@,
                final(chosen)@,
            ),
            Err(e) => file_step(patch@, chosen_view(old(chosen)@), opt_slice(path), indices@)
                == Err::<Seq<Option<PicksV>>, SelErr>(e@),
        },
{
    let ghost ch0 = chosen_view(chosen@);
    let ghost c0 = chosen@;
    let fi = match resolve_path(patch, path) {
        Ok(fi) => fi,
        Err(e) => return Err(e),
    };
    let ghost pv = patch@;
    let ghost fv = pv.files[fi as int];
    let ghost expected = file_step(pv, ch0, opt_slice(path), indices@);
    let f = &patch.files[fi];
    proof {
        assert(f@ == fv);
        assert(hunks_of(view@[fi as int]@) == file_subs_spec(fv));
    }
    let n = view[fi].len();
    proof {
        assert(n == sub_count(pv, fi as int));
        assert(c0[fi as int] matches Some(fp) ==> fp.whole@.len() == n);
    }
    let fp = take_picks(chosen, fi, n);
    let ghost cur = picks_of(ch0, fi as int);
    proof {
        assert(fp@ == cur);
    }
    let FilePicks { mut whole, mut lines } = fp;
    proof {
        assert(picks_view(whole@, lines@) == cur);
    }
    let is_binary = match &f.content {
        FileContent::Binary(_) => true,
        FileContent::Text(_) => false,
    };
    proof {
        assert(is_binary == (fv.content is Binary));
    }
    if is_binary {
        if let IndexSet::LineSet { .. } = indices {
            let mut msg = f.display_path();
            msg.append(" is a binary file");
            return Err(SelectError::LineSelect(msg));
        }
        proof {
            assert(expected == Ok::<Seq<Option<PicksV>>, SelErr>(ch0.update(fi as int, Some(cur))));
        }
    } else {
        match indices {
            IndexSet::All => {
                let ghost w0 = whole@;
                flag_all(&mut whole);
                proof {
                    assert(picks_view(whole@, lines@).whole =~= cur.whole.union(
                        Set::new(|i: int| 1 <= i <= n),
                    ));
                    assert(expected == Ok::<Seq<Option<PicksV>>, SelErr>(
                        ch0.update(fi as int, Some(picks_view(whole@, lines@))),
                    ));
                }
            },
            IndexSet::List(v) => {
                let ghost vs = v@;
                let ghost w0 = whole@;
                match flag_list(&mut whole, v.as_slice()) {
                    Some(idx) => {
                        return Err(no_index_error(patch, fi, path, idx));
                    },
                    None => {},
                }
                proof {
                    lemma_first_over_none(vs, n as int, vs.len() as int);
                    assert(picks_view(whole@, lines@).whole =~= cur.whole.union(
                        Set::new(|i: int| exists|k: int| 0 <= k < vs.len() && vs[k] == i),
                    ));
                    assert(expected == Ok::<Seq<Option<PicksV>>, SelErr>(
                        ch0.update(fi as int, Some(picks_view(whole@, lines@))),
                    ));
                }
            },
            IndexSet::LineSet { index, lines: sel } => {
                if *index > n {
                    return Err(no_index_error(patch, fi, path, *index));
                }
                let copy = vstd::slice::slice_to_vec(sel.as_slice());
                lines.push((*index, copy));
                proof {
                    assert(picks_view(whole@, lines@).lines =~= cur.lines.push((*index as int, sel@)));
                    assert(picks_view(whole@, lines@).whole =~= cur.whole);
                    assert(expected == Ok::<Seq<Option<PicksV>>, SelErr>(
                        ch0.update(fi as int, Some(picks_view(whole@, lines@))),
                    ));
                }
            },
        }
    }
    let fp = FilePicks { whole, lines };
    proof {
        assert(fp@ == picks_view(fp.whole@, fp.lines@));
    }
    let ghost fpv = fp@;
    let mut slot = Some(fp);
    chosen.set_and_swap(fi, &mut slot);
    proof {
        assert(chosen_view(chosen@) =~= ch0.update(fi as int, Some(fpv)));
    }
    Ok(())
}

proof fn lemma_first_over_none(v: Seq<usize>, n: int, k: int)
    requires
        0 <= k <= v.len(),
        first_over(v, n, k) is None,
    ensures
        forall|j: int| 0 <= j < k ==> v[j] <= n,
    decreases k,
{
    if k > 0 {
        lemma_first_over_none(v, n, k - 1);
    }
}

proof fn lemma_first_over_stays(v: Seq<usize>, n: int, k: int, m: int)
    requires
        0 <= k <= m,
        first_over(v, n, k) is Some,
    ensures
        first_over(v, n, m) == first_over(v, n, k),
    decreases m - k,
{
    if m > k {
        lemma_first_over_stays(v, n, k, m - 1);
    }
}

/// A selector's indices are 1-based.
pub open spec fn index_set_wf(s: IndexSetV) -> bool {
    match s {
        IndexSetV::All => true,
        IndexSetV::List(v) => forall|k: int| 0 <= k < v.len() ==> v[k] >= 1,
        IndexSetV::LineSet { index, lines } => index >= 1,
    }
}

/// The value of a hex digit, if `b` is one.
pub open spec fn hex_val(b: u8) -> Option<nat> {
    if 48 <= b <= 57 {
        Some((b - 48) as nat)
    } else if 97 <= b <= 102 {
        Some((b - 87) as nat)
    } else if 65 <= b <= 70 {
        Some((b - 55) as nat)
    } else {
        None
    }
}

/// Every byte is a hex digit.
pub open spec fn all_hex(s: Seq<u8>) -> bool {
    forall|i: int| 0 <= i < s.len() ==> (#[trigger] hex_val(s[i])) is Some
}

/// The value of a string of hex digits.
pub open spec fn hex_value(s: Seq<u8>) -> nat
    decreases s.len(),
{
    if s.len() == 0 {
        0
    } else {
        hex_value(s.drop_last()) * 16 + match hex_val(s.last()) {
            Some(d) => d,
            None => 0,
        }
    }
}

/// What `u64::from_str_radix(s, 16)` reads from `s`: an optional `+`, then one or more hex
/// digits of either case whose value fits in a `u64`.
pub open spec fn parse_hex_spec(s: Seq<u8>) -> Option<u64> {
    let d = if s.len() > 0 && s[0] == 43 {
        s.drop_first()
    } else {
        s
    };
    if d.len() == 0 || !all_hex(d) || hex_value(d) > u64::MAX {
        None
    } else {
        Some(hex_value(d) as u64)
    }
}

/// A hex letter in lower case; any other byte as it is.
pub open spec fn lower_hex(b: u8) -> u8 {
    if 65 <= b <= 70 {
        (b + 32) as u8
    } else {
        b
    }
}

proof fn lemma_hex_value_lower(s: Seq<u8>)
    ensures
        hex_value(s.map_values(|b: u8| lower_hex(b))) == hex_value(s),
        all_hex(s.map_values(|b: u8| lower_hex(b))) == all_hex(s),
    decreases s.len(),
{
    let t = s.map_values(|b: u8| lower_hex(b));
    assert forall|i: int| 0 <= i < s.len() implies hex_val(#[trigger] t[i]) == hex_val(s[i]) by {
        assert(t[i] == lower_hex(s[i]));
    }
    if s.len() > 0 {
        lemma_hex_value_lower(s.drop_last());
        assert(t.drop_last() =~= s.drop_last().map_values(|b: u8| lower_hex(b)));
        assert(hex_val(t.last()) == hex_val(s.last()));
    }
    if all_hex(s) != all_hex(t) {
        if all_hex(s) {
            let i = choose|i: int| 0 <= i < t.len() && !(hex_val(#[trigger] t[i]) is Some);
            assert(hex_val(s[i]) is Some);
        } else {
            let i = choose|i: int| 0 <= i < s.len() && !(hex_val(#[trigger] s[i]) is Some);
            assert(hex_val(t[i]) == hex_val(s[i]));
        }
    }
}

/// Ids are read case-insensitively: an id spells the same value with its hex letters in
/// either case.
pub proof fn lemma_id_case_insensitive(s: Seq<u8>)
    ensures
        parse_hex_spec(s.map_values(|b: u8| lower_hex(b))) == parse_hex_spec(s),
{
    let t = s.map_values(|b: u8| lower_hex(b));
    if s.len() > 0 && s[0] == 43 {
        assert(t[0] == 43);
        assert(t.drop_first() =~= s.drop_first().map_values(|b: u8| lower_hex(b)));
        lemma_hex_value_lower(s.drop_first());
    } else {
        if s.len() > 0 {
            assert(t[0] == lower_hex(s[0]));
        }
        lemma_hex_value_lower(s);
    }
}

proof fn lemma_hex_value_grows(s: Seq<u8>, k: int)
    requires
        0 <= k <= s.len(),
    ensures
        hex_value(s.subrange(0, k)) <= hex_value(s),
    decreases s.len() - k,
{
    if k < s.len() {
        lemma_hex_value_grows(s, k + 1);
        assert(s.subrange(0, k + 1).drop_last() =~= s.subrange(0, k));
    } else {
        assert(s.subrange(0, k) =~= s);
    }
}

/// Read a content id as `u64::from_str_radix(id, 16)` does.
pub fn parse_hex(s: &[u8]) -> (r: Option<u64>)
    ensures
        r == parse_hex_spec(s@),
{
    let start: usize = if s.len() > 0 && s[0] == 43 {
        1
    } else {
        0
    };
    let ghost d = if s@.len() > 0 && s@[0] == 43 {
        s@.drop_first()
    } else {
        s@
    };
    proof {
        assert(d =~= s@.subrange(start as int, s@.len() as int));
    }
    if start == s.len() {
        return None;
    }
    let mut v: u64 = 0;
    let mut i: usize = start;
    while i < s.len()
        invariant
            start <= i <= s@.len(),
            start < s@.len(),
            d == s@.subrange(start as int, s@.len() as int),
            d == (if s@.len() > 0 && s@[0] == 43 {
                s@.drop_first()
            } else {
                s@
            }),
            all_hex(d.subrange(0, i - start)),
            v == hex_value(d.subrange(0, i - start)),
        decreases s@.len() - i,
    {
        let b = s[i];
        let dv: u64 = if 48 <= b && b <= 57 {
            (b - 48) as u64
        } else if 97 <= b && b <= 102 {
            (b - 87) as u64
        } else if 65 <= b && b <= 70 {
            (b - 55) as u64
        } else {
            proof {
                assert(d[i - start] == b);
                assert(hex_val(d[i - start]) is None);
            }
            return None;
        };
        let k = i - start;
        proof {
            assert(d.subrange(0, k + 1).drop_last() =~= d.subrange(0, k as int));
            assert(d.subrange(0, k + 1).last() == b);
            assert(all_hex(d.subrange(0, k + 1))) by {
                assert forall|j: int| 0 <= j < k + 1 implies (#[trigger] hex_val(
                    d.subrange(0, k + 1)[j],
                )) is Some by {
                    if j < k {
                        assert(d.subrange(0, k + 1)[j] == d.subrange(0, k as int)[j]);
                    }
                }
            }
        }
        if v > 0x0fff_ffff_ffff_ffff || (v == 0x0fff_ffff_ffff_ffff && dv > 15) {
            proof {
                assert(hex_value(d.subrange(0, k + 1)) > u64::MAX);
                lemma_hex_value_grows(d, k + 1);
            }
            return None;
        }
        v = v * 16 + dv;
        i = i + 1;
    }
    proof {
        assert(d.subrange(0, s@.len() - start) =~= d);
    }
    Some(v)
}

/// The sub-hunks of file entry `fi`, among its first `k`, whose content hash is `t`, as
/// `(file index, 1-based sub-hunk index)`.
pub open spec fn file_matches(p: PatchV, t: u64, fi: int, k: int) -> Seq<(usize, usize)>
    decreases k,
{
    if k <= 0 {
        Seq::empty()
    } else if subhunk_hash_spec(p.files[fi], file_subs_spec(p.files[fi])[k - 1]) == t {
        file_matches(p, t, fi, k - 1).push((fi as usize, k as usize))
    } else {
        file_matches(p, t, fi, k - 1)
    }
}

/// Every sub-hunk of the first `m` file entries whose content hash is `t`, in diff order.
pub open spec fn id_matches(p: PatchV, t: u64, m: int) -> Seq<(usize, usize)>
    decreases m,
{
    if m <= 0 {
        Seq::empty()
    } else {
        id_matches(p, t, m - 1) + file_matches(p, t, m - 1, sub_count(p, m - 1) as int)
    }
}

/// The file entries and sub-hunks that matches point at.
pub open spec fn match_items(p: PatchV, ms: Seq<(usize, usize)>) -> Seq<(FileV, HunkV)> {
    ms.map_values(
        |e: (usize, usize)| (p.files[e.0 as int], file_subs_spec(p.files[e.0 as int])[e.1 - 1]),
    )
}

/// The picks after the first `k` matches are taken whole.
pub open spec fn add_matches(ch: Seq<Option<PicksV>>, ms: Seq<(usize, usize)>, k: int) -> Seq<
    Option<PicksV>,
>
    decreases k,
{
    if k <= 0 {
        ch
    } else {
        let c = add_matches(ch, ms, k - 1);
        let fi = ms[k - 1].0 as int;
        c.update(
            fi,
            Some(
                PicksV {
                    whole: picks_of(c, fi).whole.insert(ms[k - 1].1 as int),
                    lines: picks_of(c, fi).lines,
                },
            ),
        )
    }
}

/// The picks after an `@<id>` selector, or why it fails: an id that does not read as hex or
/// matches nothing is unknown; matches with differing content are a collision.
pub open spec fn id_step(p: PatchV, ch: Seq<Option<PicksV>>, id: Seq<char>) -> Result<
    Seq<Option<PicksV>>,
    SelErr,
> {
    match parse_hex_spec(vstd::utf8::encode_utf8(id)) {
        None => Err(SelErr::UnknownId(id)),
        Some(t) => {
            let ms = id_matches(p, t, p.files.len() as int);
            if ms.len() == 0 {
                Err(SelErr::UnknownId(id))
            } else if !same_content(match_items(p, ms)) {
                Err(SelErr::IdCollision(id))
            } else {
                Ok(add_matches(ch, ms, ms.len() as int))
            }
        },
    }
}

/// The content hash of every sub-hunk, per file entry.
fn build_hashes(patch: &Patch, view: &Vec<Vec<Hunk>>) -> (r: Vec<Vec<u64>>)
    requires
        view@.len() == patch@.files.len(),
        forall|i: int|
            0 <= i < view@.len() ==> hunks_of(#[trigger] view@[i]@) == file_subs_spec(
                patch@.files[i],
            ),
    ensures
        r@.len() == view@.len(),
        forall|i: int|
            0 <= i < r@.len() ==> (#[trigger] r@[i])@.len() == view@[i]@.len() && forall|j: int|
                0 <= j < r@[i]@.len() ==> #[trigger] r@[i]@[j] == subhunk_hash_spec(
                    patch@.files[i],
                    file_subs_spec(patch@.files[i])[j],
                ),
{
    let mut r: Vec<Vec<u64>> = Vec::new();
    let mut i: usize = 0;
    while i < view.len()
        invariant
            view@.len() == patch@.files.len(),
            forall|q: int|
                0 <= q < view@.len() ==> hunks_of(#[trigger] view@[q]@) == file_subs_spec(
                    patch@.files[q],
                ),
            i <= view@.len(),
            r@.len() == i,
            forall|q: int|
                0 <= q < i ==> (#[trigger] r@[q])@.len() == view@[q]@.len() && forall|j: int|
                    0 <= j < r@[q]@.len() ==> #[trigger] r@[q]@[j] == subhunk_hash_spec(
                        patch@.files[q],
                        file_subs_spec(patch@.files[q])[j],
                    ),
        decreases view@.len() - i,
    {
        let subs = &view[i];
        let f = &patch.files[i];
        proof {
            assert(f@ == patch@.files[i as int]);
            assert(hunks_of(view@[i as int]@) == file_subs_spec(patch@.files[i as int]));
        }
        let mut hs: Vec<u64> = Vec::new();
        let mut j: usize = 0;
        while j < subs.len()
            invariant
                j <= subs@.len(),
                f@ == patch@.files[i as int],
                hunks_of(subs@) == file_subs_spec(patch@.files[i as int]),
                hs@.len() == j,
                forall|q: int|
                    0 <= q < j ==> #[trigger] hs@[q] == subhunk_hash_spec(
                        patch@.files[i as int],
                        file_subs_spec(patch@.files[i as int])[q],
                    ),
            decreases subs@.len() - j,
        {
            proof {
                assert(subs@[j as int]@ == file_subs_spec(patch@.files[i as int])[j as int]);
            }
            hs.push(crate::subhunk_id::subhunk_hash(f, &subs[j]));
            j = j + 1;
        }
        r.push(hs);
        i = i + 1;
    }
    r
}

/// Resolve an `@<id>` selector: take whole every sub-hunk whose content hash it names, once
/// the matches are confirmed to carry the same changed lines under the same paths.
fn resolve_id(
    patch: &Patch,
    view: &Vec<Vec<Hunk>>,
    hashes: &Vec<Vec<u64>>,
    id: &String,
    chosen: &mut Vec<Option<FilePicks>>,
) -> (r: Result<(), SelectError>)
    requires
        view@.len() == patch@.files.len(),
        forall|i: int|
            0 <= i < view@.len() ==> hunks_of(#[trigger] view@[i]@) == file_subs_spec(
                patch@.files[i],
            ),
        hashes@.len() == view@.len(),
        forall|i: int|
            0 <= i < hashes@.len() ==> (#[trigger] hashes@[i])@.len() == view@[i]@.len()
                && forall|j: int|
                0 <= j < hashes@[i]@.len() ==> #[trigger] hashes@[i]@[j] == subhunk_hash_spec(
                    patch@.files[i],
                    file_subs_spec(patch@.files[i])[j],
                ),
        chosen_wf(patch@, old(chosen)@),
    ensures
        match r {
            Ok(()) => id_step(patch@, chosen_view(old(chosen)@), id@) == Ok::<
                Seq<Option<PicksV>>,
                SelErr,
            >(chosen_view(final(chosen)@)) && chosen_wf(patch@, final(chosen)@),
            Err(e) => id_step(patch@, chosen_view(old(chosen)@), id@) == Err::<
                Seq<Option<PicksV>>,
                SelErr,
            >(e@),
        },
{
    let ghost pv = patch@;
    let ghost ch0 = chosen_view(chosen@);
    let bytes = id.as_str().as_bytes();
    proof {
        assert(bytes@ == vstd::utf8::encode_utf8(id@));
    }
    let target = match parse_hex(bytes) {
        Some(t) => t,
        None => {
            return Err(SelectError::UnknownId(id.clone()));
        },
    };
    // Every sub-hunk carrying the id, in diff order.
    let mut matched: Vec<(usize, usize)> = Vec::new();
    let mut fi: usize = 0;
    while fi < hashes.len()
        invariant
            hashes@.len() == pv.files.len(),
            view@.len() == pv.files.len(),
            pv == patch@,
            forall|i: int|
                0 <= i < hashes@.len() ==> (#[trigger] hashes@[i])@.len() == sub_count(pv, i)
                    && forall|j: int|
                    0 <= j < hashes@[i]@.len() ==> #[trigger] hashes@[i]@[j] == subhunk_hash_spec(
                        pv.files[i],
                        file_subs_spec(pv.files[i])[j],
                    ),
            fi <= hashes@.len(),
            matched@ == id_matches(pv, target, fi as int),
        decreases hashes@.len() - fi,
    {
        let hs = &hashes[fi];
        let ghost before = matched@;
        let mut si: usize = 0;
        while si < hs.len()
            invariant
                hs@ == hashes@[fi as int]@,
                hs@.len() == sub_count(pv, fi as int),
                forall|j: int|
                    0 <= j < hs@.len() ==> #[trigger] hs@[j] == subhunk_hash_spec(
                        pv.files[fi as int],
                        file_subs_spec(pv.files[fi as int])[j],
                    ),
                si <= hs@.len(),
                fi < hashes@.len(),
                matched@ == before + file_matches(pv, target, fi as int, si as int),
            decreases hs@.len() - si,
        {
            if hs[si] == target {
                matched.push((fi, si + 1));
                proof {
                    assert(matched@ =~= before + file_matches(pv, target, fi as int, si + 1));
                }
            } else {
                proof {
                    assert(matched@ =~= before + file_matches(pv, target, fi as int, si + 1));
                }
            }
            si = si + 1;
        }
        fi = fi + 1;
    }
    let ghost ms = matched@;
    if matched.len() == 0 {
        return Err(SelectError::UnknownId(id.clone()));
    }
    proof {
        assert(pv.files.len() == patch.files.len());
        assert forall|i: int| 0 <= i < pv.files.len() implies #[trigger] sub_count(pv, i)
            <= usize::MAX by {
            assert(hashes@[i].len() == hashes@[i]@.len());
        }
        lemma_matches_in_range(pv, target, pv.files.len() as int);
    }
    let mut items: Vec<(&FileDiff, &Hunk)> = Vec::new();
    let mut k: usize = 0;
    while k < matched.len()
        invariant
            ms == matched@,
            ms == id_matches(pv, target, pv.files.len() as int),
            pv == patch@,
            view@.len() == pv.files.len(),
            forall|i: int|
                0 <= i < view@.len() ==> hunks_of(#[trigger] view@[i]@) == file_subs_spec(
                    pv.files[i],
                ),
            forall|q: int|
                0 <= q < ms.len() ==> (#[trigger] ms[q]).0 < pv.files.len() && 1 <= ms[q].1
                    <= sub_count(pv, ms[q].0 as int),
            k <= ms.len(),
            items@.len() == k,
            forall|q: int|
                0 <= q < k ==> (#[trigger] items@[q]).0@ == pv.files[ms[q].0 as int]
                    && items@[q].1@ == file_subs_spec(pv.files[ms[q].0 as int])[ms[q].1 - 1],
        decreases ms.len() - k,
    {
        let (f, s) = matched[k];
        proof {
            assert(patch.files@[f as int]@ == pv.files[f as int]);
            assert(hunks_of(view@[f as int]@) == file_subs_spec(pv.files[f as int]));
            assert(view@[f as int]@[s - 1]@ == file_subs_spec(pv.files[f as int])[s - 1]);
        }
        items.push((&patch.files[f], &view[f][s - 1]));
        k = k + 1;
    }
    proof {
        assert(items@.map_values(|e: (&FileDiff, &Hunk)| (e.0@, e.1@)) =~= match_items(pv, ms));
    }
    if !all_same_content(items.as_slice()) {
        return Err(SelectError::IdCollision(id.clone()));
    }
    let mut k: usize = 0;
    while k < matched.len()
        invariant
            ms == matched@,
            pv == patch@,
            forall|q: int|
                0 <= q < ms.len() ==> (#[trigger] ms[q]).0 < pv.files.len() && 1 <= ms[q].1
                    <= sub_count(pv, ms[q].0 as int),
            k <= ms.len(),
            view@.len() == pv.files.len(),
            forall|i: int|
                0 <= i < view@.len() ==> hunks_of(#[trigger] view@[i]@) == file_subs_spec(
                    pv.files[i],
                ),
            chosen_wf(pv, chosen@),
            chosen_view(chosen@) == add_matches(ch0, ms, k as int),
        decreases ms.len() - k,
    {
        let (f, s) = matched[k];
        let ghost c = chosen_view(chosen@);
        let ghost cc = chosen@;
        let n = view[f].len();
        proof {
            assert(hunks_of(view@[f as int]@) == file_subs_spec(pv.files[f as int]));
            assert(n == sub_count(pv, f as int));
            assert(cc[f as int] matches Some(fp) ==> fp.whole@.len() == n);
        }
        let fp = take_picks(chosen, f, n);
        let FilePicks { mut whole, lines } = fp;
        let ghost w0 = whole@;
        whole.set(s - 1, true);
        let fp = FilePicks { whole, lines };
        proof {
            assert(fp@ == picks_view(fp.whole@, fp.lines@));
            assert(fp@.whole =~= picks_of(c, f as int).whole.insert(s as int));
        }
        let ghost fpv = fp@;
        let mut slot = Some(fp);
        chosen.set_and_swap(f, &mut slot);
        proof {
            assert(chosen_view(chosen@) =~= c.update(
                f as int,
                Some(
                    PicksV {
                        whole: picks_of(c, f as int).whole.insert(s as int),
                        lines: picks_of(c, f as int).lines,
                    },
                ),
            ));
        }
        k = k + 1;
    }
    Ok(())
}

proof fn lemma_file_matches_in_range(p: PatchV, t: u64, fi: int, k: int)
    requires
        0 <= k <= sub_count(p, fi),
        k <= usize::MAX,
        0 <= fi <= usize::MAX,
    ensures
        forall|q: int|
            0 <= q < file_matches(p, t, fi, k).len() ==> (#[trigger] file_matches(p, t, fi, k)[q]).0
                == fi && 1 <= file_matches(p, t, fi, k)[q].1 <= k,
    decreases k,
{
    if k > 0 {
        lemma_file_matches_in_range(p, t, fi, k - 1);
        let a = file_matches(p, t, fi, k - 1);
        assert forall|q: int| 0 <= q < file_matches(p, t, fi, k).len() implies (
        #[trigger] file_matches(p, t, fi, k)[q]).0 == fi && 1 <= file_matches(p, t, fi, k)[q].1
            <= k by {
            if q < a.len() {
                assert(file_matches(p, t, fi, k)[q] == a[q]);
            }
        }
    }
}

proof fn lemma_matches_files(p: PatchV, t: u64)
    requires
        p.files.len() <= usize::MAX,
        forall|i: int| 0 <= i < p.files.len() ==> #[trigger] sub_count(p, i) <= usize::MAX,
    ensures
        forall|q: int|
            0 <= q < id_matches(p, t, p.files.len() as int).len() ==> (#[trigger] id_matches(p, t, p.files.len() as int)[q]).0 < p.files.len(),
{
    lemma_matches_in_range(p, t, p.files.len() as int);
}

proof fn lemma_matches_in_range(p: PatchV, t: u64, m: int)
    requires
        0 <= m <= p.files.len(),
        m <= usize::MAX,
        forall|i: int| 0 <= i < m ==> #[trigger] sub_count(p, i) <= usize::MAX,
    ensures
        forall|q: int|
            0 <= q < id_matches(p, t, m).len() ==> (#[trigger] id_matches(p, t, m)[q]).0 < m && 1
                <= id_matches(p, t, m)[q].1 <= sub_count(p, id_matches(p, t, m)[q].0 as int),
    decreases m,
{
    if m > 0 {
        lemma_matches_in_range(p, t, m - 1);
        lemma_file_matches_in_range(p, t, m - 1, sub_count(p, m - 1) as int);
        let a = id_matches(p, t, m - 1);
        let b = file_matches(p, t, m - 1, sub_count(p, m - 1) as int);
        assert forall|q: int| 0 <= q < id_matches(p, t, m).len() implies (#[trigger] id_matches(
            p,
            t,
            m,
        )[q]).0 < m && 1 <= id_matches(p, t, m)[q].1 <= sub_count(
            p,
            id_matches(p, t, m)[q].0 as int,
        ) by {
            if q < a.len() {
                assert(id_matches(p, t, m)[q] == a[q]);
            } else {
                assert(id_matches(p, t, m)[q] == b[q - a.len()]);
            }
        }
    }
}

/// The picks after one selector, or why it fails.
#[verifier::opaque]
pub open spec fn sel_step(p: PatchV, ch: Seq<Option<PicksV>>, s: SelectorV) -> Result<
    Seq<Option<PicksV>>,
    SelErr,
> {
    match s {
        SelectorV::File { path, indices } => file_step(p, ch, path, indices),
        SelectorV::Id(id) => id_step(p, ch, id),
    }
}

/// The picks after the first `k` selectors, in order, or the first failure.
pub open spec fn resolve_upto(p: PatchV, sels: Seq<SelectorV>, k: int) -> Result<
    Seq<Option<PicksV>>,
    SelErr,
>
    decreases k,
{
    if k <= 0 {
        Ok(Seq::new(p.files.len(), |i: int| None))
    } else {
        match resolve_upto(p, sels, k - 1) {
            Err(e) => Err(e),
            Ok(ch) => sel_step(p, ch, sels[k - 1]),
        }
    }
}

/// Every selector's indices are 1-based.
pub open spec fn selectors_wf(sels: Seq<SelectorV>) -> bool {
    forall|k: int|
        0 <= k < sels.len() ==> match #[trigger] sels[k] {
            SelectorV::File { path, indices } => index_set_wf(indices),
            SelectorV::Id(_) => true,
        }
}

proof fn lemma_resolve_err_stays(p: PatchV, sels: Seq<SelectorV>, k: int, m: int, e: SelErr)
    requires
        0 <= k <= m,
        resolve_upto(p, sels, k) == Err::<Seq<Option<PicksV>>, SelErr>(e),
    ensures
        resolve_upto(p, sels, m) == Err::<Seq<Option<PicksV>>, SelErr>(e),
    decreases m - k,
{
    if m > k {
        lemma_resolve_err_stays(p, sels, k, m - 1, e);
    }
}

/// Content hashes of every sub-hunk, per file entry, as [`build_hashes`] makes them.
spec fn hashes_ok(patch: PatchV, view: Seq<Vec<Hunk>>, h: Seq<Vec<u64>>) -> bool {
    h.len() == view.len() && forall|i: int|
        0 <= i < h.len() ==> (#[trigger] h[i])@.len() == view[i]@.len() && forall|j: int|
            0 <= j < h[i]@.len() ==> #[trigger] h[i]@[j] == subhunk_hash_spec(
                patch.files[i],
                file_subs_spec(patch.files[i])[j],
            )
}


/// Sub-hunk `si` of file `fi` is taken whole.
pub open spec fn has_pick(ch: Seq<Option<PicksV>>, fi: int, si: int) -> bool {
    ch[fi] is Some && picks_of(ch, fi).whole.contains(si)
}

/// `ch2` holds every file and whole pick `ch1` holds.
pub open spec fn grows(ch1: Seq<Option<PicksV>>, ch2: Seq<Option<PicksV>>) -> bool {
    &&& ch2.len() == ch1.len()
    &&& forall|fi: int, si: int| 0 <= fi < ch1.len() && #[trigger] has_pick(ch1, fi, si) ==> has_pick(ch2, fi, si)
}

/// An id resolved before: it reads as `t`, its matches carry the same content, and every one
/// of them is already taken whole.
pub open spec fn id_settled(p: PatchV, ch: Seq<Option<PicksV>>, t: u64) -> bool {
    let ms = id_matches(p, t, p.files.len() as int);
    &&& ms.len() > 0
    &&& same_content(match_items(p, ms))
    &&& forall|q: int| 0 <= q < ms.len() ==> #[trigger] has_pick(ch, ms[q].0 as int, ms[q].1 as int)
    &&& forall|q: int| 0 <= q < ms.len() ==> (#[trigger] ms[q]).0 < p.files.len()
}

proof fn lemma_add_matches_grows(ch: Seq<Option<PicksV>>, ms: Seq<(usize, usize)>, k: int)
    requires
        0 <= k <= ms.len(),
        forall|q: int| 0 <= q < ms.len() ==> (#[trigger] ms[q]).0 < ch.len(),
    ensures
        grows(ch, add_matches(ch, ms, k)),
        forall|q: int| 0 <= q < k ==> #[trigger] has_pick(add_matches(ch, ms, k), ms[q].0 as int, ms[q].1 as int),
    decreases k,
{
    if k > 0 {
        lemma_add_matches_grows(ch, ms, k - 1);
        let c = add_matches(ch, ms, k - 1);
        let c2 = add_matches(ch, ms, k);
        assert forall|fi: int, si: int| 0 <= fi < ch.len() && #[trigger] has_pick(ch, fi, si) implies has_pick(c2, fi, si) by {
            assert(has_pick(c, fi, si));
        }
        assert forall|q: int| 0 <= q < k implies #[trigger] has_pick(c2, ms[q].0 as int, ms[q].1 as int) by {
            if q < k - 1 {
                assert(has_pick(c, ms[q].0 as int, ms[q].1 as int));
            }
        }
    }
}

proof fn lemma_add_matches_noop(ch: Seq<Option<PicksV>>, ms: Seq<(usize, usize)>, k: int)
    requires
        0 <= k <= ms.len(),
        forall|q: int| 0 <= q < ms.len() ==> (#[trigger] ms[q]).0 < ch.len(),
        forall|q: int| 0 <= q < ms.len() ==> #[trigger] has_pick(ch, ms[q].0 as int, ms[q].1 as int),
    ensures
        add_matches(ch, ms, k) == ch,
    decreases k,
{
    if k > 0 {
        lemma_add_matches_noop(ch, ms, k - 1);
        let fi = ms[k - 1].0 as int;
        assert(has_pick(ch, fi, ms[k - 1].1 as int));
        assert(picks_of(ch, fi).whole.insert(ms[k - 1].1 as int) =~= picks_of(ch, fi).whole);
        assert(ch.update(fi, Some(PicksV { whole: picks_of(ch, fi).whole, lines: picks_of(ch, fi).lines })) =~= ch);
    }
}

proof fn lemma_file_step_grows(p: PatchV, ch: Seq<Option<PicksV>>, path: Option<Seq<u8>>, set: IndexSetV)
    requires
        ch.len() == p.files.len(),
        file_step(p, ch, path, set) is Ok,
    ensures
        grows(ch, file_step(p, ch, path, set)->Ok_0),
{
    let c2 = file_step(p, ch, path, set)->Ok_0;
    assert forall|fi: int, si: int| 0 <= fi < ch.len() && #[trigger] has_pick(ch, fi, si) implies has_pick(c2, fi, si) by {
    }
}

proof fn lemma_settled_stays(p: PatchV, a: Seq<Option<PicksV>>, b: Seq<Option<PicksV>>, t: u64)
    requires
        a.len() == p.files.len(),
        id_settled(p, a, t),
        grows(a, b),
    ensures
        id_settled(p, b, t),
{
    let ms = id_matches(p, t, p.files.len() as int);
    assert forall|q: int| 0 <= q < ms.len() implies #[trigger] has_pick(b, ms[q].0 as int, ms[q].1 as int) by {
        assert(has_pick(a, ms[q].0 as int, ms[q].1 as int));
    }
}

/// Whether `t` is one of `v`.
fn contains_u64(v: &Vec<u64>, t: u64) -> (r: bool)
    ensures
        r == v@.contains(t),
{
    let mut i: usize = 0;
    while i < v.len()
        invariant
            i <= v@.len(),
            forall|j: int| 0 <= j < i ==> v@[j] != t,
        decreases v@.len() - i,
    {
        if v[i] == t {
            proof {
                assert(v@[i as int] == t);
            }
            return true;
        }
        i = i + 1;
    }
    false
}

/// Apply one selector to `chosen`, building the hash index on the first `@<id>`.
fn resolve_one(
    patch: &Patch,
    view: &Vec<Vec<Hunk>>,
    sel: &Selector,
    hashes: &mut Option<Vec<Vec<u64>>>,
    resolved: &mut Vec<u64>,
    chosen: &mut Vec<Option<FilePicks>>,
) -> (r: Result<(), SelectError>)
    requires
        forall|j: int| 0 <= j < old(resolved)@.len() ==> id_settled(patch@, chosen_view(old(chosen)@), #[trigger] old(resolved)@[j]),
        view@.len() == patch@.files.len(),
        forall|i: int|
            0 <= i < view@.len() ==> hunks_of(#[trigger] view@[i]@) == file_subs_spec(
                patch@.files[i],
            ),
        match *old(hashes) {
            Some(h) => hashes_ok(patch@, view@, h@),
            None => true,
        },
        match sel@ {
            SelectorV::File { path, indices } => index_set_wf(indices),
            SelectorV::Id(_) => true,
        },
        chosen_wf(patch@, old(chosen)@),
    ensures
        match *final(hashes) {
            Some(h) => hashes_ok(patch@, view@, h@),
            None => true,
        },
        match r {
            Ok(()) => sel_step(patch@, chosen_view(old(chosen)@), sel@) == Ok::<
                Seq<Option<PicksV>>,
                SelErr,
            >(chosen_view(final(chosen)@)) && chosen_wf(patch@, final(chosen)@)
                && forall|j: int| 0 <= j < final(resolved)@.len() ==> id_settled(patch@, chosen_view(final(chosen)@), #[trigger] final(resolved)@[j]),
            Err(e) => sel_step(patch@, chosen_view(old(chosen)@), sel@) == Err::<
                Seq<Option<PicksV>>,
                SelErr,
            >(e@),
        },
{
    proof {
        reveal(sel_step);
    }
    let ghost c0 = chosen_view(chosen@);
    let ghost r0 = resolved@;
    match sel {
        Selector::File { path, indices } => {
            let p = match path {
                Some(b) => Some(b.as_slice()),
                None => None,
            };
            proof {
                assert(opt_slice(p) == opt_bytes(*path));
            }
            let r = resolve_file_selector(patch, view, p, indices, chosen);
            proof {
                if r is Ok {
                    lemma_file_step_grows(patch@, c0, opt_slice(p), indices@);
                    assert forall|j: int| 0 <= j < resolved@.len() implies id_settled(patch@, chosen_view(chosen@), #[trigger] resolved@[j]) by {
                        lemma_settled_stays(patch@, c0, chosen_view(chosen@), resolved@[j]);
                    }
                }
            }
            r
        },
        Selector::Id(id) => {
            let bytes = id.as_str().as_bytes();
            let target = parse_hex(bytes);
            if let Some(t) = target {
                if contains_u64(resolved, t) {
                    proof {
                        assert(bytes@ == vstd::utf8::encode_utf8(id@));
                        let j = choose|j: int| 0 <= j < r0.len() && r0[j] == t;
                        assert(id_settled(patch@, c0, r0[j]));
                        let ms = id_matches(patch@, t, patch@.files.len() as int);
                        lemma_add_matches_noop(c0, ms, ms.len() as int);
                    }
                    return Ok(());
                }
            }
            if hashes.is_none() {
                *hashes = Some(build_hashes(patch, view));
            }
            let r = match hashes {
                Some(h) => resolve_id(patch, view, h, id, chosen),
                None => Ok(()),
            };
            match r {
                Ok(()) => {
                    proof {
                        assert(bytes@ == vstd::utf8::encode_utf8(id@));
                    }
                    if let Some(t) = target {
                        proof {
                            let ms = id_matches(patch@, t, patch@.files.len() as int);
                            assert(patch@.files.len() == patch.files.len());
                            assert forall|i: int| 0 <= i < patch@.files.len() implies #[trigger] sub_count(patch@, i) <= usize::MAX by {
                                assert(hunks_of(view@[i]@).len() == view@[i]@.len());
                                assert(view@[i].len() == view@[i]@.len());
                            }
                            lemma_matches_files(patch@, t);
                            lemma_add_matches_grows(c0, ms, ms.len() as int);
                            assert forall|j: int| 0 <= j < r0.len() implies id_settled(patch@, chosen_view(chosen@), #[trigger] r0[j]) by {
                                lemma_settled_stays(patch@, c0, chosen_view(chosen@), r0[j]);
                            }
                        }
                        resolved.push(t);
                    }
                    Ok(())
                },
                Err(e) => Err(e),
            }
        },
    }
}

/// No file chosen yet, for `n` file entries.
fn no_choices(n: usize) -> (r: Vec<Option<FilePicks>>)
    ensures
        r@.len() == n,
        forall|j: int| 0 <= j < n ==> r@[j] is None,
        chosen_view(r@) == Seq::new(n as nat, |i: int| None::<PicksV>),
{
    let mut chosen: Vec<Option<FilePicks>> = Vec::new();
    let mut i: usize = 0;
    while i < n
        invariant
            i <= n,
            chosen@.len() == i,
            forall|j: int| 0 <= j < i ==> chosen@[j] is None,
        decreases n - i,
    {
        chosen.push(None);
        i = i + 1;
    }
    proof {
        assert(chosen_view(chosen@) =~= Seq::new(n as nat, |i: int| None::<PicksV>));
    }
    chosen
}

/// Resolution phase: turn the selectors, in order, into the picks of each file.
fn resolve_selectors(patch: &Patch, view: &Vec<Vec<Hunk>>, selectors: &[Selector]) -> (r: Result<
    Vec<Option<FilePicks>>,
    SelectError,
>)
    requires
        view@.len() == patch@.files.len(),
        forall|i: int|
            0 <= i < view@.len() ==> hunks_of(#[trigger] view@[i]@) == file_subs_spec(
                patch@.files[i],
            ),
        selectors_wf(selectors_view(selectors@)),
    ensures
        match r {
            Ok(ch) => resolve_upto(patch@, selectors_view(selectors@), selectors@.len() as int)
                == Ok::<Seq<Option<PicksV>>, SelErr>(chosen_view(ch@)) && chosen_wf(patch@, ch@),
            Err(e) => resolve_upto(patch@, selectors_view(selectors@), selectors@.len() as int)
                == Err::<Seq<Option<PicksV>>, SelErr>(e@),
        },
{
    let ghost sv = selectors_view(selectors@);
    let mut chosen = no_choices(patch.files.len());
    proof {
        assert(resolve_upto(patch@, sv, 0) == Ok::<Seq<Option<PicksV>>, SelErr>(
            chosen_view(chosen@),
        ));
    }
    let mut hashes: Option<Vec<Vec<u64>>> = None;
    let mut resolved: Vec<u64> = Vec::new();
    let mut k: usize = 0;
    while k < selectors.len()
        invariant
            sv == selectors_view(selectors@),
            selectors_wf(sv),
            view@.len() == patch@.files.len(),
            forall|i: int|
                0 <= i < view@.len() ==> hunks_of(#[trigger] view@[i]@) == file_subs_spec(
                    patch@.files[i],
                ),
            match hashes {
                Some(h) => hashes_ok(patch@, view@, h@),
                None => true,
            },
            k <= selectors@.len(),
            chosen_wf(patch@, chosen@),
            forall|j: int| 0 <= j < resolved@.len() ==> id_settled(patch@, chosen_view(chosen@), #[trigger] resolved@[j]),
            resolve_upto(patch@, sv, k as int) == Ok::<Seq<Option<PicksV>>, SelErr>(
                chosen_view(chosen@),
            ),
        decreases selectors@.len() - k,
    {
        proof {
            assert(sv[k as int] == selectors@[k as int]@);
        }
        let r = resolve_one(patch, view, &selectors[k], &mut hashes, &mut resolved, &mut chosen);
        match r {
            Ok(()) => {},
            Err(e) => {
                proof {
                    lemma_resolve_err_stays(patch@, sv, k + 1, selectors@.len() as int, e@);
                }
                return Err(e);
            },
        }
        k = k + 1;
    }
    Ok(chosen)
}

/// How many `@L` slices name sub-hunk `i`.
pub open spec fn slice_count(lines: Seq<(int, Seq<usize>)>, i: int) -> nat
    decreases lines.len(),
{
    if lines.len() == 0 {
        0
    } else {
        slice_count(lines.drop_last(), i) + if lines.last().0 == i {
            1nat
        } else {
            0nat
        }
    }
}

/// Sub-hunk `i` is sliced by `@L` together with another selection of it.
pub open spec fn conflict_at(pk: PicksV, i: int) -> bool {
    slice_count(pk.lines, i) > 1 || (slice_count(pk.lines, i) == 1 && pk.whole.contains(i))
}

/// The smallest of the sub-hunks `1..=k` that is sliced together with another selection.
pub open spec fn first_conflict(pk: PicksV, k: int) -> Option<int>
    decreases k,
{
    if k <= 0 {
        None
    } else {
        match first_conflict(pk, k - 1) {
            Some(i) => Some(i),
            None => if conflict_at(pk, k) {
                Some(k)
            } else {
                None
            },
        }
    }
}

/// The text of a conflicting-slice error.
pub open spec fn conflict_msg(i: int) -> Seq<char> {
    "sub-hunk "@ + crate::text::dec_chars(i as nat)
        + " is addressed by @L together with another selection of the same sub-hunk; address it once, or stage the pieces in separate rounds"@
}

/// The changed lines the `@L` slice of sub-hunk `i` selects, if it has one.
pub open spec fn slice_sel(lines: Seq<(int, Seq<usize>)>, i: int) -> Option<Seq<usize>>
    decreases lines.len(),
{
    if lines.len() == 0 {
        None
    } else if lines.last().0 == i {
        Some(lines.last().1)
    } else {
        slice_sel(lines.drop_last(), i)
    }
}

/// The largest of the selected indices (0 for none).
pub open spec fn seq_max(s: Seq<usize>) -> int
    decreases s.len(),
{
    if s.len() == 0 {
        0
    } else {
        let m = seq_max(s.drop_last());
        if s.len() == 1 || s.last() > m {
            s.last() as int
        } else {
            m
        }
    }
}

proof fn lemma_seq_max(s: Seq<usize>)
    requires
        s.len() > 0,
    ensures
        crate::split::sel_max(s, seq_max(s)),
        forall|m: int| crate::split::sel_max(s, m) ==> m == seq_max(s),
    decreases s.len(),
{
    if s.len() > 1 {
        lemma_seq_max(s.drop_last());
        let d = s.drop_last();
        let m = seq_max(d);
        let j = choose|j: int| 0 <= j < d.len() && d[j] == m;
        assert(s[j] == d[j]);
        assert forall|k: int| 0 <= k < s.len() implies s[k] <= seq_max(s) by {
            if k < d.len() {
                assert(s[k] == d[k]);
            }
        }
        if s.last() > m {
            assert(s[s.len() - 1] == s.last());
        }
    } else {
        assert(s[0] == seq_max(s));
    }
}

/// What slicing sub-hunk `h` down to `sel` gives: the piece, or the split error.
pub open spec fn slice_result(h: HunkV, sel: Seq<usize>) -> Result<HunkV, crate::split::SplitError> {
    if sel.len() == 0 {
        Err(crate::split::SplitError::NoChangedLinesSelected)
    } else if seq_max(sel) > changed_of(h.lines).len() {
        Err(
            crate::split::SplitError::ChangedLineOutOfRange {
                index: seq_max(sel) as usize,
                changed: changed_of(h.lines).len() as usize,
            },
        )
    } else {
        Ok(crate::split::slice_spec(h, sel))
    }
}

/// The hunks picks `1..=k` of a file make, in sub-hunk order: a whole pick is the sub-hunk,
/// an `@L` pick the slice of it; or the first slice that fails.
pub open spec fn pick_hunks(subs: Seq<HunkV>, pk: PicksV, k: int) -> Result<Seq<HunkV>, SelErr>
    decreases k,
{
    if k <= 0 {
        Ok(Seq::empty())
    } else {
        match pick_hunks(subs, pk, k - 1) {
            Err(e) => Err(e),
            Ok(hs) => if pk.whole.contains(k) {
                Ok(hs.push(subs[k - 1]))
            } else {
                match slice_sel(pk.lines, k) {
                    None => Ok(hs),
                    Some(sel) => match slice_result(subs[k - 1], sel) {
                        Ok(h) => Ok(hs.push(h)),
                        Err(e) => Err(SelErr::LineSelect(crate::split::split_msg(e))),
                    },
                }
            },
        }
    }
}

/// The entry declares the removal of its file.
pub open spec fn declares_deletion(f: FileV) -> bool {
    f.new_path == Some(crate::model::dev_null()) || exists|k: int|
        0 <= k < f.headers.len() && crate::bytes::is_prefix(
            crate::bytes::deleted_file_mode_bare(),
            #[trigger] f.headers[k],
        )
}

/// Some hunk keeps a context line.
pub open spec fn has_context(hs: Seq<HunkV>) -> bool {
    exists|i: int, j: int|
        0 <= i < hs.len() && 0 <= j < hs[i].lines.len() && (#[trigger] hs[i].lines[j]).kind
            == LineKind::Context
}

/// The text of the error for a partial selection of a deleted file.
pub open spec fn deletion_msg(f: FileV) -> Seq<char> {
    crate::text::lossy_utf8(
        match f.old_path {
            Some(b) => b,
            None => seq![63u8],
        },
    )
        + ": the entry deletes the file as a whole, so a partial @L selection cannot be expressed as one diff; select the sub-hunk whole, or stage the removal on its own"@
}

/// The first `k` trailer lines recorded after the last hunk (`at`), placed after the `out`
/// hunks of the result.
pub open spec fn tail_upto(t: Seq<(usize, Seq<u8>)>, at: int, out: usize, k: int) -> Seq<
    (usize, Seq<u8>),
>
    decreases k,
{
    if k <= 0 {
        Seq::empty()
    } else if t[k - 1].0 == at {
        tail_upto(t, at, out, k - 1).push((out, t[k - 1].1))
    } else {
        tail_upto(t, at, out, k - 1)
    }
}

/// The result entry for file entry `fi` and its picks, with whether it ends on the entry's
/// last line; or why the picks cannot be emitted.
pub open spec fn emit_file_spec(p: PatchV, fi: int, pk: PicksV) -> Result<(FileV, bool), SelErr> {
    let f = p.files[fi];
    let subs = file_subs_spec(f);
    let n = subs.len() as int;
    let src_hunks = f.content.hunk_count() as int;
    match f.content {
        ContentV::Binary(b) => {
            let tr = tail_upto(f.trailer, src_hunks, 0, f.trailer.len() as int);
            Ok((FileV { headers: f.headers, trailer: tr, old_path: f.old_path, new_path: f.new_path, content: f.content }, true))
        },
        ContentV::Text(_) => match first_conflict(pk, n) {
            Some(i) => Err(SelErr::LineSelect(conflict_msg(i))),
            None => match pick_hunks(subs, pk, n) {
                Err(e) => Err(e),
                Ok(hs) => if declares_deletion(f) && has_context(hs) {
                    Err(SelErr::LineSelect(deletion_msg(f)))
                } else {
                    let tr = tail_upto(f.trailer, src_hunks, hs.len() as usize, f.trailer.len() as int);
                    Ok(
                        (
                            FileV {
                                headers: f.headers,
                                trailer: tr,
                                old_path: f.old_path,
                                new_path: f.new_path,
                                content: ContentV::Text(hs),
                            },
                            (n > 0 && pk.whole.contains(n)) || tr.len() > 0,
                        ),
                    )
                },
            },
        },
    }
}

/// The result entries for the chosen files among the first `k`, the last of them, and whether
/// it ends on its last line; or the first failure.
pub open spec fn emit_upto(p: PatchV, ch: Seq<Option<PicksV>>, k: int) -> Result<
    (Seq<FileV>, Option<int>, bool),
    SelErr,
>
    decreases k,
{
    if k <= 0 {
        Ok((Seq::empty(), None, false))
    } else {
        match emit_upto(p, ch, k - 1) {
            Err(e) => Err(e),
            Ok(acc) => match ch[k - 1] {
                None => Ok(acc),
                Some(pk) => match emit_file_spec(p, k - 1, pk) {
                    Err(e) => Err(e),
                    Ok(fe) => Ok((acc.0.push(fe.0), Some(k - 1), fe.1)),
                },
            },
        }
    }
}

/// The diff of the chosen sub-hunks, before renumbering: the preamble, the chosen entries in
/// diff order, and the missing final newline only where the result ends on the input's last
/// line.
pub open spec fn emit_selection_spec(p: PatchV, ch: Seq<Option<PicksV>>) -> Result<PatchV, SelErr> {
    match emit_upto(p, ch, p.files.len() as int) {
        Err(e) => Err(e),
        Ok(acc) => Ok(
            PatchV {
                preamble: p.preamble,
                files: acc.0,
                no_trailing_newline: p.no_trailing_newline && acc.1 == Some(p.files.len() - 1)
                    && acc.2,
            },
        ),
    }
}

/// What selecting `sels` from `p` gives: the diff of the chosen sub-hunks with its new-side
/// starts recomputed, or the first failure; nothing chosen is an empty selection.
pub open spec fn select_spec(p: PatchV, sels: Seq<SelectorV>) -> Result<PatchV, SelErr> {
    match resolve_upto(p, sels, sels.len() as int) {
        Err(e) => Err(e),
        Ok(ch) => if forall|i: int| 0 <= i < ch.len() ==> (#[trigger] ch[i]) is None {
            Err(SelErr::EmptySelection)
        } else {
            match emit_selection_spec(p, ch) {
                Err(e) => Err(e),
                Ok(out) => Ok(crate::renumber::renumber_spec(out)),
            }
        },
    }
}

/// Every sub-hunk of an entry whose hunks fit has counts that fit a header.
pub proof fn lemma_subs_sides_fit(f: FileV)
    requires
        file_fits(f),
    ensures
        forall|j: int|
            0 <= j < file_subs_spec(f).len() ==> crate::model::sides_fit(
                (#[trigger] file_subs_spec(f)[j]).lines,
            ),
{
    if let ContentV::Text(hs) = f.content {
        lemma_subs_upto_sides_fit(hs, hs.len() as int);
    }
}

proof fn lemma_subs_upto_sides_fit(hs: Seq<HunkV>, k: int)
    requires
        0 <= k <= hs.len(),
        forall|j: int| 0 <= j < hs.len() ==> crate::split::splits_fit(#[trigger] hs[j]),
    ensures
        forall|j: int|
            0 <= j < subs_upto(hs, k).len() ==> crate::model::sides_fit(
                (#[trigger] subs_upto(hs, k)[j]).lines,
            ),
    decreases k,
{
    if k > 0 {
        lemma_subs_upto_sides_fit(hs, k - 1);
        let a = subs_upto(hs, k - 1);
        let h = hs[k - 1];
        assert(crate::split::splits_fit(h));
        let b = auto_split_spec(h);
        assert forall|j: int| 0 <= j < b.len() implies crate::model::sides_fit((#[trigger] b[j]).lines) by {
            let rs = crate::split::run_starts(h.lines);
            if rs.len() > 1 {
                crate::split::lemma_run_starts(h.lines);
                let n = h.lines.len() as int;
                let from = crate::split::auto_from(rs, j);
                let to = crate::split::auto_to(rs, n, j);
                if j + 1 < rs.len() {
                    assert(rs[j] < rs[j + 1]);
                }
                if j == 0 {
                    assert(0 <= rs[1]);
                }
                assert(0 <= from <= to <= n);
                crate::model::lemma_count_split3(h.lines, from, to, LineKind::Context);
                crate::model::lemma_count_split3(h.lines, from, to, LineKind::Add);
                crate::model::lemma_count_split3(h.lines, from, to, LineKind::Del);
            }
        }
        assert forall|j: int| 0 <= j < subs_upto(hs, k).len() implies crate::model::sides_fit(
            (#[trigger] subs_upto(hs, k)[j]).lines,
        ) by {
            if j < a.len() {
                assert(subs_upto(hs, k)[j] == a[j]);
            } else {
                assert(subs_upto(hs, k)[j] == b[j - a.len()]);
            }
        }
    }
}

proof fn lemma_subs_bounded(f: FileV)
    requires
        file_fits(f),
        match f.content {
            ContentV::Text(hs) => forall|j: int| 0 <= j < hs.len() ==> (#[trigger] hs[j]).lines.len() <= u32::MAX,
            ContentV::Binary(_) => true,
        },
    ensures
        forall|j: int|
            0 <= j < file_subs_spec(f).len() ==> crate::model::sides_fit(
                (#[trigger] file_subs_spec(f)[j]).lines,
            ) && file_subs_spec(f)[j].lines.len() <= u32::MAX,
{
    if let ContentV::Text(hs) = f.content {
        lemma_subs_upto_bounded(hs, hs.len() as int);
    }
}

proof fn lemma_subs_upto_bounded(hs: Seq<HunkV>, k: int)
    requires
        0 <= k <= hs.len(),
        forall|j: int| 0 <= j < hs.len() ==> crate::split::splits_fit(#[trigger] hs[j]),
        forall|j: int| 0 <= j < hs.len() ==> (#[trigger] hs[j]).lines.len() <= u32::MAX,
    ensures
        forall|j: int|
            0 <= j < subs_upto(hs, k).len() ==> crate::model::sides_fit(
                (#[trigger] subs_upto(hs, k)[j]).lines,
            ) && subs_upto(hs, k)[j].lines.len() <= u32::MAX,
    decreases k,
{
    if k > 0 {
        lemma_subs_upto_bounded(hs, k - 1);
        let a = subs_upto(hs, k - 1);
        let h = hs[k - 1];
        assert(crate::split::splits_fit(h));
        let b = auto_split_spec(h);
        assert forall|j: int| 0 <= j < b.len() implies crate::model::sides_fit((#[trigger] b[j]).lines)
            && b[j].lines.len() <= u32::MAX by {
            let rs = crate::split::run_starts(h.lines);
            if rs.len() > 1 {
                crate::split::lemma_run_starts(h.lines);
                let n = h.lines.len() as int;
                let from = crate::split::auto_from(rs, j);
                let to = crate::split::auto_to(rs, n, j);
                if j + 1 < rs.len() {
                    assert(rs[j] < rs[j + 1]);
                }
                if j == 0 {
                    assert(0 <= rs[1]);
                }
                assert(0 <= from <= to <= n);
                crate::model::lemma_count_split3(h.lines, from, to, LineKind::Context);
                crate::model::lemma_count_split3(h.lines, from, to, LineKind::Add);
                crate::model::lemma_count_split3(h.lines, from, to, LineKind::Del);
            }
        }
        assert forall|j: int| 0 <= j < subs_upto(hs, k).len() implies crate::model::sides_fit(
            (#[trigger] subs_upto(hs, k)[j]).lines,
        ) && subs_upto(hs, k)[j].lines.len() <= u32::MAX by {
            if j < a.len() {
                assert(subs_upto(hs, k)[j] == a[j]);
            } else {
                assert(subs_upto(hs, k)[j] == b[j - a.len()]);
            }
        }
    }
}

/// How many `@L` slices of `fp` name sub-hunk `i`.
fn count_slices(fp: &FilePicks, i: usize) -> (r: usize)
    ensures
        r == slice_count(fp@.lines, i as int),
{
    let ghost lv = fp@.lines;
    let mut c: usize = 0;
    let mut k: usize = 0;
    while k < fp.lines.len()
        invariant
            lv == fp@.lines,
            lv.len() == fp.lines@.len(),
            k <= lv.len(),
            c == slice_count(lv.subrange(0, k as int), i as int),
            c <= k,
        decreases lv.len() - k,
    {
        proof {
            assert(lv.subrange(0, k + 1).drop_last() =~= lv.subrange(0, k as int));
            assert(lv[k as int].0 == fp.lines@[k as int].0 as int);
        }
        if fp.lines[k].0 == i {
            c = c + 1;
        }
        k = k + 1;
    }
    proof {
        assert(lv.subrange(0, lv.len() as int) =~= lv);
    }
    c
}

/// The smallest sub-hunk of `1..=n` sliced together with another selection of it.
fn find_conflict(fp: &FilePicks, n: usize) -> (r: Option<usize>)
    requires
        fp.whole@.len() == n,
    ensures
        match r {
            Some(i) => first_conflict(fp@, n as int) == Some(i as int),
            None => first_conflict(fp@, n as int) is None,
        },
{
    let mut i: usize = 0;
    while i < n
        invariant
            fp.whole@.len() == n,
            i <= n,
            first_conflict(fp@, i as int) is None,
        decreases n - i,
    {
        let c = count_slices(fp, i + 1);
        proof {
            assert(fp@.whole.contains(i + 1) == fp.whole@[i as int]);
        }
        if c > 1 || (c == 1 && fp.whole[i]) {
            proof {
                lemma_first_conflict_stays(fp@, i + 1, n as int);
            }
            return Some(i + 1);
        }
        i = i + 1;
    }
    None
}

proof fn lemma_first_conflict_stays(pk: PicksV, k: int, m: int)
    requires
        0 <= k <= m,
        first_conflict(pk, k) is Some,
    ensures
        first_conflict(pk, m) == first_conflict(pk, k),
    decreases m - k,
{
    if m > k {
        lemma_first_conflict_stays(pk, k, m - 1);
    }
}

/// The `@L` slice of sub-hunk `i`, if `fp` has one.
fn slice_for(fp: &FilePicks, i: usize) -> (r: Option<&Vec<usize>>)
    ensures
        match r {
            Some(v) => slice_sel(fp@.lines, i as int) == Some(v@),
            None => slice_sel(fp@.lines, i as int) is None,
        },
{
    let ghost lv = fp@.lines;
    let mut found: Option<&Vec<usize>> = None;
    let mut k: usize = 0;
    while k < fp.lines.len()
        invariant
            lv == fp@.lines,
            lv.len() == fp.lines@.len(),
            k <= lv.len(),
            match found {
                Some(v) => slice_sel(lv.subrange(0, k as int), i as int) == Some(v@),
                None => slice_sel(lv.subrange(0, k as int), i as int) is None,
            },
        decreases lv.len() - k,
    {
        proof {
            assert(lv.subrange(0, k + 1).drop_last() =~= lv.subrange(0, k as int));
            assert(lv[k as int] == (fp.lines@[k as int].0 as int, fp.lines@[k as int].1@));
        }
        if fp.lines[k].0 == i {
            found = Some(&fp.lines[k].1);
        }
        k = k + 1;
    }
    proof {
        assert(lv.subrange(0, lv.len() as int) =~= lv);
    }
    found
}

/// Every hunk's counts fit a header.
spec fn all_sides_fit(hs: Seq<HunkV>) -> bool {
    forall|j: int| 0 <= j < hs.len() ==> crate::model::sides_fit((#[trigger] hs[j]).lines)
}

/// Every sub-hunk can be cut: its counts fit a header and it holds at most `u32::MAX` lines.
spec fn subs_bounded(subs: Seq<HunkV>) -> bool {
    forall|j: int|
        0 <= j < subs.len() ==> crate::model::sides_fit((#[trigger] subs[j]).lines)
            && subs[j].lines.len() <= u32::MAX
}

/// Slice `h` down to `sel`, mapping a refusal to a selection error.
fn cut(h: &Hunk, sel: &Vec<usize>) -> (r: Result<Hunk, SelectError>)
    requires
        crate::model::sides_fit(h@.lines),
        h@.lines.len() <= u32::MAX,
    ensures
        match r {
            Ok(p) => slice_result(h@, sel@) == Ok::<HunkV, crate::split::SplitError>(p@)
                && crate::model::sides_fit(p@.lines),
            Err(e) => slice_result(h@, sel@) matches Err(se) && e@ == SelErr::LineSelect(
                crate::split::split_msg(se),
            ),
        },
{
    match crate::split::slice_changed_lines(h, sel.as_slice()) {
        Ok(p) => {
            proof {
                lemma_seq_max(sel@);
            }
            Ok(p)
        },
        Err(e) => {
            proof {
                if sel@.len() > 0 {
                    lemma_seq_max(sel@);
                }
            }
            Err(SelectError::LineSelect(e.message()))
        },
    }
}

/// Turn one file's picks into its hunks, in sub-hunk order.
fn materialise_picks(subs: &Vec<Hunk>, fp: &FilePicks) -> (r: Result<Vec<Hunk>, SelectError>)
    requires
        fp.whole@.len() == subs@.len(),
        subs_bounded(hunks_of(subs@)),
    ensures
        match r {
            Ok(hs) => pick_hunks(hunks_of(subs@), fp@, subs@.len() as int) == Ok::<
                Seq<HunkV>,
                SelErr,
            >(hunks_of(hs@)) && all_sides_fit(hunks_of(hs@)),
            Err(e) => pick_hunks(hunks_of(subs@), fp@, subs@.len() as int) == Err::<
                Seq<HunkV>,
                SelErr,
            >(e@),
        },
{
    let ghost sv = hunks_of(subs@);
    let n = subs.len();
    let mut out: Vec<Hunk> = Vec::new();
    proof {
        assert(hunks_of(out@) =~= Seq::<HunkV>::empty());
    }
    let mut i: usize = 0;
    while i < n
        invariant
            sv == hunks_of(subs@),
            n == subs@.len(),
            fp.whole@.len() == n,
            subs_bounded(sv),
            i <= n,
            pick_hunks(sv, fp@, i as int) == Ok::<Seq<HunkV>, SelErr>(hunks_of(out@)),
            all_sides_fit(hunks_of(out@)),
        decreases n - i,
    {
        let ghost before = hunks_of(out@);
        proof {
            assert(fp@.whole.contains(i + 1) == fp.whole@[i as int]);
            assert(subs@[i as int]@ == sv[i as int]);
            assert(crate::model::sides_fit(sv[i as int].lines));
        }
        if fp.whole[i] {
            let h = subs[i].clone_hunk();
            out.push(h);
            proof {
                assert(hunks_of(out@) =~= before.push(sv[i as int]));
            }
        } else {
            match slice_for(fp, i + 1) {
                None => {},
                Some(sel) => {
                    match cut(&subs[i], sel) {
                        Ok(p) => {
                            let ghost pv = p@;
                            out.push(p);
                            proof {
                                assert(hunks_of(out@) =~= before.push(pv));
                            }
                        },
                        Err(e) => {
                            proof {
                                lemma_pick_err_stays(sv, fp@, i + 1, n as int, e@);
                            }
                            return Err(e);
                        },
                    }
                },
            }
        }
        i = i + 1;
    }
    Ok(out)
}

proof fn lemma_pick_err_stays(subs: Seq<HunkV>, pk: PicksV, k: int, m: int, e: SelErr)
    requires
        0 <= k <= m,
        pick_hunks(subs, pk, k) == Err::<Seq<HunkV>, SelErr>(e),
    ensures
        pick_hunks(subs, pk, m) == Err::<Seq<HunkV>, SelErr>(e),
    decreases m - k,
{
    if m > k {
        lemma_pick_err_stays(subs, pk, k, m - 1, e);
    }
}

/// Whether the entry declares the removal of its file.
fn declares_deletion_exec(f: &FileDiff) -> (r: bool)
    ensures
        r == declares_deletion(f@),
{
    let null = crate::bytes::dev_null_lit_bytes();
    proof {
        assert(crate::bytes::dev_null_lit() =~= crate::model::dev_null());
    }
    if path_is(&f.new_path, null) {
        return true;
    }
    let marker = crate::bytes::deleted_file_mode_bare_bytes();
    let mut k: usize = 0;
    while k < f.headers.len()
        invariant
            k <= f.headers@.len(),
            marker@ == crate::bytes::deleted_file_mode_bare(),
            forall|j: int|
                0 <= j < k ==> !crate::bytes::is_prefix(
                    crate::bytes::deleted_file_mode_bare(),
                    #[trigger] f@.headers[j],
                ),
            f@.new_path != Some(crate::model::dev_null()),
        decreases f.headers@.len() - k,
    {
        proof {
            assert(f@.headers[k as int] == f.headers@[k as int]@);
        }
        if crate::bytes::starts_with(f.headers[k].as_slice(), marker) {
            return true;
        }
        k = k + 1;
    }
    false
}

/// Whether some hunk keeps a context line.
fn has_context_exec(hs: &Vec<Hunk>) -> (r: bool)
    ensures
        r == has_context(hunks_of(hs@)),
{
    let ghost hv = hunks_of(hs@);
    let mut i: usize = 0;
    while i < hs.len()
        invariant
            hv == hunks_of(hs@),
            i <= hs@.len(),
            forall|a: int, b: int|
                0 <= a < i && 0 <= b < hv[a].lines.len() ==> (#[trigger] hv[a].lines[b]).kind
                    != LineKind::Context,
        decreases hs@.len() - i,
    {
        let h = &hs[i];
        proof {
            assert(h@ == hv[i as int]);
        }
        let mut j: usize = 0;
        while j < h.lines.len()
            invariant
                h@ == hv[i as int],
                hv == hunks_of(hs@),
                i < hs@.len(),
                j <= h.lines@.len(),
                forall|b: int| 0 <= b < j ==> (#[trigger] hv[i as int].lines[b]).kind != LineKind::Context,
            decreases h.lines@.len() - j,
        {
            proof {
                assert(h.lines@[j as int]@ == hv[i as int].lines[j as int]);
            }
            if h.lines[j].kind == LineKind::Context {
                proof {
                    assert(hv[i as int].lines[j as int].kind == LineKind::Context);
                }
                return true;
            }
            j = j + 1;
        }
        i = i + 1;
    }
    false
}

/// The trailer lines recorded after hunk `at`, placed after `out` hunks.
fn tail_lines(f: &FileDiff, at: usize, out: usize) -> (r: Vec<(usize, Vec<u8>)>)
    ensures
        trailer_view(r@) == tail_upto(f@.trailer, at as int, out, f@.trailer.len() as int),
{
    let ghost tv = f@.trailer;
    let mut r: Vec<(usize, Vec<u8>)> = Vec::new();
    let mut k: usize = 0;
    while k < f.trailer.len()
        invariant
            tv == f@.trailer,
            tv.len() == f.trailer@.len(),
            k <= tv.len(),
            trailer_view(r@) == tail_upto(tv, at as int, out, k as int),
        decreases tv.len() - k,
    {
        proof {
            assert(tv[k as int] == (f.trailer@[k as int].0, f.trailer@[k as int].1@));
        }
        if f.trailer[k].0 == at {
            let ghost before = trailer_view(r@);
            r.push((out, crate::model::clone_bytes(&f.trailer[k].1)));
            proof {
                assert(trailer_view(r@) =~= before.push((out, tv[k as int].1)));
            }
        }
        k = k + 1;
    }
    r
}

/// The result entry for file entry `fi` and its picks, and whether it ends on its last line.
fn emit_file(patch: &Patch, fi: usize, fp: &FilePicks, subs: &Vec<Hunk>) -> (r: Result<
    (FileDiff, bool),
    SelectError,
>)
    requires
        fi < patch@.files.len(),
        hunks_of(subs@) == file_subs_spec(patch@.files[fi as int]),
        fp.whole@.len() == subs@.len(),
        subs_bounded(hunks_of(subs@)),
    ensures
        match r {
            Ok(fe) => emit_file_spec(patch@, fi as int, fp@) == Ok::<(FileV, bool), SelErr>(
                (fe.0@, fe.1),
            ) && (fe.0@.content matches ContentV::Text(hs) ==> all_sides_fit(hs)),
            Err(e) => emit_file_spec(patch@, fi as int, fp@) == Err::<(FileV, bool), SelErr>(e@),
        },
{
    let src = &patch.files[fi];
    let ghost fv = patch@.files[fi as int];
    proof {
        assert(src@ == fv);
    }
    let src_hunks = src.hunk_count();
    match &src.content {
        FileContent::Binary(b) => {
            let trailer = tail_lines(src, src_hunks, 0);
            let f = FileDiff {
                headers: crate::model::clone_byte_lines(&src.headers),
                trailer,
                old_path: crate::model::clone_opt_bytes(&src.old_path),
                new_path: crate::model::clone_opt_bytes(&src.new_path),
                content: FileContent::Binary(crate::model::clone_byte_lines(b)),
            };
            Ok((f, true))
        },
        FileContent::Text(_) => {
            let n = subs.len();
            match find_conflict(fp, n) {
                Some(i) => {
                    let mut msg = String::from_str("sub-hunk ");
                    msg.append(crate::text::dec_string(i as u64).as_str());
                    msg.append(
                        " is addressed by @L together with another selection of the same sub-hunk; address it once, or stage the pieces in separate rounds",
                    );
                    return Err(SelectError::LineSelect(msg));
                },
                None => {},
            }
            let hunks = match materialise_picks(subs, fp) {
                Ok(h) => h,
                Err(e) => return Err(e),
            };
            if declares_deletion_exec(src) && has_context_exec(&hunks) {
                let mut msg = match &src.old_path {
                    Some(p) => crate::text::lossy_string(p.as_slice()),
                    None => {
                        let q: [u8; 1] = [63];
                        proof {
                            assert(q@ =~= seq![63u8]);
                        }
                        crate::text::lossy_string(&q)
                    },
                };
                msg.append(
                    ": the entry deletes the file as a whole, so a partial @L selection cannot be expressed as one diff; select the sub-hunk whole, or stage the removal on its own",
                );
                return Err(SelectError::LineSelect(msg));
            }
            let out_hunks = hunks.len();
            let trailer = tail_lines(src, src_hunks, out_hunks);
            let ends = (n > 0 && fp.whole[n - 1]) || trailer.len() > 0;
            proof {
                if n > 0 {
                    assert(fp@.whole.contains(n as int) == fp.whole@[n - 1]);
                }
                assert(trailer_view(trailer@).len() == trailer@.len());
            }
            let ghost hv = hunks_of(hunks@);
            let f = FileDiff {
                headers: crate::model::clone_byte_lines(&src.headers),
                trailer,
                old_path: crate::model::clone_opt_bytes(&src.old_path),
                new_path: crate::model::clone_opt_bytes(&src.new_path),
                content: FileContent::Text(hunks),
            };
            proof {
                assert(f@.content == ContentV::Text(hv));
            }
            Ok((f, ends))
        },
    }
}

proof fn lemma_emit_err_stays(p: PatchV, ch: Seq<Option<PicksV>>, k: int, m: int, e: SelErr)
    requires
        0 <= k <= m,
        emit_upto(p, ch, k) == Err::<(Seq<FileV>, Option<int>, bool), SelErr>(e),
    ensures
        emit_upto(p, ch, m) == Err::<(Seq<FileV>, Option<int>, bool), SelErr>(e),
    decreases m - k,
{
    if m > k {
        lemma_emit_err_stays(p, ch, k, m - 1, e);
    }
}

/// Emission phase: the diff of the chosen files' picks, in diff order.
fn emit_selection(patch: &Patch, chosen: &Vec<Option<FilePicks>>, view: &Vec<Vec<Hunk>>) -> (r:
    Result<Patch, SelectError>)
    requires
        view@.len() == patch@.files.len(),
        forall|i: int|
            0 <= i < view@.len() ==> hunks_of(#[trigger] view@[i]@) == file_subs_spec(
                patch@.files[i],
            ),
        forall|i: int| 0 <= i < view@.len() ==> subs_bounded(#[trigger] hunks_of(view@[i]@)),
        chosen_wf(patch@, chosen@),
    ensures
        match r {
            Ok(out) => emit_selection_spec(patch@, chosen_view(chosen@)) == Ok::<PatchV, SelErr>(
                out@,
            ) && crate::renumber::bodies_fit(out@),
            Err(e) => emit_selection_spec(patch@, chosen_view(chosen@)) == Err::<PatchV, SelErr>(
                e@,
            ),
        },
{
    let ghost pv = patch@;
    let ghost cv = chosen_view(chosen@);
    let mut files: Vec<FileDiff> = Vec::new();
    let mut last: Option<usize> = None;
    let mut ends = false;
    let mut fi: usize = 0;
    proof {
        assert(files_view(files@) =~= Seq::<FileV>::empty());
    }
    while fi < chosen.len()
        invariant
            pv == patch@,
            cv == chosen_view(chosen@),
            view@.len() == pv.files.len(),
            forall|i: int|
                0 <= i < view@.len() ==> hunks_of(#[trigger] view@[i]@) == file_subs_spec(
                    pv.files[i],
                ),
            forall|i: int| 0 <= i < view@.len() ==> subs_bounded(#[trigger] hunks_of(view@[i]@)),
            chosen_wf(pv, chosen@),
            fi <= chosen@.len(),
            match last {
                Some(l) => l < fi,
                None => true,
            },
            emit_upto(pv, cv, fi as int) == Ok::<(Seq<FileV>, Option<int>, bool), SelErr>(
                (
                    files_view(files@),
                    match last {
                        Some(l) => Some(l as int),
                        None => None,
                    },
                    ends,
                ),
            ),
            crate::renumber::bodies_fit(
                PatchV { preamble: pv.preamble, files: files_view(files@), no_trailing_newline: false },
            ),
        decreases chosen@.len() - fi,
    {
        proof {
            assert(cv[fi as int] == match chosen@[fi as int] {
                Some(fp) => Some(fp@),
                None => None::<PicksV>,
            });
        }
        match &chosen[fi] {
            None => {},
            Some(fp) => {
                proof {
                    assert(hunks_of(view@[fi as int]@) == file_subs_spec(pv.files[fi as int]));
                    assert(subs_bounded(hunks_of(view@[fi as int]@)));
                }
                match emit_file(patch, fi, fp, &view[fi]) {
                    Err(e) => {
                        proof {
                            lemma_emit_err_stays(pv, cv, fi + 1, pv.files.len() as int, e@);
                        }
                        return Err(e);
                    },
                    Ok((f, e)) => {
                        let ghost fv = f@;
                        let ghost before = files_view(files@);
                        files.push(f);
                        proof {
                            assert(files_view(files@) =~= before.push(fv));
                            let q = PatchV {
                                preamble: pv.preamble,
                                files: files_view(files@),
                                no_trailing_newline: false,
                            };
                            let q0 = PatchV {
                                preamble: pv.preamble,
                                files: before,
                                no_trailing_newline: false,
                            };
                            assert forall|a: int|
                                0 <= a < q.files.len() && (#[trigger] q.files[a]).content is Text implies forall|
                                hi: int,
                            |
                                0 <= hi < q.files[a].content->Text_0.len() ==> crate::model::sides_fit(
                                    #[trigger] q.files[a].content->Text_0[hi].lines,
                                ) by {
                                if a < before.len() {
                                    assert(q.files[a] == q0.files[a]);
                                }
                            }
                        }
                        last = Some(fi);
                        ends = e;
                    },
                }
            },
        }
        fi = fi + 1;
    }
    let out = Patch {
        preamble: crate::model::clone_byte_lines(&patch.preamble),
        files,
        no_trailing_newline: patch.no_trailing_newline && match last {
            Some(l) => patch.files.len() > 0 && l == patch.files.len() - 1,
            None => false,
        } && ends,
    };
    Ok(out)
}

/// Every hunk of the diff can be split and sliced.
pub fn patch_in_bounds(patch: &Patch) -> (r: bool)
    ensures
        r == patch_fits(patch@),
{
    let mut i: usize = 0;
    while i < patch.files.len()
        invariant
            i <= patch@.files.len(),
            forall|q: int|
                0 <= q < i ==> file_fits(#[trigger] patch@.files[q]) && match patch@.files[q].content {
                    ContentV::Text(hs) => forall|j: int|
                        0 <= j < hs.len() ==> (#[trigger] hs[j]).lines.len() <= u32::MAX,
                    ContentV::Binary(_) => true,
                },
        decreases patch@.files.len() - i,
    {
        let f = &patch.files[i];
        proof {
            assert(f@ == patch@.files[i as int]);
        }
        match &f.content {
            FileContent::Text(hunks) => {
                let ghost hs = hunks_view(hunks@);
                proof {
                    assert(f@.content == ContentV::Text(hs));
                }
                let mut j: usize = 0;
                while j < hunks.len()
                    invariant
                        hs == hunks_view(hunks@),
                        f@ == patch@.files[i as int],
                        f@.content == ContentV::Text(hs),
                        i < patch@.files.len(),
                        j <= hs.len(),
                        forall|q: int| 0 <= q < j ==> crate::split::splits_fit(#[trigger] hs[q]) && hs[q].lines.len() <= u32::MAX,
                    decreases hs.len() - j,
                {
                    let h = &hunks[j];
                    proof {
                        assert(h@ == hs[j as int]);
                        assert(h@.lines.len() == h.lines@.len());
                        assert(h@.body_old() == crate::model::count_of(h@.lines, LineKind::Context) + crate::model::count_of(h@.lines, LineKind::Del));
                        crate::model::lemma_count_total(h@.lines);
                    }
                    if h.lines.len() > 0xffff_ffff {
                        proof {
                            assert(patch@.files[i as int].content == ContentV::Text(hs));
                            assert(patch@.files[i as int].content->Text_0[j as int] == hs[j as int]);
                            assert(!(hs[j as int].lines.len() <= u32::MAX));
                            assert(!patch_fits(patch@));
                        }
                        return false;
                    }
                    if !crate::split::splits_in_bounds(h) {
                        proof {
                            assert(patch@.files[i as int].content == ContentV::Text(hs));
                            assert(patch@.files[i as int].content->Text_0[j as int] == hs[j as int]);
                            assert(!crate::split::splits_fit(hs[j as int]));
                            assert(!file_fits(patch@.files[i as int]));
                        }
                        return false;
                    }
                    j = j + 1;
                }
            },
            FileContent::Binary(_) => {},
        }
        i = i + 1;
    }
    true
}

/// Build the diff of the sub-hunks `selectors` address, with its new-side starts recomputed
/// so it stands on its own. The selectors are resolved in order and the first that fails is
/// the error; no selector at all is an empty selection. Files come in diff order, and each
/// file's sub-hunks in sub-hunk order.
pub fn select(patch: &Patch, selectors: &[Selector]) -> (r: Result<Patch, SelectError>)
    requires
        patch_fits(patch@),
        selectors_wf(selectors_view(selectors@)),
    ensures
        match r {
            Ok(out) => select_spec(patch@, selectors_view(selectors@)) == Ok::<PatchV, SelErr>(
                out@,
            ),
            Err(e) => select_spec(patch@, selectors_view(selectors@)) == Err::<PatchV, SelErr>(
                e@,
            ),
        },
        r matches Ok(out) ==> crate::renumber::bodies_fit(out@),
{
    proof {
        assert forall|i: int| 0 <= i < patch@.files.len() implies file_fits(
            #[trigger] patch@.files[i],
        ) by {}
    }
    let view = build_view(patch);
    proof {
        assert forall|i: int| 0 <= i < view@.len() implies subs_bounded(
            #[trigger] hunks_of(view@[i]@),
        ) by {
            lemma_subs_bounded(patch@.files[i]);
        }
    }
    let chosen = match resolve_selectors(patch, &view, selectors) {
        Ok(c) => c,
        Err(e) => return Err(e),
    };
    let ghost cv = chosen_view(chosen@);
    let mut any = false;
    let mut i: usize = 0;
    while i < chosen.len()
        invariant
            cv == chosen_view(chosen@),
            i <= chosen@.len(),
            any == exists|j: int| 0 <= j < i && (#[trigger] cv[j]) is Some,
        decreases chosen@.len() - i,
    {
        proof {
            assert(cv[i as int] is Some == chosen@[i as int] is Some);
        }
        if chosen[i].is_some() {
            any = true;
        }
        i = i + 1;
    }
    if !any {
        return Err(SelectError::EmptySelection);
    }
    let mut out = match emit_selection(patch, &chosen, &view) {
        Ok(o) => o,
        Err(e) => return Err(e),
    };
    let ghost old_out = out;
    crate::renumber::renumber_new_side(&mut out);
    proof {
        crate::renumber::lemma_renumber_moves_only_new_starts(old_out@);
    }
    Ok(out)
}

/// How many indices one invocation may materialise, across all selectors.
pub const MAX_SELECTOR_INDICES: usize = 1048576;

/// Why an index set failed to parse.
#[derive(Debug, PartialEq, Eq)]
enum SetParseError {
    Empty,
    NotANumber(Vec<u8>),
    ZeroBound,
    ReversedRange { lo: usize, hi: usize },
    TooLarge,
    /// The removed `INDEX@lo-hi` form: anything after `@` that is not an `L<set>`.
    RemovedRange,
}

/// Mathematical view of an index-set parse error.
pub enum SetErr {
    Empty,
    NotANumber(Seq<u8>),
    ZeroBound,
    ReversedRange { lo: usize, hi: usize },
    TooLarge,
    RemovedRange,
}

impl View for SetParseError {
    type V = SetErr;

    closed spec fn view(&self) -> SetErr {
        match self {
            SetParseError::Empty => SetErr::Empty,
            SetParseError::NotANumber(s) => SetErr::NotANumber(s@),
            SetParseError::ZeroBound => SetErr::ZeroBound,
            SetParseError::ReversedRange { lo, hi } => SetErr::ReversedRange { lo: *lo, hi: *hi },
            SetParseError::TooLarge => SetErr::TooLarge,
            SetParseError::RemovedRange => SetErr::RemovedRange,
        }
    }
}

/// The text of an index-set parse error.
pub open spec fn set_err_msg(e: SetErr) -> Seq<char> {
    match e {
        SetErr::Empty => "empty index set"@,
        SetErr::NotANumber(s) => "not a number: "@ + crate::text::lossy_utf8(s),
        SetErr::ZeroBound => "indices are 1-based, 0 is not valid"@,
        SetErr::ReversedRange { lo, hi } => "reversed range: "@ + crate::text::dec_chars(lo as nat)
            + "-"@ + crate::text::dec_chars(hi as nat),
        SetErr::TooLarge => "range too large: at most 1048576 indices across all selectors"@,
        SetErr::RemovedRange => "the @lo-hi range form was removed; use @L"@,
    }
}

impl SetParseError {
    fn message(&self) -> (r: String)
        ensures
            r@ == set_err_msg(self@),
    {
        match self {
            SetParseError::Empty => String::from_str("empty index set"),
            SetParseError::NotANumber(s) => {
                let mut m = String::from_str("not a number: ");
                m.append(crate::text::lossy_string(s.as_slice()).as_str());
                m
            },
            SetParseError::ZeroBound => String::from_str("indices are 1-based, 0 is not valid"),
            SetParseError::ReversedRange { lo, hi } => {
                let mut m = String::from_str("reversed range: ");
                m.append(crate::text::dec_string(*lo as u64).as_str());
                m.append("-");
                m.append(crate::text::dec_string(*hi as u64).as_str());
                m
            },
            SetParseError::TooLarge => String::from_str(
                "range too large: at most 1048576 indices across all selectors",
            ),
            SetParseError::RemovedRange => String::from_str(
                "the @lo-hi range form was removed; use @L",
            ),
        }
    }
}

/// The value of a string of decimal digits.
pub open spec fn dec_value(s: Seq<u8>) -> nat
    decreases s.len(),
{
    if s.len() == 0 {
        0
    } else {
        dec_value(s.drop_last()) * 10 + (s.last() - 48) as nat
    }
}

/// What `str::parse::<usize>` reads from `s`: an optional `+`, then one or more decimal digits
/// whose value fits in a `usize`.
pub open spec fn parse_usize_spec(s: Seq<u8>) -> Option<usize> {
    let d = unsigned_digits(s);
    if d.len() == 0 || !all_digits(d) || dec_value(d) > usize::MAX {
        None
    } else {
        Some(dec_value(d) as usize)
    }
}

/// A number's digits: what follows an optional leading `+`.
pub open spec fn unsigned_digits(s: Seq<u8>) -> Seq<u8> {
    if s.len() > 0 && s[0] == 43 {
        s.drop_first()
    } else {
        s
    }
}

/// Every byte is a decimal digit.
pub open spec fn all_digits(d: Seq<u8>) -> bool {
    forall|i: int| 0 <= i < d.len() ==> #[trigger] crate::bytes::is_digit(d[i])
}

/// A 1-based position: a number that is not 0.
pub open spec fn parse_pos_spec(s: Seq<u8>) -> Result<usize, SetErr> {
    match parse_usize_spec(s) {
        None => Err(SetErr::NotANumber(s)),
        Some(n) => if n == 0 {
            Err(SetErr::ZeroBound)
        } else {
            Ok(n)
        },
    }
}

/// The pieces of `s` between the bytes `c`, in order.
pub open spec fn fields(s: Seq<u8>, c: u8) -> Seq<Seq<u8>>
    decreases s.len(),
{
    match crate::bytes::first_of(s, c) {
        None => seq![s],
        Some(i) => {
            proof {
                crate::bytes::lemma_first_of(s, c);
            }
            seq![s.subrange(0, i)] + fields(s.subrange(i + 1, s.len() as int), c)
        },
    }
}

/// The indices `lo..=hi`.
pub open spec fn range_seq(lo: usize, hi: usize) -> Seq<usize> {
    Seq::new((hi - lo + 1) as nat, |i: int| (lo + i) as usize)
}

/// One comma-separated part of an index list against the allowance `budget`: its indices and
/// what is left of the allowance, or the failure and what is left then.
pub open spec fn list_part(part: Seq<u8>, budget: nat) -> (Result<Seq<usize>, SetErr>, nat) {
    match crate::bytes::first_of(part, 45) {
        Some(i) => match parse_pos_spec(part.subrange(0, i)) {
            Err(e) => (Err(e), budget),
            Ok(lo) => match parse_pos_spec(part.subrange(i + 1, part.len() as int)) {
                Err(e) => (Err(e), budget),
                Ok(hi) => if hi < lo {
                    (Err(SetErr::ReversedRange { lo, hi }), budget)
                } else if budget < hi - lo + 1 {
                    (Err(SetErr::TooLarge), budget)
                } else {
                    (Ok(range_seq(lo, hi)), (budget - (hi - lo + 1)) as nat)
                },
            },
        },
        None => if budget < 1 {
            (Err(SetErr::TooLarge), budget)
        } else {
            match parse_pos_spec(part) {
                Err(e) => (Err(e), (budget - 1) as nat),
                Ok(n) => (Ok(seq![n]), (budget - 1) as nat),
            }
        },
    }
}

/// The first `k` parts of an index list, in order.
pub open spec fn list_upto(parts: Seq<Seq<u8>>, k: int, budget: nat) -> (Result<Seq<usize>, SetErr>, nat)
    decreases k,
{
    if k <= 0 {
        (Ok(Seq::empty()), budget)
    } else {
        let (r, b) = list_upto(parts, k - 1, budget);
        match r {
            Err(e) => (Err(e), b),
            Ok(v) => {
                let (r2, b2) = list_part(parts[k - 1], b);
                match r2 {
                    Err(e) => (Err(e), b2),
                    Ok(w) => (Ok(v + w), b2),
                }
            },
        }
    }
}

/// A comma-separated list of indices and ranges.
pub open spec fn parse_list_spec(s: Seq<u8>, budget: nat) -> (Result<Seq<usize>, SetErr>, nat) {
    if s.len() == 0 {
        (Err(SetErr::Empty), budget)
    } else {
        list_upto(fields(s, 44), fields(s, 44).len() as int, budget)
    }
}

/// An index set: `*`, `INDEX@L<list>`, or a list.
pub open spec fn parse_set_spec(s: Seq<u8>, budget: nat) -> (Result<IndexSetV, SetErr>, nat) {
    if s == seq![42u8] {
        (Ok(IndexSetV::All), budget)
    } else {
        match crate::bytes::first_of(s, 64) {
            Some(i) => match parse_pos_spec(s.subrange(0, i)) {
                Err(e) => (Err(e), budget),
                Ok(index) => {
                    let rest = s.subrange(i + 1, s.len() as int);
                    if rest.len() == 0 || rest[0] != 76 {
                        (Err(SetErr::RemovedRange), budget)
                    } else {
                        let (r, b) = parse_list_spec(rest.drop_first(), budget);
                        match r {
                            Err(e) => (Err(e), b),
                            Ok(lines) => (Ok(IndexSetV::LineSet { index, lines }), b),
                        }
                    }
                },
            },
            None => {
                let (r, b) = parse_list_spec(s, budget);
                match r {
                    Err(e) => (Err(e), b),
                    Ok(v) => (Ok(IndexSetV::List(v)), b),
                }
            },
        }
    }
}

proof fn lemma_dec_value_grows(s: Seq<u8>, k: int)
    requires
        0 <= k <= s.len(),
    ensures
        dec_value(s.subrange(0, k)) <= dec_value(s),
    decreases s.len() - k,
{
    if k < s.len() {
        lemma_dec_value_grows(s, k + 1);
        assert(s.subrange(0, k + 1).drop_last() =~= s.subrange(0, k));
    } else {
        assert(s.subrange(0, k) =~= s);
    }
}

/// Read a number as `str::parse::<usize>` does.
fn parse_usize(s: &[u8]) -> (r: Option<usize>)
    ensures
        r == parse_usize_spec(s@),
{
    let start: usize = if s.len() > 0 && s[0] == 43 {
        1
    } else {
        0
    };
    let ghost d = unsigned_digits(s@);
    proof {
        assert(d =~= s@.subrange(start as int, s@.len() as int));
    }
    if start == s.len() {
        return None;
    }
    let mut v: usize = 0;
    let mut i: usize = start;
    while i < s.len()
        invariant
            start <= i <= s@.len(),
            start < s@.len(),
            d == s@.subrange(start as int, s@.len() as int),
            d == unsigned_digits(s@),
            forall|j: int| 0 <= j < i - start ==> #[trigger] crate::bytes::is_digit(d[j]),
            v == dec_value(d.subrange(0, i - start)),
        decreases s@.len() - i,
    {
        let b = s[i];
        let k = i - start;
        proof {
            assert(d[k as int] == b);
        }
        if b < 48 || b > 57 {
            proof {
                assert(!crate::bytes::is_digit(d[k as int]));
                assert(!all_digits(d));
            }
            return None;
        }
        proof {
            assert(d.subrange(0, k + 1).drop_last() =~= d.subrange(0, k as int));
            assert(d.subrange(0, k + 1).last() == b);
        }
        let m = match v.checked_mul(10) {
            Some(m) => m,
            None => {
                proof {
                    assert(dec_value(d.subrange(0, k + 1)) >= v * 10);
                    lemma_dec_value_grows(d, k + 1);
                }
                return None;
            },
        };
        let n = match m.checked_add((b - 48) as usize) {
            Some(n) => n,
            None => {
                proof {
                    lemma_dec_value_grows(d, k + 1);
                }
                return None;
            },
        };
        v = n;
        i = i + 1;
    }
    proof {
        assert(d.subrange(0, s@.len() - start) =~= d);
    }
    Some(v)
}

/// Read a 1-based position.
fn parse_pos(s: &[u8]) -> (r: Result<usize, SetParseError>)
    ensures
        match r {
            Ok(n) => parse_pos_spec(s@) == Ok::<usize, SetErr>(n),
            Err(e) => parse_pos_spec(s@) == Err::<usize, SetErr>(e@),
        },
{
    match parse_usize(s) {
        None => {
            let e = SetParseError::NotANumber(crate::bytes::to_vec(s));
            proof {
                assert(e@ == SetErr::NotANumber(s@));
            }
            Err(e)
        },
        Some(n) => if n == 0 {
            Err(SetParseError::ZeroBound)
        } else {
            Ok(n)
        },
    }
}

/// What is left of the index allowance for the rest of the invocation.
struct IndexBudget {
    left: usize,
}

impl IndexBudget {
    fn new() -> (r: IndexBudget)
        ensures
            r.left == MAX_SELECTOR_INDICES,
    {
        IndexBudget { left: MAX_SELECTOR_INDICES }
    }

    /// Claim `n` indices, or refuse when the allowance is spent.
    fn take(&mut self, n: usize) -> (r: Result<(), SetParseError>)
        ensures
            old(self).left >= n ==> r is Ok && final(self).left == old(self).left - n,
            old(self).left < n ==> (r matches Err(e) && e@ == SetErr::TooLarge),
            old(self).left < n ==> final(self).left == old(self).left,
    {
        match self.left.checked_sub(n) {
            Some(l) => {
                self.left = l;
                Ok(())
            },
            None => Err(SetParseError::TooLarge),
        }
    }
}

proof fn lemma_fields_step(s: Seq<u8>, c: u8, i: int)
    requires
        0 <= i < s.len(),
        s[i] == c,
        forall|j: int| 0 <= j < i ==> s[j] != c,
    ensures
        fields(s, c) == seq![s.subrange(0, i)] + fields(s.subrange(i + 1, s.len() as int), c),
{
    crate::bytes::lemma_first_of_unique(s, c, i);
}

proof fn lemma_fields_last(s: Seq<u8>, c: u8)
    requires
        forall|j: int| 0 <= j < s.len() ==> s[j] != c,
    ensures
        fields(s, c) == seq![s],
{
    crate::bytes::lemma_first_of(s, c);
}

/// Parse one comma-separated part of an index list onto `out`.
fn parse_list_part(part: &[u8], budget: &mut IndexBudget, out: &mut Vec<usize>) -> (r: Result<
    (),
    SetParseError,
>)
    ensures
        ({
            let (res, b) = list_part(part@, old(budget).left as nat);
            &&& final(budget).left == b
            &&& match r {
                Ok(()) => res == Ok::<Seq<usize>, SetErr>(final(out)@.subrange(old(out)@.len() as int, final(out)@.len() as int))
                    && final(out)@.subrange(0, old(out)@.len() as int) == old(out)@
                    && final(out)@.len() >= old(out)@.len(),
                Err(e) => res == Err::<Seq<usize>, SetErr>(e@),
            }
        }),
{
    proof {
        crate::bytes::lemma_first_of(part@, 45);
    }
    let ghost o0 = out@;
    match crate::bytes::find_byte_from(part, 45, 0) {
        Some(i) => {
            proof {
                crate::bytes::lemma_first_of_unique(part@, 45, i as int);
            }
            proof {
                assert(i < part@.len());
                assert(part@.len() == part.len());
            }
            let lo_s = vstd::slice::slice_subrange(part, 0, i);
            let hi_s = vstd::slice::slice_subrange(part, i + 1, part.len());
            let lo = match parse_pos(lo_s) {
                Ok(n) => n,
                Err(e) => return Err(e),
            };
            let hi = match parse_pos(hi_s) {
                Ok(n) => n,
                Err(e) => return Err(e),
            };
            if hi < lo {
                return Err(SetParseError::ReversedRange { lo, hi });
            }
            match budget.take(hi - lo + 1) {
                Ok(()) => {},
                Err(e) => return Err(e),
            }
            let mut x = lo;
            while x < hi
                invariant
                    lo <= x <= hi,
                    out@.len() == o0.len() + (x - lo),
                    out@.subrange(0, o0.len() as int) == o0,
                    forall|j: int| 0 <= j < x - lo ==> #[trigger] out@[o0.len() + j] == lo + j,
                decreases hi - x,
            {
                let ghost before = out@;
                out.push(x);
                proof {
                    assert(out@.subrange(0, o0.len() as int) =~= before.subrange(0, o0.len() as int));
                }
                x = x + 1;
            }
            let ghost before = out@;
            out.push(hi);
            proof {
                assert(out@.subrange(0, o0.len() as int) =~= before.subrange(0, o0.len() as int));
            }
            proof {
                let got = out@.subrange(o0.len() as int, out@.len() as int);
                let want = range_seq(lo, hi);
                assert(got.len() == want.len());
                assert forall|j: int| 0 <= j < got.len() implies got[j] == want[j] by {
                    assert(got[j] == out@[o0.len() + j]);
                }
                assert(got =~= want);
            }
            Ok(())
        },
        None => {
            match budget.take(1) {
                Ok(()) => {},
                Err(e) => return Err(e),
            }
            let n = match parse_pos(part) {
                Ok(n) => n,
                Err(e) => return Err(e),
            };
            out.push(n);
            proof {
                assert(out@.subrange(o0.len() as int, out@.len() as int) =~= seq![n]);
                assert(out@.subrange(0, o0.len() as int) =~= o0);
            }
            Ok(())
        },
    }
}

proof fn lemma_list_err_stays(parts: Seq<Seq<u8>>, k: int, m: int, budget: nat, e: SetErr, b: nat)
    requires
        0 <= k <= m,
        list_upto(parts, k, budget) == (Err::<Seq<usize>, SetErr>(e), b),
    ensures
        list_upto(parts, m, budget) == (Err::<Seq<usize>, SetErr>(e), b),
    decreases m - k,
{
    if m > k {
        lemma_list_err_stays(parts, k, m - 1, budget, e, b);
    }
}

/// Parse a comma-separated list of indices and ranges.
fn parse_index_list(s: &[u8], budget: &mut IndexBudget) -> (r: Result<Vec<usize>, SetParseError>)
    ensures
        ({
            let (res, b) = parse_list_spec(s@, old(budget).left as nat);
            &&& final(budget).left == b
            &&& match r {
                Ok(v) => res == Ok::<Seq<usize>, SetErr>(v@),
                Err(e) => res == Err::<Seq<usize>, SetErr>(e@),
            }
        }),
        r matches Ok(v) ==> forall|j: int| 0 <= j < v@.len() ==> #[trigger] v@[j] >= 1,
{
    if s.len() == 0 {
        return Err(SetParseError::Empty);
    }
    let ghost f = fields(s@, 44);
    let ghost b0 = budget.left as nat;
    let mut out: Vec<usize> = Vec::new();
    let mut start: usize = 0;
    let ghost mut k: int = 0;
    proof {
        assert(s@.subrange(0, s@.len() as int) =~= s@);
        assert(f.subrange(0, 0) =~= Seq::<Seq<u8>>::empty());
        assert(f.subrange(0, f.len() as int) =~= f);
    }
    loop
        invariant_except_break
            start <= s@.len(),
            s@.len() > 0,
            b0 == old(budget).left as nat,
            0 <= k <= f.len(),
            f == fields(s@, 44),
            fields(s@.subrange(start as int, s@.len() as int), 44) == f.subrange(k, f.len() as int),
            list_upto(f, k, b0) == (Ok::<Seq<usize>, SetErr>(out@), budget.left as nat),
            forall|j: int| 0 <= j < out@.len() ==> #[trigger] out@[j] >= 1,
        ensures
            list_upto(f, f.len() as int, b0) == (Ok::<Seq<usize>, SetErr>(out@), budget.left as nat),
            forall|j: int| 0 <= j < out@.len() ==> #[trigger] out@[j] >= 1,
        decreases s@.len() - start,
    {
        let ghost rest = s@.subrange(start as int, s@.len() as int);
        let end = match crate::bytes::find_byte_from(s, 44, start) {
            Some(e) => e,
            None => s.len(),
        };
        let part = vstd::slice::slice_subrange(s, start, end);
        proof {
            if end < s@.len() {
                lemma_fields_step(rest, 44, end - start);
                assert(rest.subrange(0, end - start) =~= part@);
                assert(rest.subrange(end - start + 1, rest.len() as int) =~= s@.subrange(
                    end + 1,
                    s@.len() as int,
                ));
                let x = fields(s@.subrange(end + 1, s@.len() as int), 44);
                assert(fields(rest, 44) == seq![rest.subrange(0, end - start)] + x);
                assert((seq![rest.subrange(0, end - start)] + x).drop_first() =~= x);
                assert(f.subrange(k, f.len() as int).drop_first() =~= f.subrange(k + 1, f.len() as int));
                assert(x =~= f.subrange(k + 1, f.len() as int));
            } else {
                lemma_fields_last(rest, 44);
                assert(rest =~= part@);
            }
            assert(fields(rest, 44)[0] == part@);
            assert(fields(rest, 44).len() >= 1);
            assert(f.subrange(k, f.len() as int)[0] == f[k]);
            assert(f[k] == part@);
        }
        let ghost o0 = out@;
        let ghost bb = budget.left as nat;
        match parse_list_part(part, budget, &mut out) {
            Ok(()) => {},
            Err(e) => {
                proof {
                    assert(list_upto(f, k + 1, b0) == (Err::<Seq<usize>, SetErr>(e@), budget.left as nat));
                    lemma_list_err_stays(f, k + 1, f.len() as int, b0, e@, budget.left as nat);
                }
                return Err(e);
            },
        }
        proof {
            assert(out@ =~= o0 + out@.subrange(o0.len() as int, out@.len() as int));
            let (r2, b2) = list_part(f[k], bb);
            assert(list_upto(f, k + 1, b0) == (Ok::<Seq<usize>, SetErr>(out@), budget.left as nat));
            assert forall|j: int| 0 <= j < out@.len() implies #[trigger] out@[j] >= 1 by {
                if j >= o0.len() {
                    lemma_list_part_positive(f[k], bb);
                    assert(out@[j] == out@.subrange(o0.len() as int, out@.len() as int)[j - o0.len()]);
                }
            }
            k = k + 1;
        }
        if end == s.len() {
            proof {
                assert(f.subrange(k - 1, f.len() as int).len() == 1);
            }
            break;
        }
        start = end + 1;
    }
    Ok(out)
}

/// Every index a list part yields is 1-based.
proof fn lemma_list_part_positive(part: Seq<u8>, budget: nat)
    ensures
        list_part(part, budget).0 matches Ok(v) ==> forall|j: int| 0 <= j < v.len() ==> #[trigger] v[j] >= 1,
{
}

/// Parse an index set: `*`, `INDEX@L<list>`, or a list.
fn parse_index_set(s: &[u8], budget: &mut IndexBudget) -> (r: Result<IndexSet, SetParseError>)
    ensures
        ({
            let (res, b) = parse_set_spec(s@, old(budget).left as nat);
            &&& final(budget).left == b
            &&& match r {
                Ok(v) => res == Ok::<IndexSetV, SetErr>(v@),
                Err(e) => res == Err::<IndexSetV, SetErr>(e@),
            }
        }),
        r matches Ok(v) ==> index_set_wf(v@),
{
    if s.len() == 1 && s[0] == 42 {
        proof {
            assert(s@ =~= seq![42u8]);
        }
        return Ok(IndexSet::All);
    }
    proof {
        assert(s@ != seq![42u8]);
        crate::bytes::lemma_first_of(s@, 64);
    }
    match crate::bytes::find_byte_from(s, 64, 0) {
        Some(i) => {
            proof {
                crate::bytes::lemma_first_of_unique(s@, 64, i as int);
                assert(s@.len() == s.len());
            }
            let idx = vstd::slice::slice_subrange(s, 0, i);
            let index = match parse_pos(idx) {
                Ok(n) => n,
                Err(e) => return Err(e),
            };
            let rest = vstd::slice::slice_subrange(s, i + 1, s.len());
            if rest.len() == 0 || rest[0] != 76 {
                return Err(SetParseError::RemovedRange);
            }
            let set = vstd::slice::slice_subrange(rest, 1, rest.len());
            proof {
                assert(set@ =~= rest@.drop_first());
            }
            let lines = match parse_index_list(set, budget) {
                Ok(v) => v,
                Err(e) => return Err(e),
            };
            Ok(IndexSet::LineSet { index, lines })
        },
        None => {
            let v = match parse_index_list(s, budget) {
                Ok(v) => v,
                Err(e) => return Err(e),
            };
            Ok(IndexSet::List(v))
        },
    }
}

/// A byte an index set is made of.
pub open spec fn set_byte(b: u8) -> bool {
    crate::bytes::is_digit(b) || b == 44 || b == 45 || b == 42 || b == 64 || b == 76 || b == 108
}

/// `s` is spelled entirely from the bytes an index set is made of.
pub open spec fn looks_like_set(s: Seq<u8>) -> bool {
    s.len() > 0 && forall|i: int| 0 <= i < s.len() ==> #[trigger] set_byte(s[i])
}

/// Whether `s` is spelled entirely from the characters an index set is made of, so a parse
/// failure is a fault of the set rather than a sign that the text belongs to the path.
fn looks_like_index_set(s: &[u8]) -> (r: bool)
    ensures
        r == looks_like_set(s@),
{
    if s.len() == 0 {
        return false;
    }
    let mut i: usize = 0;
    while i < s.len()
        invariant
            i <= s@.len(),
            forall|j: int| 0 <= j < i ==> #[trigger] set_byte(s@[j]),
        decreases s@.len() - i,
    {
        let b = s[i];
        if !((48 <= b && b <= 57) || b == 44 || b == 45 || b == 42 || b == 64 || b == 76 || b == 108) {
            proof {
                assert(!set_byte(s@[i as int]));
            }
            return false;
        }
        i = i + 1;
    }
    true
}

/// The last position of byte `b` in `s`.
pub open spec fn last_of(s: Seq<u8>, b: u8) -> Option<int>
    decreases s.len(),
{
    if s.len() == 0 {
        None
    } else if s.last() == b {
        Some(s.len() - 1)
    } else {
        last_of(s.drop_last(), b)
    }
}

/// The last position of byte `b` in `s`.
fn find_last_byte(s: &[u8], b: u8) -> (r: Option<usize>)
    ensures
        match r {
            Some(i) => last_of(s@, b) == Some(i as int) && i < s@.len(),
            None => last_of(s@, b) is None,
        },
{
    let mut i: usize = s.len();
    proof {
        assert(s@.subrange(0, s@.len() as int) =~= s@);
    }
    while i > 0
        invariant
            i <= s@.len(),
            last_of(s@, b) == last_of(s@.subrange(0, i as int), b),
        decreases i,
    {
        proof {
            assert(s@.subrange(0, i as int).drop_last() =~= s@.subrange(0, i - 1));
        }
        if s[i - 1] == b {
            return Some(i - 1);
        }
        i = i - 1;
    }
    proof {
        assert(s@.subrange(0, 0) =~= Seq::<u8>::empty());
    }
    None
}

/// The error for a broken set inside a selector: the selector and the reason.
pub open spec fn bad_set_msg(a: Seq<u8>, e: SetErr) -> Seq<char> {
    crate::text::lossy_utf8(a) + " ("@ + set_err_msg(e) + ")"@
}

/// How `a` reads as the `path:set` form: `Ok(None)` when it is not that form.
pub open spec fn path_form_spec(a: Seq<u8>, budget: nat) -> (Result<Option<SelectorV>, SelErr>, nat) {
    match last_of(a, 58) {
        None => (Ok(None), budget),
        Some(c) => if c == 0 {
            (Ok(None), budget)
        } else {
            let set = a.subrange(c + 1, a.len() as int);
            let (r, b) = parse_set_spec(set, budget);
            match r {
                Ok(ix) => (
                    Ok(Some(SelectorV::File { path: Some(a.subrange(0, c)), indices: ix })),
                    b,
                ),
                Err(SetErr::RemovedRange) => (
                    Err(SelErr::RemovedRangeForm(crate::text::lossy_utf8(a))),
                    b,
                ),
                Err(e) => if looks_like_set(set) {
                    (Err(SelErr::BadSelector(bad_set_msg(a, e))), b)
                } else {
                    (Ok(None), b)
                },
            }
        },
    }
}

/// How `a`, whose bytes are not UTF-8, reads: only the `path:set` form can hold such bytes.
pub open spec fn binary_form_spec(a: Seq<u8>, budget: nat) -> (Result<SelectorV, SelErr>, nat) {
    let shown = crate::text::lossy_utf8(a);
    match last_of(a, 58) {
        None => (
            Err(
                SelErr::BadSelector(
                    shown + " (not valid UTF-8; only a path:set selector may hold such bytes)"@,
                ),
            ),
            budget,
        ),
        Some(c) => {
            let set = a.subrange(c + 1, a.len() as int);
            if !vstd::utf8::valid_utf8(set) {
                (Err(SelErr::BadSelector(shown + " (the set after ':' must be ASCII)"@)), budget)
            } else {
                let (r, b) = parse_set_spec(set, budget);
                match r {
                    Ok(ix) => (Ok(SelectorV::File { path: Some(a.subrange(0, c)), indices: ix }), b),
                    Err(SetErr::RemovedRange) => (Err(SelErr::RemovedRangeForm(shown)), b),
                    Err(e) => (Err(SelErr::BadSelector(bad_set_msg(a, e))), b),
                }
            }
        },
    }
}

/// How one selector argument reads, against the allowance `budget`: the `path:set` form first,
/// then `@<id>`, then a bare set.
pub open spec fn arg_spec(a: Seq<u8>, budget: nat) -> (Result<SelectorV, SelErr>, nat) {
    if !vstd::utf8::valid_utf8(a) {
        binary_form_spec(a, budget)
    } else {
        let (r, b) = path_form_spec(a, budget);
        match r {
            Err(e) => (Err(e), b),
            Ok(Some(sel)) => (Ok(sel), b),
            Ok(None) => if a.len() > 0 && a[0] == 64 {
                let id = a.drop_first();
                if id.len() == 0 || !all_hex(id) {
                    (Err(SelErr::BadSelector(crate::text::lossy_utf8(a))), b)
                } else {
                    (Ok(SelectorV::Id(crate::text::lossy_utf8(id))), b)
                }
            } else {
                let (r2, b2) = parse_set_spec(a, b);
                match r2 {
                    Ok(ix) => (Ok(SelectorV::File { path: None, indices: ix }), b2),
                    Err(SetErr::RemovedRange) => (
                        Err(SelErr::RemovedRangeForm(crate::text::lossy_utf8(a))),
                        b2,
                    ),
                    Err(e) => (Err(SelErr::BadSelector(bad_set_msg(a, e))), b2),
                }
            },
        }
    }
}

/// The first `k` selector arguments, in order, sharing one allowance.
pub open spec fn args_upto(args: Seq<Seq<u8>>, k: int) -> (Result<Seq<SelectorV>, SelErr>, nat)
    decreases k,
{
    if k <= 0 {
        (Ok(Seq::empty()), MAX_SELECTOR_INDICES as nat)
    } else {
        let (r, b) = args_upto(args, k - 1);
        match r {
            Err(e) => (Err(e), b),
            Ok(v) => {
                let (r2, b2) = arg_spec(args[k - 1], b);
                match r2 {
                    Err(e) => (Err(e), b2),
                    Ok(sel) => (Ok(v.push(sel)), b2),
                }
            },
        }
    }
}

/// The selectors the arguments read as, or the first that does not read.
pub open spec fn parse_selectors_spec(args: Seq<Seq<u8>>) -> Result<Seq<SelectorV>, SelErr> {
    args_upto(args, args.len() as int).0
}

/// The message of a broken set inside selector `a`.
fn bad_set_error(a: &[u8], e: &SetParseError) -> (r: SelectError)
    ensures
        r@ == SelErr::BadSelector(bad_set_msg(a@, e@)),
{
    let mut m = crate::text::lossy_string(a);
    m.append(" (");
    m.append(e.message().as_str());
    m.append(")");
    SelectError::BadSelector(m)
}

/// Read `arg` as the `path:set` form: `Ok(None)` when it is not that form and the other forms
/// are to be tried; an error when it is that form and the set inside it is broken.
fn parse_path_form(arg: &[u8], budget: &mut IndexBudget) -> (r: Result<Option<Selector>, SelectError>)
    ensures
        ({
            let (res, b) = path_form_spec(arg@, old(budget).left as nat);
            &&& final(budget).left == b
            &&& match r {
                Ok(Some(sel)) => res == Ok::<Option<SelectorV>, SelErr>(Some(sel@)),
                Ok(None) => res == Ok::<Option<SelectorV>, SelErr>(None),
                Err(e) => res == Err::<Option<SelectorV>, SelErr>(e@),
            }
        }),
        r matches Ok(Some(sel)) ==> sel@ matches SelectorV::File { path, indices } && index_set_wf(indices),
{
    let c = match find_last_byte(arg, 58) {
        None => return Ok(None),
        Some(c) => c,
    };
    if c == 0 {
        return Ok(None);
    }
    proof {
        assert(arg@.len() == arg.len());
    }
    let path = vstd::slice::slice_subrange(arg, 0, c);
    let set = vstd::slice::slice_subrange(arg, c + 1, arg.len());
    match parse_index_set(set, budget) {
        Ok(indices) => Ok(Some(Selector::File { path: Some(crate::bytes::to_vec(path)), indices })),
        Err(e) => {
            match e {
                SetParseError::RemovedRange => {
                    return Err(SelectError::RemovedRangeForm(crate::text::lossy_string(arg)));
                },
                _ => {},
            }
            if looks_like_index_set(set) {
                Err(bad_set_error(arg, &e))
            } else {
                Ok(None)
            }
        },
    }
}

/// Read a selector whose bytes are not UTF-8: only `path:set` can look like that, so the path
/// is taken verbatim and only the set after the last ':' is parsed.
fn parse_binary_path_form(bytes: &[u8], budget: &mut IndexBudget) -> (r: Result<Selector, SelectError>)
    ensures
        ({
            let (res, b) = binary_form_spec(bytes@, old(budget).left as nat);
            &&& final(budget).left == b
            &&& match r {
                Ok(sel) => res == Ok::<SelectorV, SelErr>(sel@),
                Err(e) => res == Err::<SelectorV, SelErr>(e@),
            }
        }),
        r matches Ok(sel) ==> sel@ matches SelectorV::File { path, indices } && index_set_wf(indices),
{
    let c = match find_last_byte(bytes, 58) {
        None => {
            let mut m = crate::text::lossy_string(bytes);
            m.append(" (not valid UTF-8; only a path:set selector may hold such bytes)");
            return Err(SelectError::BadSelector(m));
        },
        Some(c) => c,
    };
    proof {
        assert(bytes@.len() == bytes.len());
    }
    let path = vstd::slice::slice_subrange(bytes, 0, c);
    let set = vstd::slice::slice_subrange(bytes, c + 1, bytes.len());
    if !crate::text::is_valid_utf8(set) {
        let mut m = crate::text::lossy_string(bytes);
        m.append(" (the set after ':' must be ASCII)");
        return Err(SelectError::BadSelector(m));
    }
    match parse_index_set(set, budget) {
        Ok(indices) => Ok(Selector::File { path: Some(crate::bytes::to_vec(path)), indices }),
        Err(e) => {
            match e {
                SetParseError::RemovedRange => {
                    return Err(SelectError::RemovedRangeForm(crate::text::lossy_string(bytes)));
                },
                _ => {},
            }
            Err(bad_set_error(bytes, &e))
        },
    }
}

/// Whether every byte is a hex digit.
fn all_hex_exec(s: &[u8]) -> (r: bool)
    ensures
        r == all_hex(s@),
{
    let mut i: usize = 0;
    while i < s.len()
        invariant
            i <= s@.len(),
            forall|j: int| 0 <= j < i ==> (#[trigger] hex_val(s@[j])) is Some,
        decreases s@.len() - i,
    {
        let b = s[i];
        if !((48 <= b && b <= 57) || (97 <= b && b <= 102) || (65 <= b && b <= 70)) {
            proof {
                assert(hex_val(s@[i as int]) is None);
            }
            return false;
        }
        i = i + 1;
    }
    true
}

/// Read one selector argument.
fn parse_arg(a: &[u8], budget: &mut IndexBudget) -> (r: Result<Selector, SelectError>)
    ensures
        ({
            let (res, b) = arg_spec(a@, old(budget).left as nat);
            &&& final(budget).left == b
            &&& match r {
                Ok(sel) => res == Ok::<SelectorV, SelErr>(sel@),
                Err(e) => res == Err::<SelectorV, SelErr>(e@),
            }
        }),
        r matches Ok(sel) ==> match sel@ {
            SelectorV::File { path, indices } => index_set_wf(indices),
            SelectorV::Id(_) => true,
        },
{
    if !crate::text::is_valid_utf8(a) {
        return parse_binary_path_form(a, budget);
    }
    match parse_path_form(a, budget) {
        Err(e) => return Err(e),
        Ok(Some(sel)) => return Ok(sel),
        Ok(None) => {},
    }
    if a.len() > 0 && a[0] == 64 {
        let id = vstd::slice::slice_subrange(a, 1, a.len());
        proof {
            assert(id@ =~= a@.drop_first());
        }
        if id.len() == 0 || !all_hex_exec(id) {
            return Err(SelectError::BadSelector(crate::text::lossy_string(a)));
        }
        return Ok(Selector::Id(crate::text::lossy_string(id)));
    }
    match parse_index_set(a, budget) {
        Ok(indices) => Ok(Selector::File { path: None, indices }),
        Err(e) => {
            match e {
                SetParseError::RemovedRange => {
                    return Err(SelectError::RemovedRangeForm(crate::text::lossy_string(a)));
                },
                _ => {},
            }
            Err(bad_set_error(a, &e))
        },
    }
}

proof fn lemma_args_err_stays(args: Seq<Seq<u8>>, k: int, m: int, e: SelErr)
    requires
        0 <= k <= m,
        args_upto(args, k).0 == Err::<Seq<SelectorV>, SelErr>(e),
    ensures
        args_upto(args, m).0 == Err::<Seq<SelectorV>, SelErr>(e),
    decreases m - k,
{
    if m > k {
        lemma_args_err_stays(args, k, m - 1, e);
    }
}

/// Parse selector arguments, given as the raw bytes of each argument. Forms, in order of
/// precedence: `path:set` (the set after the last ':' is `*`, an index list such as `1,3-5`,
/// or `INDEX@L<list>`; the path may itself hold ':' or a leading '@'); `@<id>` (a non-empty
/// hex id); a bare set, for single-file diffs. All selectors share one allowance of
/// [`MAX_SELECTOR_INDICES`] indices.
pub fn parse_selectors(args: &[Vec<u8>]) -> (r: Result<Vec<Selector>, SelectError>)
    ensures
        match r {
            Ok(v) => parse_selectors_spec(args@.map_values(|a: Vec<u8>| a@)) == Ok::<
                Seq<SelectorV>,
                SelErr,
            >(selectors_view(v@)),
            Err(e) => parse_selectors_spec(args@.map_values(|a: Vec<u8>| a@)) == Err::<
                Seq<SelectorV>,
                SelErr,
            >(e@),
        },
        r matches Ok(v) ==> selectors_wf(selectors_view(v@)),
{
    let ghost av = args@.map_values(|a: Vec<u8>| a@);
    let mut out: Vec<Selector> = Vec::new();
    let mut budget = IndexBudget::new();
    let mut k: usize = 0;
    proof {
        assert(selectors_view(out@) =~= Seq::<SelectorV>::empty());
    }
    while k < args.len()
        invariant
            av == args@.map_values(|a: Vec<u8>| a@),
            k <= args@.len(),
            args_upto(av, k as int) == (Ok::<Seq<SelectorV>, SelErr>(selectors_view(out@)), budget.left as nat),
            selectors_wf(selectors_view(out@)),
        decreases args@.len() - k,
    {
        proof {
            assert(av[k as int] == args@[k as int]@);
        }
        match parse_arg(args[k].as_slice(), &mut budget) {
            Ok(sel) => {
                let ghost before = selectors_view(out@);
                let ghost sv = sel@;
                out.push(sel);
                proof {
                    assert(selectors_view(out@) =~= before.push(sv));
                }
            },
            Err(e) => {
                proof {
                    lemma_args_err_stays(av, k + 1, av.len() as int, e@);
                }
                return Err(e);
            },
        }
        k = k + 1;
    }
    Ok(out)
}

/// Which path and hunk number a `split` address `path:N` (or bare `N`) names.
pub open spec fn hunk_address(a: Seq<u8>) -> (Option<Seq<u8>>, Option<usize>) {
    match last_of(a, 58) {
        Some(i) => if i > 0 && parse_usize_spec(a.subrange(i + 1, a.len() as int)) is Some {
            (Some(a.subrange(0, i)), parse_usize_spec(a.subrange(i + 1, a.len() as int)))
        } else {
            (None, parse_usize_spec(a))
        },
        None => (None, parse_usize_spec(a)),
    }
}

/// The file entry and 0-based hunk a `split` address names, or why it names none.
pub open spec fn resolve_hunk_spec(p: PatchV, a: Seq<u8>) -> Result<(usize, usize), SelErr> {
    let shown = crate::text::lossy_utf8(a);
    let (path, n) = hunk_address(a);
    match n {
        None => Err(SelErr::BadSelector(shown)),
        Some(n) => if n == 0 {
            Err(SelErr::BadSelector(shown))
        } else {
            match resolve_path_spec(p, path) {
                Err(e) => Err(e),
                Ok(fi) => match p.files[fi as int].content {
                    ContentV::Text(h) => if n <= h.len() {
                        Ok((fi, (n - 1) as usize))
                    } else {
                        Err(SelErr::NoIndex(shown))
                    },
                    ContentV::Binary(_) => Err(SelErr::BadSelector(shown + " (binary file)"@)),
                },
            }
        },
    }
}

/// Resolve a `split` address, `path:N` or a bare `N` for a single-file diff, given as raw bytes,
/// to its file entry and 0-based hunk index (of the hunks as parsed, not auto-split). The
/// path may hold ':', so the split point is the last ':' whose tail is a number.
pub fn resolve_hunk(patch: &Patch, addr: &[u8]) -> (r: Result<(usize, usize), SelectError>)
    ensures
        match r {
            Ok(x) => resolve_hunk_spec(patch@, addr@) == Ok::<(usize, usize), SelErr>(x),
            Err(e) => resolve_hunk_spec(patch@, addr@) == Err::<(usize, usize), SelErr>(e@),
        },
{
    let whole = parse_usize(addr);
    let (path, n): (Option<&[u8]>, Option<usize>) = match find_last_byte(addr, 58) {
        Some(i) => {
            proof {
                assert(addr@.len() == addr.len());
            }
            let tail = vstd::slice::slice_subrange(addr, i + 1, addr.len());
            let t = parse_usize(tail);
            if i > 0 && t.is_some() {
                (Some(vstd::slice::slice_subrange(addr, 0, i)), t)
            } else {
                (None, whole)
            }
        },
        None => (None, whole),
    };
    proof {
        assert(hunk_address(addr@) == (opt_slice(path), n));
    }
    let n = match n {
        Some(n) => n,
        None => return Err(SelectError::BadSelector(crate::text::lossy_string(addr))),
    };
    if n == 0 {
        return Err(SelectError::BadSelector(crate::text::lossy_string(addr)));
    }
    let fi = match resolve_path(patch, path) {
        Ok(fi) => fi,
        Err(e) => return Err(e),
    };
    proof {
        assert(patch.files@[fi as int]@ == patch@.files[fi as int]);
    }
    match &patch.files[fi].content {
        FileContent::Text(h) => {
            if n <= h.len() {
                Ok((fi, n - 1))
            } else {
                Err(SelectError::NoIndex(crate::text::lossy_string(addr)))
            }
        },
        FileContent::Binary(_) => {
            let mut m = crate::text::lossy_string(addr);
            m.append(" (binary file)");
            Err(SelectError::BadSelector(m))
        },
    }
}

impl SelectError {
    /// The message a user is shown for the error.
    pub fn message(&self) -> (r: String)
        ensures
            r@ == select_msg(self@),
    {
        match self {
            SelectError::BadSelector(s) => {
                let mut m = String::from_str("bad selector: ");
                m.append(s.as_str());
                m
            },
            SelectError::UnknownPath(s) => {
                let mut m = String::from_str("no file in the diff matches path: ");
                m.append(s.as_str());
                m
            },
            SelectError::AmbiguousPath(s) => {
                let mut m = String::from_str("path matches more than one file: ");
                m.append(s.as_str());
                m
            },
            SelectError::NoIndex(s) => {
                let mut m = String::from_str("no such sub-hunk: ");
                m.append(s.as_str());
                m
            },
            SelectError::UnknownId(s) => {
                let mut m = String::from_str("no sub-hunk has id: ");
                m.append(s.as_str());
                m
            },
            SelectError::IdCollision(s) => {
                let mut m = String::from_str("id ");
                m.append(s.as_str());
                m.append(" collides between distinct sub-hunks; address them by path:N instead");
                m
            },
            SelectError::EmptySelection => String::from_str("selection is empty"),
            SelectError::RemovedRangeForm(s) => {
                let mut m = String::from_str("");
                m.append(s.as_str());
                m.append(
                    ": the @lo-hi added-line range form was removed; use @L<lines> instead (changed-line indices, e.g. @L1-3; see 'hunkpick list --json' changed_lines)",
                );
                m
            },
            SelectError::LineSelect(s) => {
                let mut m = String::from_str("line selector: ");
                m.append(s.as_str());
                m
            },
        }
    }
}

/// The message a user is shown for a selection error.
pub open spec fn select_msg(e: SelErr) -> Seq<char> {
    match e {
        SelErr::BadSelector(s) => "bad selector: "@ + s,
        SelErr::UnknownPath(s) => "no file in the diff matches path: "@ + s,
        SelErr::AmbiguousPath(s) => "path matches more than one file: "@ + s,
        SelErr::NoIndex(s) => "no such sub-hunk: "@ + s,
        SelErr::UnknownId(s) => "no sub-hunk has id: "@ + s,
        SelErr::IdCollision(s) => "id "@ + s
            + " collides between distinct sub-hunks; address them by path:N instead"@,
        SelErr::EmptySelection => "selection is empty"@,
        SelErr::RemovedRangeForm(s) => ""@ + s
            + ": the @lo-hi added-line range form was removed; use @L<lines> instead (changed-line indices, e.g. @L1-3; see 'hunkpick list --json' changed_lines)"@,
        SelErr::LineSelect(s) => "line selector: "@ + s,
    }
}

} // verus!
