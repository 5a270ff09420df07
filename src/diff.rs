//! The structured diff model: raw per-delta records, as a repository engine
//! reports them, classified into created, deleted, modified, moved and copied
//! files, with text hunks translated line by line.

use crate::path::{self, parses, root_text, split_on, trim_end, Path};
use vstd::prelude::*;

verus! {

/// How the engine marks a line of a raw hunk.
#[derive(Debug, Clone, Copy, PartialEq, Eq, Structural)]
pub enum LineOrigin {
    /// A line present on both sides.
    Context,
    /// A line only on the new side.
    Addition,
    /// A line only on the old side.
    Deletion,
    /// Neither side ends with a newline.
    ContextEofnl,
    /// The old side lacks a final newline, the new side has one.
    AddEofnl,
    /// The old side has a final newline, the new side lacks it.
    DeleteEofnl,
    /// A header or any other kind of line.
    Other,
}

/// One line of a raw hunk.
#[derive(Debug, Clone)]
pub struct RawLine {
    pub origin: LineOrigin,
    pub old_lineno: Option<u32>,
    pub new_lineno: Option<u32>,
    pub content: Vec<u8>,
}

/// A raw hunk: its header and its lines.
#[derive(Debug, Clone)]
pub struct RawHunk {
    pub header: Vec<u8>,
    pub lines: Vec<RawLine>,
}

/// The kind of change the engine reports for a delta.
#[derive(Debug, Clone, Copy, PartialEq, Eq, Structural)]
pub enum DeltaStatus {
    Added,
    Deleted,
    Modified,
    Renamed,
    Copied,
    Unmodified,
    Ignored,
    Untracked,
    Typechange,
    Unreadable,
    Conflicted,
}

/// One raw change record between two trees.
#[derive(Debug, Clone)]
pub struct RawDelta {
    pub status: DeltaStatus,
    /// The path on the old side, if the engine has one.
    pub old_path: Option<String>,
    /// The path on the new side, if the engine has one.
    pub new_path: Option<String>,
    /// Whether the new side is binary.
    pub new_is_binary: bool,
    /// The hunks of the patch, when a patch can be had.
    pub patch: Option<Vec<RawHunk>>,
}

/// A translated line, tagged by the side or sides it belongs to.
#[derive(Debug, Clone, PartialEq, Eq)]
pub enum LineDiff {
    Addition { line: Vec<u8>, line_num: u32 },
    Deletion { line: Vec<u8>, line_num: u32 },
    Context { line: Vec<u8>, line_num_old: u32, line_num_new: u32 },
}

/// A translated hunk.
#[derive(Debug, Clone, PartialEq, Eq)]
pub struct Hunk {
    pub header: Vec<u8>,
    pub lines: Vec<LineDiff>,
}

/// The content change of one file.
#[derive(Debug, Clone, PartialEq, Eq)]
pub enum FileDiff {
    Binary,
    Plain { hunks: Vec<Hunk> },
}

/// Which sides of a modified text file lack a final newline.
#[derive(Debug, Clone, Copy, PartialEq, Eq, Structural)]
pub enum EofNewLine {
    OldMissing,
    NewMissing,
    BothMissing,
}

#[derive(Debug, Clone, PartialEq, Eq)]
pub struct CreateFile {
    pub path: Path,
    pub diff: FileDiff,
}

#[derive(Debug, Clone, PartialEq, Eq)]
pub struct DeleteFile {
    pub path: Path,
    pub diff: FileDiff,
}

#[derive(Debug, Clone, PartialEq, Eq)]
pub struct MoveFile {
    pub old_path: Path,
    pub new_path: Path,
}

#[derive(Debug, Clone, PartialEq, Eq)]
pub struct CopyFile {
    pub old_path: Path,
    pub new_path: Path,
}

#[derive(Debug, Clone, PartialEq, Eq)]
pub struct ModifiedFile {
    pub path: Path,
    pub diff: FileDiff,
    pub eof: Option<EofNewLine>,
}

/// A changeset between two trees.
#[derive(Debug, Clone, PartialEq, Eq)]
pub struct Diff {
    pub created: Vec<CreateFile>,
    pub deleted: Vec<DeleteFile>,
    pub moved: Vec<MoveFile>,
    pub copied: Vec<CopyFile>,
    pub modified: Vec<ModifiedFile>,
}

/// Why a raw line could not be translated.
#[derive(Debug, Clone, Copy, PartialEq, Eq, Structural)]
pub enum LineDiffError {
    /// The line has a line number on neither side.
    Invalid,
}

/// Why a diff could not be translated.
#[derive(Debug, Clone, PartialEq, Eq)]
pub enum DiffError {
    /// A delta of a kind that is not handled.
    DeltaUnhandled(DeltaStatus),
    /// A path of a delta is not a valid path.
    FileSystem(path::Error),
    /// A line of a hunk is invalid.
    Line(LineDiffError),
    /// A modified text file whose patch could not be had.
    PatchUnavailable(Path),
    /// A delta lacks the path it needs.
    PathUnavailable,
}

/// Whether `origin` marks a missing final newline rather than a line.
pub open spec fn is_eof_marker(origin: LineOrigin) -> bool {
    origin is ContextEofnl || origin is AddEofnl || origin is DeleteEofnl
}

/// The lines of `s` that are real lines, not end-of-file markers.
pub open spec fn kept_lines(s: Seq<RawLine>) -> Seq<RawLine>
    decreases s.len(),
{
    if s.len() == 0 {
        s
    } else if is_eof_marker(s.last().origin) {
        kept_lines(s.drop_last())
    } else {
        kept_lines(s.drop_last()).push(s.last())
    }
}

/// A raw line with a line number on at least one side.
pub open spec fn line_ok(l: RawLine) -> bool {
    l.old_lineno is Some || l.new_lineno is Some
}

/// `out` is the translation of the valid raw line `l`.
pub open spec fn line_matches(l: RawLine, out: LineDiff) -> bool {
    match (l.old_lineno, l.new_lineno) {
        (None, Some(n)) => out matches LineDiff::Addition { line, line_num } && line@ == l.content@
            && line_num == n,
        (Some(n), None) => out matches LineDiff::Deletion { line, line_num } && line@ == l.content@
            && line_num == n,
        (Some(o), Some(n)) => out matches LineDiff::Context { line, line_num_old, line_num_new }
            && line@ == l.content@ && line_num_old == o && line_num_new == n,
        (None, None) => false,
    }
}

/// Every kept line of every hunk has a line number.
pub open spec fn hunks_ok(hs: Seq<RawHunk>) -> bool {
    forall|i: int, j: int|
        0 <= i < hs.len() && 0 <= j < kept_lines(hs[i].lines@).len() ==> line_ok(
            #[trigger] kept_lines(hs[i].lines@)[j],
        )
}

/// `out` is the translation of the raw hunk `h`.
pub open spec fn hunk_matches(h: RawHunk, out: Hunk) -> bool {
    &&& out.header@ == h.header@
    &&& out.lines@.len() == kept_lines(h.lines@).len()
    &&& forall|j: int|
        0 <= j < out.lines@.len() ==> line_matches(kept_lines(h.lines@)[j], #[trigger] out.lines@[j])
}

/// `out` is the translation of the raw hunks `hs`.
pub open spec fn hunks_match(hs: Seq<RawHunk>, out: Seq<Hunk>) -> bool {
    &&& out.len() == hs.len()
    &&& forall|i: int| 0 <= i < hs.len() ==> hunk_matches(hs[i], #[trigger] out[i])
}

/// Some line of some hunk has the origin `o`.
pub open spec fn has_origin(hs: Seq<RawHunk>, o: LineOrigin) -> bool {
    exists|i: int, j: int|
        0 <= i < hs.len() && 0 <= j < hs[i].lines@.len() && (#[trigger] hs[i].lines@[j]).origin
            == o
}

/// The old side lacks a final newline.
pub open spec fn old_missing(hs: Seq<RawHunk>) -> bool {
    has_origin(hs, LineOrigin::ContextEofnl) || has_origin(hs, LineOrigin::AddEofnl)
}

/// The new side lacks a final newline.
pub open spec fn new_missing(hs: Seq<RawHunk>) -> bool {
    has_origin(hs, LineOrigin::ContextEofnl) || has_origin(hs, LineOrigin::DeleteEofnl)
}

/// The status that the two sides' missing final newlines combine into.
pub open spec fn eof_of(old_missing: bool, new_missing: bool) -> Option<EofNewLine> {
    if old_missing && new_missing {
        Some(EofNewLine::BothMissing)
    } else if old_missing {
        Some(EofNewLine::OldMissing)
    } else if new_missing {
        Some(EofNewLine::NewMissing)
    } else {
        None
    }
}

/// Combines the two sides' missing final newlines into one status.
pub fn eof_status(old_missing: bool, new_missing: bool) -> (r: Option<EofNewLine>)
    ensures
        r == eof_of(old_missing, new_missing),
        old_missing && new_missing ==> r == Some(EofNewLine::BothMissing),
        old_missing && !new_missing ==> r == Some(EofNewLine::OldMissing),
        !old_missing && new_missing ==> r == Some(EofNewLine::NewMissing),
        !old_missing && !new_missing ==> r is None,
{
    match (old_missing, new_missing) {
        (true, true) => Some(EofNewLine::BothMissing),
        (true, false) => Some(EofNewLine::OldMissing),
        (false, true) => Some(EofNewLine::NewMissing),
        (false, false) => None,
    }
}

/// Translates one raw line, tagging it by the sides that number it.
pub fn translate_line(l: &RawLine) -> (r: Result<LineDiff, LineDiffError>)
    ensures
        r is Ok <==> line_ok(*l),
        r matches Ok(out) ==> line_matches(*l, out),
{
    match (l.old_lineno, l.new_lineno) {
        (None, Some(n)) => Ok(LineDiff::Addition { line: l.content.clone(), line_num: n }),
        (Some(n), None) => Ok(LineDiff::Deletion { line: l.content.clone(), line_num: n }),
        (Some(o), Some(n)) => Ok(
            LineDiff::Context { line: l.content.clone(), line_num_old: o, line_num_new: n },
        ),
        (None, None) => Err(LineDiffError::Invalid),
    }
}

proof fn lemma_kept_step(s: Seq<RawLine>, j: int)
    requires
        0 <= j < s.len(),
    ensures
        kept_lines(s.take(j + 1)) == if is_eof_marker(s[j].origin) {
            kept_lines(s.take(j))
        } else {
            kept_lines(s.take(j)).push(s[j])
        },
{
    assert(s.take(j + 1).drop_last() =~= s.take(j));
}

/// Translates the lines of one hunk, leaving out end-of-file markers and
/// noting them: the result holds the hunk and whether the old and the new
/// side lack a final newline.
pub fn translate_hunk(h: &RawHunk) -> (r: Result<(Hunk, bool, bool), LineDiffError>)
    ensures
        r is Ok <==> (forall|j: int|
            0 <= j < kept_lines(h.lines@).len() ==> line_ok(#[trigger] kept_lines(h.lines@)[j])),
        r matches Ok(t) ==> hunk_matches(*h, t.0) && t.1 == old_missing(seq![*h]) && t.2
            == new_missing(seq![*h]),
{
    let ghost s = h.lines@;
    let mut lines: Vec<LineDiff> = Vec::new();
    let mut old_eof = false;
    let mut new_eof = false;
    let mut j: usize = 0;
    while j < h.lines.len()
        invariant
            s == h.lines@,
            j <= s.len(),
            lines@.len() == kept_lines(s.take(j as int)).len(),
            forall|k: int|
                0 <= k < lines@.len() ==> line_matches(
                    kept_lines(s.take(j as int))[k],
                    #[trigger] lines@[k],
                ),
            forall|k: int|
                0 <= k < kept_lines(s.take(j as int)).len() ==> line_ok(
                    #[trigger] kept_lines(s.take(j as int))[k],
                ),
            old_eof == exists|k: int|
                0 <= k < j && ((#[trigger] s[k]).origin == LineOrigin::ContextEofnl || s[k].origin
                    == LineOrigin::AddEofnl),
            new_eof == exists|k: int|
                0 <= k < j && ((#[trigger] s[k]).origin == LineOrigin::ContextEofnl || s[k].origin
                    == LineOrigin::DeleteEofnl),
        decreases s.len() - j,
    {
        proof {
            lemma_kept_step(s, j as int);
        }
        let line = &h.lines[j];
        match line.origin {
            LineOrigin::ContextEofnl => {
                new_eof = true;
                old_eof = true;
            },
            LineOrigin::AddEofnl => {
                old_eof = true;
            },
            LineOrigin::DeleteEofnl => {
                new_eof = true;
            },
            _ => {
                match translate_line(line) {
                    Ok(out) => {
                        lines.push(out);
                    },
                    Err(e) => {
                        proof {
                            assert(!is_eof_marker(s[j as int].origin));
                            assert(!line_ok(s[j as int]));
                            let k = kept_lines(s.take(j as int)).len() as int;
                            assert(kept_lines(s.take(j + 1))[k] == s[j as int]);
                            lemma_kept_prefix(s, j + 1, s.len() as int);
                            assert(s.take(s.len() as int) =~= s);
                            assert(!line_ok(kept_lines(h.lines@)[k]));
                        }
                        return Err(e);
                    },
                }
            },
        }
        j = j + 1;
    }
    assert(s.take(j as int) =~= s);
    proof {
        assert(old_eof == old_missing(seq![*h])) by {
            if old_missing(seq![*h]) {
                if has_origin(seq![*h], LineOrigin::ContextEofnl) {
                    let (i, k) = choose|i: int, k: int|
                        0 <= i < 1 && 0 <= k < seq![*h][i].lines@.len() && (#[trigger] seq![
                            *h
                        ][i].lines@[k]).origin == LineOrigin::ContextEofnl;
                    assert(s[k].origin == LineOrigin::ContextEofnl);
                } else {
                    let (i, k) = choose|i: int, k: int|
                        0 <= i < 1 && 0 <= k < seq![*h][i].lines@.len() && (#[trigger] seq![
                            *h
                        ][i].lines@[k]).origin == LineOrigin::AddEofnl;
                    assert(s[k].origin == LineOrigin::AddEofnl);
                }
            }
            if old_eof {
                let k = choose|k: int|
                    0 <= k < j && ((#[trigger] s[k]).origin == LineOrigin::ContextEofnl
                        || s[k].origin == LineOrigin::AddEofnl);
                assert(seq![*h][0].lines@[k] == s[k]);
            }
        }
        assert(new_eof == new_missing(seq![*h])) by {
            if new_missing(seq![*h]) {
                if has_origin(seq![*h], LineOrigin::ContextEofnl) {
                    let (i, k) = choose|i: int, k: int|
                        0 <= i < 1 && 0 <= k < seq![*h][i].lines@.len() && (#[trigger] seq![
                            *h
                        ][i].lines@[k]).origin == LineOrigin::ContextEofnl;
                    assert(s[k].origin == LineOrigin::ContextEofnl);
                } else {
                    let (i, k) = choose|i: int, k: int|
                        0 <= i < 1 && 0 <= k < seq![*h][i].lines@.len() && (#[trigger] seq![
                            *h
                        ][i].lines@[k]).origin == LineOrigin::DeleteEofnl;
                    assert(s[k].origin == LineOrigin::DeleteEofnl);
                }
            }
            if new_eof {
                let k = choose|k: int|
                    0 <= k < j && ((#[trigger] s[k]).origin == LineOrigin::ContextEofnl
                        || s[k].origin == LineOrigin::DeleteEofnl);
                assert(seq![*h][0].lines@[k] == s[k]);
            }
        }
    }
    let header = h.header.clone();
    Ok((Hunk { header, lines }, old_eof, new_eof))
}

/// Taking more lines keeps the lines kept so far.
proof fn lemma_kept_prefix(s: Seq<RawLine>, i: int, j: int)
    requires
        0 <= i <= j <= s.len(),
    ensures
        kept_lines(s.take(i)).len() <= kept_lines(s.take(j)).len(),
        forall|k: int|
            0 <= k < kept_lines(s.take(i)).len() ==> #[trigger] kept_lines(s.take(j))[k]
                == kept_lines(s.take(i))[k],
    decreases j - i,
{
    if i < j {
        lemma_kept_prefix(s, i, j - 1);
        lemma_kept_step(s, j - 1);
    }
}

proof fn lemma_has_origin_step(hs: Seq<RawHunk>, i: int, o: LineOrigin)
    requires
        0 <= i < hs.len(),
    ensures
        has_origin(hs.take(i + 1), o) == (has_origin(hs.take(i), o) || has_origin(seq![hs[i]], o)),
{
    let a = hs.take(i + 1);
    let b = hs.take(i);
    if has_origin(a, o) {
        let (x, y) = choose|x: int, y: int|
            0 <= x < a.len() && 0 <= y < a[x].lines@.len() && (#[trigger] a[x].lines@[y]).origin
                == o;
        if x < i {
            assert(b[x].lines@[y] == a[x].lines@[y]);
        } else {
            assert(seq![hs[i]][0].lines@[y] == a[x].lines@[y]);
        }
    }
    if has_origin(b, o) {
        let (x, y) = choose|x: int, y: int|
            0 <= x < b.len() && 0 <= y < b[x].lines@.len() && (#[trigger] b[x].lines@[y]).origin
                == o;
        assert(a[x].lines@[y] == b[x].lines@[y]);
    }
    if has_origin(seq![hs[i]], o) {
        let (x, y) = choose|x: int, y: int|
            0 <= x < 1 && 0 <= y < seq![hs[i]][x].lines@.len() && (#[trigger] seq![
                hs[i]
            ][x].lines@[y]).origin == o;
        assert(a[i].lines@[y] == seq![hs[i]][x].lines@[y]);
    }
}

/// Translates every hunk of a patch: the hunks, and whether the old and the
/// new side lack a final newline.
pub fn translate_hunks(hs: &Vec<RawHunk>) -> (r: Result<(Vec<Hunk>, bool, bool), LineDiffError>)
    ensures
        r is Ok <==> hunks_ok(hs@),
        r matches Ok(t) ==> hunks_match(hs@, t.0@) && t.1 == old_missing(hs@) && t.2
            == new_missing(hs@),
{
    let mut out: Vec<Hunk> = Vec::new();
    let mut old_eof = false;
    let mut new_eof = false;
    let mut i: usize = 0;
    while i < hs.len()
        invariant
            i <= hs@.len(),
            hunks_ok(hs@.take(i as int)),
            hunks_match(hs@.take(i as int), out@),
            old_eof == old_missing(hs@.take(i as int)),
            new_eof == new_missing(hs@.take(i as int)),
        decreases hs@.len() - i,
    {
        proof {
            lemma_has_origin_step(hs@, i as int, LineOrigin::ContextEofnl);
            lemma_has_origin_step(hs@, i as int, LineOrigin::AddEofnl);
            lemma_has_origin_step(hs@, i as int, LineOrigin::DeleteEofnl);
        }
        match translate_hunk(&hs[i]) {
            Ok(t) => {
                let (h, o, n) = t;
                out.push(h);
                old_eof = old_eof || o;
                new_eof = new_eof || n;
                proof {
                    let a = hs@.take(i + 1);
                    assert forall|x: int, y: int|
                        0 <= x < a.len() && 0 <= y < kept_lines(a[x].lines@).len() implies line_ok(
                            #[trigger] kept_lines(a[x].lines@)[y],
                        ) by {
                        if x < i {
                            assert(a[x] == hs@.take(i as int)[x]);
                        }
                    }
                    assert forall|x: int| 0 <= x < a.len() implies hunk_matches(
                        a[x],
                        #[trigger] out@[x],
                    ) by {
                        if x < i {
                            assert(a[x] == hs@.take(i as int)[x]);
                        }
                    }
                }
            },
            Err(e) => {
                proof {
                    let k = choose|k: int|
                        0 <= k < kept_lines(hs@[i as int].lines@).len() && !line_ok(
                            #[trigger] kept_lines(hs@[i as int].lines@)[k],
                        );
                    assert(!line_ok(kept_lines(hs@[i as int].lines@)[k]));
                }
                return Err(e);
            },
        }
        i = i + 1;
    }
    assert(hs@.take(i as int) =~= hs@);
    Ok((out, old_eof, new_eof))
}

/// The text of a delta's path is there and reads as a path.
pub open spec fn path_ok(p: Option<String>) -> bool {
    p matches Some(t) && parses(t@)
}

/// The path that the text of a delta's path reads as, below the root.
pub open spec fn rooted(p: Option<String>) -> Seq<Seq<char>> {
    seq![root_text()] + split_on(trim_end(p->Some_0@))
}

/// A patch that may be missing translates.
pub open spec fn patch_ok(p: Option<Vec<RawHunk>>) -> bool {
    match p {
        Some(hs) => hunks_ok(hs@),
        None => true,
    }
}

/// The delta is of a handled kind and translates.
pub open spec fn delta_ok(d: RawDelta) -> bool {
    match d.status {
        DeltaStatus::Added => path_ok(d.new_path) && patch_ok(d.patch),
        DeltaStatus::Deleted => path_ok(d.old_path) && patch_ok(d.patch),
        DeltaStatus::Modified => path_ok(d.new_path) && match d.patch {
            Some(hs) => hunks_ok(hs@),
            None => d.new_is_binary,
        },
        DeltaStatus::Renamed | DeltaStatus::Copied => path_ok(d.old_path) && path_ok(d.new_path),
        _ => false,
    }
}

/// The error that reading a delta's path gives, where it fails.
pub open spec fn path_error(p: Option<String>, e: DiffError) -> bool {
    match p {
        None => e is PathUnavailable,
        Some(t) => e matches DiffError::FileSystem(pe) && path::parse_error(t@, pe),
    }
}

/// The error that translating the delta gives, where it fails.
pub open spec fn delta_error(d: RawDelta, e: DiffError) -> bool {
    match d.status {
        DeltaStatus::Added => if !path_ok(d.new_path) {
            path_error(d.new_path, e)
        } else {
            e == DiffError::Line(LineDiffError::Invalid)
        },
        DeltaStatus::Deleted => if !path_ok(d.old_path) {
            path_error(d.old_path, e)
        } else {
            e == DiffError::Line(LineDiffError::Invalid)
        },
        DeltaStatus::Modified => if !path_ok(d.new_path) {
            path_error(d.new_path, e)
        } else if d.patch is Some {
            e == DiffError::Line(LineDiffError::Invalid)
        } else {
            e matches DiffError::PatchUnavailable(p) && p@ == rooted(d.new_path)
        },
        DeltaStatus::Renamed | DeltaStatus::Copied => if d.old_path is None || d.new_path is None {
            e is PathUnavailable
        } else if !path_ok(d.old_path) {
            path_error(d.old_path, e)
        } else {
            path_error(d.new_path, e)
        },
        _ => e == DiffError::DeltaUnhandled(d.status),
    }
}

/// `f` is the plain content change of a created or deleted file.
pub open spec fn plain_matches(p: Option<Vec<RawHunk>>, f: FileDiff) -> bool {
    match p {
        Some(hs) => f matches FileDiff::Plain { hunks } && hunks_match(hs@, hunks@),
        None => f matches FileDiff::Plain { hunks } && hunks@.len() == 0,
    }
}

/// `m` is the translation of the modified-file delta `d`.
pub open spec fn modified_matches(d: RawDelta, m: ModifiedFile) -> bool {
    &&& m.path@ == rooted(d.new_path)
    &&& match d.patch {
        Some(hs) => m.diff matches FileDiff::Plain { hunks } && hunks_match(hs@, hunks@) && m.eof
            == eof_of(old_missing(hs@), new_missing(hs@)),
        None => m.diff is Binary && m.eof is None,
    }
}

/// One translated delta.
#[derive(Debug, Clone, PartialEq, Eq)]
pub enum Change {
    Created(CreateFile),
    Deleted(DeleteFile),
    Modified(ModifiedFile),
    Moved(MoveFile),
    Copied(CopyFile),
}

/// `c` is the translation of the delta `d`.
pub open spec fn change_matches(d: RawDelta, c: Change) -> bool {
    match d.status {
        DeltaStatus::Added => c matches Change::Created(f) && f.path@ == rooted(d.new_path)
            && plain_matches(d.patch, f.diff),
        DeltaStatus::Deleted => c matches Change::Deleted(f) && f.path@ == rooted(d.old_path)
            && plain_matches(d.patch, f.diff),
        DeltaStatus::Modified => c matches Change::Modified(m) && modified_matches(d, m),
        DeltaStatus::Renamed => c matches Change::Moved(m) && m.old_path@ == rooted(d.old_path)
            && m.new_path@ == rooted(d.new_path),
        DeltaStatus::Copied => c matches Change::Copied(m) && m.old_path@ == rooted(d.old_path)
            && m.new_path@ == rooted(d.new_path),
        _ => false,
    }
}

/// Reads the path of one side of a delta.
fn delta_path(p: &Option<String>) -> (r: Result<Path, DiffError>)
    ensures
        r is Ok <==> path_ok(*p),
        r matches Ok(path) ==> path@ == rooted(*p),
        r matches Err(e) ==> path_error(*p, e),
{
    match p {
        None => Err(DiffError::PathUnavailable),
        Some(t) => match Path::parse_rooted(t.as_str()) {
            Ok(path) => Ok(path),
            Err(e) => Err(DiffError::FileSystem(e)),
        },
    }
}

/// The plain content change of a created or deleted file.
fn plain_diff(p: &Option<Vec<RawHunk>>) -> (r: Result<FileDiff, DiffError>)
    ensures
        r is Ok <==> patch_ok(*p),
        r matches Ok(f) ==> plain_matches(*p, f),
        r matches Err(e) ==> e == DiffError::Line(LineDiffError::Invalid),
{
    match p {
        None => Ok(FileDiff::Plain { hunks: Vec::new() }),
        Some(hs) => match translate_hunks(hs) {
            Ok(t) => Ok(FileDiff::Plain { hunks: t.0 }),
            Err(e) => Err(DiffError::Line(e)),
        },
    }
}

/// Classifies and translates one raw delta.
pub fn translate_delta(d: &RawDelta) -> (r: Result<Change, DiffError>)
    ensures
        r is Ok <==> delta_ok(*d),
        r matches Ok(c) ==> change_matches(*d, c),
        r matches Err(e) ==> delta_error(*d, e),
{
    match d.status {
        DeltaStatus::Added => {
            let path = delta_path(&d.new_path)?;
            let diff = plain_diff(&d.patch)?;
            Ok(Change::Created(CreateFile { path, diff }))
        },
        DeltaStatus::Deleted => {
            let path = delta_path(&d.old_path)?;
            let diff = plain_diff(&d.patch)?;
            Ok(Change::Deleted(DeleteFile { path, diff }))
        },
        DeltaStatus::Modified => {
            let path = delta_path(&d.new_path)?;
            match &d.patch {
                Some(hs) => match translate_hunks(hs) {
                    Ok(t) => {
                        let (hunks, old_eof, new_eof) = t;
                        let eof = eof_status(old_eof, new_eof);
                        Ok(Change::Modified(ModifiedFile { path, diff: FileDiff::Plain { hunks }, eof }))
                    },
                    Err(e) => Err(DiffError::Line(e)),
                },
                None => {
                    if d.new_is_binary {
                        Ok(Change::Modified(ModifiedFile { path, diff: FileDiff::Binary, eof: None }))
                    } else {
                        Err(DiffError::PatchUnavailable(path))
                    }
                },
            }
        },
        DeltaStatus::Renamed | DeltaStatus::Copied => {
            if d.old_path.is_none() || d.new_path.is_none() {
                return Err(DiffError::PathUnavailable);
            }
            let old_path = delta_path(&d.old_path)?;
            let new_path = delta_path(&d.new_path)?;
            match d.status {
                DeltaStatus::Renamed => Ok(Change::Moved(MoveFile { old_path, new_path })),
                _ => Ok(Change::Copied(CopyFile { old_path, new_path })),
            }
        },
        status => Err(DiffError::DeltaUnhandled(status)),
    }
}

/// The deltas of `ds` with the status `st`, in order.
pub open spec fn with_status(ds: Seq<RawDelta>, st: DeltaStatus) -> Seq<RawDelta>
    decreases ds.len(),
{
    if ds.len() == 0 {
        ds
    } else if ds.last().status == st {
        with_status(ds.drop_last(), st).push(ds.last())
    } else {
        with_status(ds.drop_last(), st)
    }
}

proof fn lemma_with_status_step(ds: Seq<RawDelta>, i: int, st: DeltaStatus)
    requires
        0 <= i < ds.len(),
    ensures
        with_status(ds.take(i + 1), st) == if ds[i].status == st {
            with_status(ds.take(i), st).push(ds[i])
        } else {
            with_status(ds.take(i), st)
        },
{
    assert(ds.take(i + 1).drop_last() =~= ds.take(i));
}

impl Diff {
    /// An empty changeset.
    pub fn new() -> (r: Diff)
        ensures
            r.created@.len() == 0,
            r.deleted@.len() == 0,
            r.moved@.len() == 0,
            r.copied@.len() == 0,
            r.modified@.len() == 0,
    {
        Diff {
            created: Vec::new(),
            deleted: Vec::new(),
            moved: Vec::new(),
            copied: Vec::new(),
            modified: Vec::new(),
        }
    }

    /// `self` holds, by kind and in order, the translations of the deltas `ds`.
    pub open spec fn translates(&self, ds: Seq<RawDelta>) -> bool {
        &&& self.created@.len() == with_status(ds, DeltaStatus::Added).len()
        &&& forall|k: int|
            0 <= k < self.created@.len() ==> change_matches(
                with_status(ds, DeltaStatus::Added)[k],
                Change::Created(#[trigger] self.created@[k]),
            )
        &&& self.deleted@.len() == with_status(ds, DeltaStatus::Deleted).len()
        &&& forall|k: int|
            0 <= k < self.deleted@.len() ==> change_matches(
                with_status(ds, DeltaStatus::Deleted)[k],
                Change::Deleted(#[trigger] self.deleted@[k]),
            )
        &&& self.modified@.len() == with_status(ds, DeltaStatus::Modified).len()
        &&& forall|k: int|
            0 <= k < self.modified@.len() ==> change_matches(
                with_status(ds, DeltaStatus::Modified)[k],
                Change::Modified(#[trigger] self.modified@[k]),
            )
        &&& self.moved@.len() == with_status(ds, DeltaStatus::Renamed).len()
        &&& forall|k: int|
            0 <= k < self.moved@.len() ==> change_matches(
                with_status(ds, DeltaStatus::Renamed)[k],
                Change::Moved(#[trigger] self.moved@[k]),
            )
        &&& self.copied@.len() == with_status(ds, DeltaStatus::Copied).len()
        &&& forall|k: int|
            0 <= k < self.copied@.len() ==> change_matches(
                with_status(ds, DeltaStatus::Copied)[k],
                Change::Copied(#[trigger] self.copied@[k]),
            )
    }

    /// Translates the raw deltas of a diff, in order. Fails on the first
    /// delta that is of an unhandled kind or does not translate.
    pub fn from_deltas(deltas: &Vec<RawDelta>) -> (r: Result<Diff, DiffError>)
        ensures
            r is Ok <==> forall|i: int| 0 <= i < deltas@.len() ==> delta_ok(#[trigger] deltas@[i]),
            r matches Ok(d) ==> d.translates(deltas@),
            r matches Err(e) ==> exists|i: int|
                0 <= i < deltas@.len() && !delta_ok(#[trigger] deltas@[i]) && delta_error(
                    deltas@[i],
                    e,
                ) && forall|j: int| 0 <= j < i ==> delta_ok(#[trigger] deltas@[j]),
    {
        let ghost ds = deltas@;
        let mut diff = Diff::new();
        let mut i: usize = 0;
        while i < deltas.len()
            invariant
                ds == deltas@,
                i <= ds.len(),
                forall|j: int| 0 <= j < i ==> delta_ok(#[trigger] ds[j]),
                diff.translates(ds.take(i as int)),
            decreases ds.len() - i,
        {
            proof {
                lemma_with_status_step(ds, i as int, DeltaStatus::Added);
                lemma_with_status_step(ds, i as int, DeltaStatus::Deleted);
                lemma_with_status_step(ds, i as int, DeltaStatus::Modified);
                lemma_with_status_step(ds, i as int, DeltaStatus::Renamed);
                lemma_with_status_step(ds, i as int, DeltaStatus::Copied);
            }
            match translate_delta(&deltas[i]) {
                Ok(c) => {
                    match c {
                        Change::Created(f) => {
                            diff.created.push(f);
                        },
                        Change::Deleted(f) => {
                            diff.deleted.push(f);
                        },
                        Change::Modified(f) => {
                            diff.modified.push(f);
                        },
                        Change::Moved(f) => {
                            diff.moved.push(f);
                        },
                        Change::Copied(f) => {
                            diff.copied.push(f);
                        },
                    }
                },
                Err(e) => {
                    return Err(e);
                },
            }
            i = i + 1;
        }
        assert(ds.take(i as int) =~= ds);
        Ok(diff)
    }
}

/// A modified file whose hunks remove no line has no line tagged as a
/// deletion: a line is tagged a deletion only where it is numbered on the old
/// side alone.
pub proof fn law_no_removed_lines(d: RawDelta, m: ModifiedFile)
    requires
        d.status == DeltaStatus::Modified,
        change_matches(d, Change::Modified(m)),
        d.patch matches Some(hs) && forall|i: int, j: int|
            0 <= i < hs@.len() && 0 <= j < kept_lines(hs@[i].lines@).len() ==> (#[trigger] kept_lines(
                hs@[i].lines@,
            )[j]).new_lineno is Some,
    ensures
        m.diff matches FileDiff::Plain { hunks } && forall|i: int, j: int|
            0 <= i < hunks@.len() && 0 <= j < hunks@[i].lines@.len() ==> !(
            #[trigger] hunks@[i].lines@[j] is Deletion),
{
    let hs = d.patch->Some_0;
    let hunks = m.diff->Plain_hunks;
    assert forall|i: int, j: int|
        0 <= i < hunks@.len() && 0 <= j < hunks@[i].lines@.len() implies !(
        #[trigger] hunks@[i].lines@[j] is Deletion) by {
        assert(hunk_matches(hs@[i], hunks@[i]));
        assert(line_matches(kept_lines(hs@[i].lines@)[j], hunks@[i].lines@[j]));
        assert(kept_lines(hs@[i].lines@)[j].new_lineno is Some);
    }
}

/// The paths a revision touched, as its deltas against one parent give
/// them: the new-side path of each delta, below the root.
pub fn touched_paths(deltas: &Vec<RawDelta>) -> (r: Result<Vec<Path>, DiffError>)
    ensures
        r is Ok <==> forall|i: int| 0 <= i < deltas@.len() ==> path_ok(#[trigger] deltas@[i].new_path),
        r matches Ok(ps) ==> ps@.len() == deltas@.len() && forall|i: int|
            0 <= i < deltas@.len() ==> (#[trigger] ps@[i])@ == rooted(deltas@[i].new_path),
        r matches Err(e) ==> exists|i: int|
            0 <= i < deltas@.len() && !path_ok(#[trigger] deltas@[i].new_path) && path_error(
                deltas@[i].new_path,
                e,
            ),
{
    let mut out: Vec<Path> = Vec::new();
    let mut i: usize = 0;
    while i < deltas.len()
        invariant
            i <= deltas@.len(),
            out@.len() == i,
            forall|k: int| 0 <= k < i ==> path_ok(#[trigger] deltas@[k].new_path),
            forall|k: int| 0 <= k < i ==> (#[trigger] out@[k])@ == rooted(deltas@[k].new_path),
        decreases deltas@.len() - i,
    {
        let p = delta_path(&deltas[i].new_path)?;
        out.push(p);
        i = i + 1;
    }
    Ok(out)
}

/// The paths that the deltas against each parent touch, one parent after another.
pub open spec fn touched_spec(per_parent: Seq<Vec<RawDelta>>) -> Seq<Seq<Seq<char>>>
    decreases per_parent.len(),
{
    if per_parent.len() == 0 {
        Seq::empty()
    } else {
        touched_spec(per_parent.drop_last()) + per_parent.last()@.map_values(
            |d: RawDelta| rooted(d.new_path),
        )
    }
}

/// Every delta against every parent has a readable new-side path.
pub open spec fn all_paths_ok(per_parent: Seq<Vec<RawDelta>>) -> bool {
    forall|i: int, j: int|
        0 <= i < per_parent.len() && 0 <= j < per_parent[i]@.len() ==> path_ok(
            #[trigger] per_parent[i]@[j].new_path,
        )
}

/// The paths a revision touched: those of its diff against each of its
/// parents (or against the empty tree, for a revision without parents), one
/// diff after another. A path that differs from any parent is touched.
pub fn touched_by_revision(per_parent: &Vec<Vec<RawDelta>>) -> (r: Result<Vec<Path>, DiffError>)
    ensures
        r is Ok <==> all_paths_ok(per_parent@),
        r matches Ok(ps) ==> ps@.map_values(|p: Path| p@) == touched_spec(per_parent@),
        r matches Err(e) ==> exists|i: int, j: int|
            0 <= i < per_parent@.len() && 0 <= j < per_parent@[i]@.len() && !path_ok(
                #[trigger] per_parent@[i]@[j].new_path,
            ) && path_error(per_parent@[i]@[j].new_path, e),
{
    let mut out: Vec<Path> = Vec::new();
    let mut i: usize = 0;
    while i < per_parent.len()
        invariant
            i <= per_parent@.len(),
            all_paths_ok(per_parent@.take(i as int)),
            out@.map_values(|p: Path| p@) == touched_spec(per_parent@.take(i as int)),
        decreases per_parent@.len() - i,
    {
        assert(per_parent@.take(i + 1).drop_last() =~= per_parent@.take(i as int));
        match touched_paths(&per_parent[i]) {
            Ok(ps) => {
                let mut k: usize = 0;
                let ghost base = out@.map_values(|p: Path| p@);
                while k < ps.len()
                    invariant
                        k <= ps@.len(),
                        out@.map_values(|p: Path| p@) == base + ps@.take(k as int).map_values(
                            |p: Path| p@,
                        ),
                    decreases ps@.len() - k,
                {
                    let c = ps[k].clone();
                    let ghost prev = out@;
                    out.push(c);
                    assert(out@.map_values(|p: Path| p@) =~= prev.map_values(|p: Path| p@).push(c@));
                    assert(ps@.take(k + 1).map_values(|p: Path| p@) =~= ps@.take(k as int).map_values(
                        |p: Path| p@,
                    ).push(ps@[k as int]@));
                    assert(out@.map_values(|p: Path| p@) =~= base + ps@.take(k + 1).map_values(
                        |p: Path| p@,
                    ));
                    k = k + 1;
                }
                assert(ps@.take(k as int) =~= ps@);
                assert(ps@.map_values(|p: Path| p@) =~= per_parent@[i as int]@.map_values(
                    |d: RawDelta| rooted(d.new_path),
                ));
                proof {
                    let t = per_parent@.take(i + 1);
                    assert forall|a: int, b: int|
                        0 <= a < t.len() && 0 <= b < t[a]@.len() implies path_ok(
                            #[trigger] t[a]@[b].new_path,
                        ) by {
                        if a < i {
                            assert(t[a] == per_parent@.take(i as int)[a]);
                        }
                    }
                }
            },
            Err(e) => {
                proof {
                    let j = choose|j: int|
                        0 <= j < per_parent@[i as int]@.len() && !path_ok(
                            #[trigger] per_parent@[i as int]@[j].new_path,
                        ) && path_error(per_parent@[i as int]@[j].new_path, e);
                    assert(!path_ok(per_parent@[i as int]@[j].new_path));
                }
                return Err(e);
            },
        }
        i = i + 1;
    }
    assert(per_parent@.take(i as int) =~= per_parent@);
    Ok(out)
}

} // verus!
