//! Building a diff out of what git prints.

use vstd::prelude::*;

use crate::bytes::{copy_bytes, opt_bytes, same_bytes};
use crate::chars::{
    has_prefix, law_parts_lie_between_separators, lemma_split_free, lines, lines_from, split,
    split_char,
};
use crate::diff::anchor::file_named;
use crate::diff::data::{file_views, Delta, FileEntry, FileView};
use crate::diff::line::{
    is_change, line_views, lineno_view, plain_line, DiffLine, LineKind, LineNo, LineView,
};
use crate::text::{append_chars, chars_of, lossy_text, string_of, text_lossy};

verus! {

/// A changed file as git lists it.
pub struct DeltaInfo {
    pub status: Delta,
    pub new_path: Option<Vec<u8>>,
    pub old_path: Option<Vec<u8>>,
    pub is_binary: bool,
}

/// What git lists of a changed file.
pub struct DeltaView {
    pub status: Delta,
    pub new_path: Option<Seq<u8>>,
    pub old_path: Option<Seq<u8>>,
    pub is_binary: bool,
}

impl View for DeltaInfo {
    type V = DeltaView;

    open spec fn view(&self) -> DeltaView {
        DeltaView {
            status: self.status,
            new_path: opt_bytes(self.new_path),
            old_path: opt_bytes(self.old_path),
            is_binary: self.is_binary,
        }
    }
}

/// A piece of the patch as git prints it: the path of its file, the character that tells its origin,
/// its line numbers and its bytes.
pub struct PatchLine {
    pub path: Vec<u8>,
    pub origin: char,
    pub old_lineno: Option<u32>,
    pub new_lineno: Option<u32>,
    pub content: Vec<u8>,
}

/// What git prints of a piece of the patch.
pub struct PatchView {
    pub path: Seq<u8>,
    pub origin: char,
    pub old_lineno: Option<u32>,
    pub new_lineno: Option<u32>,
    pub content: Seq<u8>,
}

impl View for PatchLine {
    type V = PatchView;

    open spec fn view(&self) -> PatchView {
        PatchView {
            path: self.path@,
            origin: self.origin,
            old_lineno: self.old_lineno,
            new_lineno: self.new_lineno,
            content: self.content@,
        }
    }
}

/// The path of a changed file: the one after the change, or else the one before, or else none.
pub open spec fn delta_path(d: DeltaView) -> Seq<u8> {
    match (d.new_path, d.old_path) {
        (Some(new), _) => new,
        (None, Some(old)) => old,
        (None, None) => Seq::empty(),
    }
}

/// The path of a changed file: the one after the change, or else the one before, or else none.
pub fn delta_path_bytes(delta: &DeltaInfo) -> (path: Vec<u8>)
    ensures
        path@ == delta_path(delta@),
{
    match &delta.new_path {
        Some(new) => copy_bytes(new),
        None => match &delta.old_path {
            Some(old) => copy_bytes(old),
            None => Vec::new(),
        },
    }
}

/// The path that a renamed or copied file comes from, where it is another one.
pub open spec fn delta_source(d: DeltaView) -> Option<Seq<u8>> {
    if d.status == Delta::Renamed || d.status == Delta::Copied {
        match d.old_path {
            Some(old) => if old != delta_path(d) {
                Some(old)
            } else {
                None
            },
            None => None,
        }
    } else {
        None
    }
}

/// The entry of a changed file whose patch has not been read yet.
pub open spec fn entry_of(d: DeltaView) -> FileView {
    FileView {
        path: lossy_text(delta_path(d)),
        old_path: match delta_source(d) {
            Some(old) => Some(lossy_text(old)),
            None => None,
        },
        path_bytes: delta_path(d),
        old_path_bytes: delta_source(d),
        status: d.status,
        is_binary: d.is_binary,
        additions: 0,
        deletions: 0,
        diff_line_idx: None,
    }
}

fn entry_for(d: &DeltaInfo) -> (f: FileEntry)
    ensures
        f@ == entry_of(d@),
{
    let path_bytes = delta_path_bytes(d);
    let renamed = match d.status {
        Delta::Renamed | Delta::Copied => true,
        _ => false,
    };
    let old_path_bytes = match &d.old_path {
        Some(old) => if renamed && !same_bytes(old, &path_bytes) {
            Some(copy_bytes(old))
        } else {
            None
        },
        None => None,
    };
    let old_path = match &old_path_bytes {
        Some(old) => Some(text_lossy(old)),
        None => None,
    };
    FileEntry {
        path: text_lossy(&path_bytes),
        old_path,
        path_bytes,
        old_path_bytes,
        status: d.status,
        is_binary: d.is_binary,
        additions: 0,
        deletions: 0,
        diff_line_idx: None,
    }
}

/// The kind of line that an origin stands for.
pub open spec fn origin_kind(origin: char) -> LineKind {
    if origin == '+' {
        LineKind::Add
    } else if origin == '-' {
        LineKind::Del
    } else if origin == 'H' {
        LineKind::Hunk
    } else if origin == 'F' {
        LineKind::FileMeta
    } else {
        LineKind::Context
    }
}

/// The marker with which the text of a line of that origin starts.
pub open spec fn origin_marker(origin: char) -> Seq<char> {
    if origin == '+' || origin == '-' {
        seq![origin]
    } else {
        Seq::empty()
    }
}

/// A line number that git reports: lines of a file have one, and no number is zero.
pub open spec fn reported(origin: char, no: Option<u32>) -> Option<int> {
    if origin == '+' || origin == '-' || origin == ' ' {
        match no {
            Some(n) => if n == 0 {
                None
            } else {
                Some(n as int)
            },
            None => None,
        }
    } else {
        None
    }
}

/// The text without the line feeds that it ends with.
pub open spec fn trim_newlines(s: Seq<char>) -> Seq<char>
    decreases s.len(),
{
    if s.len() > 0 && s.last() == '\n' {
        trim_newlines(s.drop_last())
    } else {
        s
    }
}

/// Whether a line of a file's header names the file.
pub open spec fn names_file(s: Seq<char>) -> bool {
    "--- "@.is_prefix_of(s) || "+++ "@.is_prefix_of(s)
}

/// One line of a piece of the patch.
pub open spec fn patch_row(p: PatchView, piece: Seq<char>) -> LineView {
    LineView {
        old_lineno: reported(p.origin, p.old_lineno),
        new_lineno: reported(p.origin, p.new_lineno),
        ..plain_line(
            origin_marker(p.origin) + piece,
            if origin_kind(p.origin) == LineKind::FileMeta && names_file(piece) {
                LineKind::FileName
            } else {
                origin_kind(p.origin)
            },
        )
    }
}

/// The lines of a piece of the patch.
pub open spec fn patch_rows(p: PatchView) -> Seq<LineView> {
    split(trim_newlines(lossy_text(p.content)), '\n').map_values(|s: Seq<char>| patch_row(p, s))
}

/// A diff while its patch is read: the lines and files, and the file to which the last piece
/// belonged.
pub struct Body {
    pub lines: Seq<LineView>,
    pub files: Seq<FileView>,
    pub current: Option<int>,
}

/// Whether the file `i` is known by `path`.
pub open spec fn is_file(files: Seq<FileView>, i: int, path: Seq<u8>) -> bool {
    0 <= i < files.len() && files[i].path_bytes == path
}

/// The file to which the next piece belongs: the same as before, or the one behind it, or the first
/// one known by the path.
pub open spec fn next_file(files: Seq<FileView>, current: Option<int>, path: Seq<u8>) -> Option<int> {
    let next = match current {
        Some(i) => i + 1,
        None => 0,
    };
    if current matches Some(i) && is_file(files, i, path) {
        current
    } else if is_file(files, next, path) {
        Some(next)
    } else {
        file_named(files, path, 0)
    }
}

/// The file with the piece counted, and its start noted where it is the first of a stretch.
pub open spec fn counted(f: FileView, origin: char, start: Option<nat>) -> FileView {
    FileView {
        additions: f.additions + if origin == '+' {
            1nat
        } else {
            0nat
        },
        deletions: f.deletions + if origin == '-' {
            1nat
        } else {
            0nat
        },
        diff_line_idx: match start {
            Some(n) => Some(n),
            None => f.diff_line_idx,
        },
        ..f
    }
}

/// The diff after one more piece of the patch.
#[verifier::opaque]
pub open spec fn with_piece(b: Body, p: PatchView) -> Body {
    let file = next_file(b.files, b.current, p.path);
    let stays = b.current matches Some(i) && is_file(b.files, i, p.path);
    Body {
        lines: b.lines + patch_rows(p),
        files: match file {
            Some(i) => b.files.update(
                i,
                counted(
                    b.files[i],
                    p.origin,
                    if stays {
                        None
                    } else {
                        Some(b.lines.len())
                    },
                ),
            ),
            None => b.files,
        },
        current: file,
    }
}

/// The diff after the pieces of the patch.
pub open spec fn with_patch(b: Body, patch: Seq<PatchView>) -> Body
    decreases patch.len(),
{
    if patch.len() == 0 {
        b
    } else {
        with_piece(with_patch(b, patch.drop_last()), patch.last())
    }
}

/// The block of change counts above the patch, and the blank line behind it.
pub open spec fn stat_rows(stats: Option<Seq<char>>, show: bool) -> Seq<LineView> {
    if show {
        (match stats {
            Some(s) => lines_from(s, 0).map_values(|l: Seq<char>| plain_line(l, LineKind::Stat)),
            None => Seq::empty(),
        }) + seq![plain_line(Seq::empty(), LineKind::Blank)]
    } else {
        Seq::empty()
    }
}

/// The diff before its patch is read.
pub open spec fn body_start(
    lines: Seq<LineView>,
    files: Seq<FileView>,
    deltas: Seq<DeltaView>,
    stats: Option<Seq<char>>,
    show: bool,
) -> Body {
    Body {
        lines: lines + stat_rows(stats, show),
        files: files + deltas.map_values(|d: DeltaView| entry_of(d)),
        current: None,
    }
}

/// The views of the listed files.
pub open spec fn delta_views(deltas: Seq<DeltaInfo>) -> Seq<DeltaView> {
    deltas.map_values(|d: DeltaInfo| d@)
}

/// The views of the pieces of the patch.
pub open spec fn patch_views(patch: Seq<PatchLine>) -> Seq<PatchView> {
    patch.map_values(|p: PatchLine| p@)
}

/// The view of an optional text.
pub open spec fn opt_text(s: Option<&str>) -> Option<Seq<char>> {
    match s {
        Some(s) => Some(s@),
        None => None,
    }
}

/// Appends an entry for each listed file.
fn push_entries(files: &mut Vec<FileEntry>, deltas: &[DeltaInfo])
    ensures
        file_views(final(files)@) == file_views(old(files)@) + delta_views(deltas@).map_values(
            |d: DeltaView| entry_of(d),
        ),
{
    let ghost before = file_views(files@);
    let ghost entries = delta_views(deltas@).map_values(|d: DeltaView| entry_of(d));
    let mut i: usize = 0;
    assert(before + entries.take(0) =~= before);
    while i < deltas.len()
        invariant
            i <= deltas@.len(),
            entries == delta_views(deltas@).map_values(|d: DeltaView| entry_of(d)),
            file_views(files@) == before + entries.take(i as int),
        decreases deltas.len() - i,
    {
        let ghost here = file_views(files@);
        files.push(entry_for(&deltas[i]));
        assert(file_views(files@) =~= here.push(entries[i as int]));
        assert(before + entries.take(i + 1) =~= (before + entries.take(i as int)).push(
            entries[i as int],
        ));
        i += 1;
    }
    assert(entries.take(i as int) =~= entries);
}

/// Appends the block of change counts, where it is asked for.
fn push_stats(out: &mut Vec<DiffLine>, stats: Option<&str>, show: bool)
    ensures
        line_views(final(out)@) == line_views(old(out)@) + stat_rows(opt_text(stats), show),
{
    let ghost before = line_views(out@);
    if !show {
        assert(before + stat_rows(opt_text(stats), show) =~= before);
        return ;
    }
    let ghost rows = match opt_text(stats) {
        Some(s) => lines_from(s, 0).map_values(|l: Seq<char>| plain_line(l, LineKind::Stat)),
        None => Seq::empty(),
    };
    match stats {
        Some(s) => {
            let chars = chars_of(s);
            let texts = lines(&chars);
            let mut i: usize = 0;
            assert(before + rows.take(0) =~= before);
            while i < texts.len()
                invariant
                    i <= texts@.len(),
                    chars@ == s@,
                    texts@.len() == lines_from(s@, 0).len(),
                    forall|k: int| #![trigger texts@[k]]
                        0 <= k < texts@.len() ==> texts@[k]@ == lines_from(s@, 0)[k],
                    rows == lines_from(s@, 0).map_values(
                        |l: Seq<char>| plain_line(l, LineKind::Stat),
                    ),
                    line_views(out@) == before + rows.take(i as int),
                decreases texts.len() - i,
            {
                let ghost here = line_views(out@);
                let text = string_of(texts[i]);
                out.push(DiffLine::new(&text, LineKind::Stat));
                assert(line_views(out@) =~= here.push(rows[i as int]));
                assert(before + rows.take(i + 1) =~= (before + rows.take(i as int)).push(
                    rows[i as int],
                ));
                i += 1;
            }
            assert(rows.take(i as int) =~= rows);
        },
        None => {
            assert(before + rows =~= before);
        },
    }
    let ghost here = line_views(out@);
    let blank = String::new();
    out.push(DiffLine::new(&blank, LineKind::Blank));
    assert(line_views(out@) =~= here.push(plain_line(Seq::empty(), LineKind::Blank)));
    assert(line_views(out@) =~= before + stat_rows(opt_text(stats), show));
}

/// Appends the lines of a piece of the patch.
fn push_rows(out: &mut Vec<DiffLine>, p: &PatchLine)
    ensures
        line_views(final(out)@) == line_views(old(out)@) + patch_rows(p@),
{
    let ghost before = line_views(out@);
    let ghost v = p@;
    let ghost rows = patch_rows(v);
    let kind = match p.origin {
        '+' => LineKind::Add,
        '-' => LineKind::Del,
        'H' => LineKind::Hunk,
        'F' => LineKind::FileMeta,
        _ => LineKind::Context,
    };
    let mut old_lineno: Option<LineNo> = None;
    let mut new_lineno: Option<LineNo> = None;
    if p.origin == '+' || p.origin == '-' || p.origin == ' ' {
        if let Some(n) = p.old_lineno {
            old_lineno = LineNo::new(n);
        }
        if let Some(n) = p.new_lineno {
            new_lineno = LineNo::new(n);
        }
    }
    let content = text_lossy(&p.content);
    let chars = chars_of(&content);
    let mut end: usize = chars.len();
    assert(chars@.take(end as int) =~= chars@);
    while end > 0 && chars[end - 1] == '\n'
        invariant
            end <= chars@.len(),
            trim_newlines(chars@.take(end as int)) == trim_newlines(chars@),
        decreases end,
    {
        assert(chars@.take(end as int).drop_last() =~= chars@.take(end - 1));
        end -= 1;
    }
    let ghost text = trim_newlines(chars@);
    assert(text =~= chars@.subrange(0, end as int));
    let pieces = split_char(vstd::slice::slice_subrange(chars.as_slice(), 0, end), '\n');
    let old_name = chars_of("--- ");
    let new_name = chars_of("+++ ");
    let mut i: usize = 0;
    assert(before + rows.take(0) =~= before);
    while i < pieces.len()
        invariant
            i <= pieces@.len() == rows.len(),
            v == p@,
            rows == patch_rows(v),
            kind == origin_kind(v.origin),
            lineno_view(old_lineno) == reported(v.origin, v.old_lineno),
            lineno_view(new_lineno) == reported(v.origin, v.new_lineno),
            old_name@ == "--- "@,
            new_name@ == "+++ "@,
            text == trim_newlines(lossy_text(v.content)),
            pieces@.len() == split(text, '\n').len(),
            forall|k: int| #![trigger pieces@[k]]
                0 <= k < pieces@.len() ==> pieces@[k]@ == split(text, '\n')[k],
            line_views(out@) == before + rows.take(i as int),
        decreases pieces.len() - i,
    {
        let ghost here = line_views(out@);
        let piece = pieces[i];
        let piece_kind = if kind == LineKind::FileMeta && (has_prefix(piece, &old_name)
            || has_prefix(piece, &new_name)) {
            LineKind::FileName
        } else {
            kind
        };
        let mut line_text = String::new();
        if p.origin == '+' || p.origin == '-' {
            line_text.push(p.origin);
        }
        append_chars(&mut line_text, piece);
        assert(line_text@ =~= origin_marker(v.origin) + piece@);
        out.push(DiffLine::with_linenos(&line_text, piece_kind, old_lineno, new_lineno));
        assert(out@.last()@ == rows[i as int]);
        assert(line_views(out@) =~= here.push(rows[i as int]));
        assert(before + rows.take(i + 1) =~= (before + rows.take(i as int)).push(rows[i as int]));
        i += 1;
    }
    assert(rows.take(i as int) =~= rows);
}

/// The file to which the next piece belongs.
fn locate(files: &Vec<FileEntry>, current: Option<usize>, path: &[u8]) -> (file: Option<usize>)
    requires
        current matches Some(i) ==> i < files@.len(),
    ensures
        match file {
            Some(i) => i < files@.len() && next_file(
                file_views(files@),
                opt_index(current),
                path@,
            ) == Some(i as int),
            None => next_file(file_views(files@), opt_index(current), path@) is None,
        },
{
    let ghost views = file_views(files@);
    let n: usize = files.len();
    let next: usize = match current {
        Some(i) => {
            assert(views[i as int] == files@[i as int]@);
            if same_bytes(&files[i].path_bytes, path) {
                return Some(i);
            }
            i + 1
        },
        None => 0,
    };
    if next < files.len() {
        assert(views[next as int] == files@[next as int]@);
        if same_bytes(&files[next].path_bytes, path) {
            return Some(next);
        }
    }
    let mut i: usize = 0;
    while i < files.len()
        invariant
            i <= files@.len(),
            views == file_views(files@),
            file_named(views, path@, i as int) == file_named(views, path@, 0),
            next_file(views, opt_index(current), path@) == file_named(views, path@, 0),
        decreases files.len() - i,
    {
        assert(views[i as int] == files@[i as int]@);
        if same_bytes(&files[i].path_bytes, path) {
            return Some(i);
        }
        i += 1;
    }
    None
}

/// An optional index as an integer.
pub open spec fn opt_index(i: Option<usize>) -> Option<int> {
    match i {
        Some(i) => Some(i as int),
        None => None,
    }
}

/// Whether the counts of the files can take `n` more.
pub open spec fn counts_fit(files: Seq<FileView>, n: int) -> bool {
    forall|i: int| #![trigger files[i]]
        0 <= i < files.len() ==> files[i].additions + n <= usize::MAX && files[i].deletions + n
            <= usize::MAX
}

/// What can take more can take less.
proof fn lemma_counts_fit_less(files: Seq<FileView>, n: int, m: int)
    requires
        counts_fit(files, n),
        m <= n,
    ensures
        counts_fit(files, m),
{
    assert forall|i: int| #![trigger files[i]] 0 <= i < files.len() implies files[i].additions + m
        <= usize::MAX && files[i].deletions + m <= usize::MAX by {
        assert(files[i].additions + n <= usize::MAX && files[i].deletions + n <= usize::MAX);
    }
}

/// Reads one more piece of the patch.
fn push_piece(
    out: &mut Vec<DiffLine>,
    files: &mut Vec<FileEntry>,
    current: Option<usize>,
    p: &PatchLine,
) -> (file: Option<usize>)
    requires
        current matches Some(i) ==> i < old(files)@.len(),
        counts_fit(file_views(old(files)@), 1),
    ensures
        file matches Some(i) ==> i < final(files)@.len(),
        forall|n: int| #[trigger]
            counts_fit(file_views(old(files)@), n) ==> counts_fit(
                file_views(final(files)@),
                n - 1,
            ),
        with_piece(
            Body {
                lines: line_views(old(out)@),
                files: file_views(old(files)@),
                current: opt_index(current),
            },
            p@,
        ) == (Body {
            lines: line_views(final(out)@),
            files: file_views(final(files)@),
            current: opt_index(file),
        }),
{
    proof {
        reveal(with_piece);
    }
    let ghost views = file_views(files@);
    let file = locate(files, current, &p.path);
    let stays = match current {
        Some(i) => {
            assert(views[i as int] == files@[i as int]@);
            same_bytes(&files[i].path_bytes, &p.path)
        },
        None => false,
    };
    if let Some(i) = file {
        assert(views[i as int] == files@[i as int]@);
        let ghost start = if stays {
            None
        } else {
            Some(out@.len())
        };
        if !stays {
            files[i].diff_line_idx = Some(out.len());
        }
        if p.origin == '+' {
            files[i].additions = files[i].additions + 1;
        } else if p.origin == '-' {
            files[i].deletions = files[i].deletions + 1;
        }
        assert(files@[i as int]@ == counted(views[i as int], p.origin, start));
        assert(file_views(files@) =~= views.update(
            i as int,
            counted(views[i as int], p.origin, start),
        ));
    }
    push_rows(out, p);
    proof {
        let after = file_views(files@);
        assert forall|n: int| #[trigger] counts_fit(views, n) implies counts_fit(after, n - 1) by {
            assert forall|i: int| #![trigger after[i]]
                0 <= i < after.len() implies after[i].additions + (n - 1) <= usize::MAX
                && after[i].deletions + (n - 1) <= usize::MAX by {
                assert(views[i].additions + n <= usize::MAX);
            }
        }
    }
    file
}

/// One more piece of the patch.
proof fn lemma_next_piece(b: Body, patch: Seq<PatchView>, k: int)
    requires
        0 <= k < patch.len(),
    ensures
        with_patch(b, patch.take(k + 1)) == with_piece(with_patch(b, patch.take(k)), patch[k]),
{
    assert(patch.take(k + 1).drop_last() =~= patch.take(k));
    assert(patch.take(k + 1).last() == patch[k]);
}

/// Appends a diff: an entry for each listed file, the block of change counts where it is asked for,
/// then the patch.
#[verifier::spinoff_prover]
pub fn append_diff_body(
    out: &mut Vec<DiffLine>,
    files: &mut Vec<FileEntry>,
    deltas: &[DeltaInfo],
    stats: Option<&str>,
    patch: &[PatchLine],
    show_stats: bool,
)
    requires
        counts_fit(file_views(old(files)@), patch@.len() as int),
    ensures
        ({
            let done = with_patch(
                body_start(
                    line_views(old(out)@),
                    file_views(old(files)@),
                    delta_views(deltas@),
                    opt_text(stats),
                    show_stats,
                ),
                patch_views(patch@),
            );
            line_views(final(out)@) == done.lines && file_views(final(files)@) == done.files
        }),
{
    let ghost start = body_start(
        line_views(out@),
        file_views(files@),
        delta_views(deltas@),
        opt_text(stats),
        show_stats,
    );
    let ghost pieces = patch_views(patch@);
    push_entries(files, deltas);
    push_stats(out, stats, show_stats);
    let mut current: Option<usize> = None;
    let mut k: usize = 0;
    proof {
        assert(pieces.take(0) =~= Seq::<PatchView>::empty());
        let n = patch.len() as int;
        assert(patch@.len() == n);
        assert(counts_fit(file_views(files@), n));
    }
    while k < patch.len()
        invariant
            k <= patch@.len(),
            pieces == patch_views(patch@),
            current matches Some(i) ==> i < files@.len(),
            counts_fit(file_views(files@), patch@.len() - k),
            with_patch(start, pieces.take(k as int)) == (Body {
                lines: line_views(out@),
                files: file_views(files@),
                current: opt_index(current),
            }),
        decreases patch.len() - k,
    {
        let ghost before = file_views(files@);
        proof {
            lemma_next_piece(start, pieces, k as int);
            assert(pieces[k as int] == patch@[k as int]@);
            lemma_counts_fit_less(before, patch@.len() - k, 1);
        }
        current = push_piece(out, files, current, &patch[k]);
        proof {
            assert(counts_fit(before, patch@.len() - k));
        }
        k += 1;
    }
    assert(pieces.take(k as int) =~= pieces);
}

/// A row of the patch: its text holds no line feed, a deleted or added line starts with its marker,
/// and only a line of a file has a number.
pub open spec fn is_row(l: LineView) -> bool {
    &&& !l.text.contains('\n')
    &&& l.marked()
    &&& l.spans is None
    &&& l.emphasis is None
    &&& (l.old_lineno is Some || l.new_lineno is Some) ==> is_change(l.kind) || l.kind
        == LineKind::Context
}

proof fn lemma_patch_rows(p: PatchView)
    ensures
        forall|k: int| 0 <= k < patch_rows(p).len() ==> is_row(#[trigger] patch_rows(p)[k]),
{
    let text = trim_newlines(lossy_text(p.content));
    lemma_split_free(text, '\n');
    let rows = patch_rows(p);
    assert forall|k: int| 0 <= k < rows.len() implies is_row(#[trigger] rows[k]) by {
        let piece = split(text, '\n')[k];
        let row = rows[k];
        assert(row == patch_row(p, piece));
        assert(!piece.contains('\n'));
        if row.text.contains('\n') {
            let m = choose|m: int| 0 <= m < row.text.len() && row.text[m] == '\n';
            let n = origin_marker(p.origin).len();
            if m >= n {
                assert(piece[m - n] == '\n');
            }
        }
        if is_change(row.kind) {
            assert(row.text[0] == p.origin);
        }
    }
}

/// Every row that the patch appends is one line, marked where it is a change, and numbered only
/// where it is a line of a file; the rows before it stay.
pub proof fn law_patch_appends_rows(b: Body, patch: Seq<PatchView>)
    ensures
        b.lines.is_prefix_of(with_patch(b, patch).lines),
        forall|k: int|
            b.lines.len() <= k < with_patch(b, patch).lines.len() ==> is_row(
                #[trigger] with_patch(b, patch).lines[k],
            ),
    decreases patch.len(),
{
    if patch.len() > 0 {
        reveal(with_piece);
        let fore = patch.drop_last();
        law_patch_appends_rows(b, fore);
        let mid = with_patch(b, fore);
        let done = with_patch(b, patch);
        lemma_patch_rows(patch.last());
        assert(done.lines =~= mid.lines + patch_rows(patch.last()));
        assert forall|k: int| b.lines.len() <= k < done.lines.len() implies is_row(
            #[trigger] done.lines[k],
        ) by {
            if k < mid.lines.len() {
                assert(done.lines[k] == mid.lines[k]);
            } else {
                assert(done.lines[k] == patch_rows(patch.last())[k - mid.lines.len()]);
            }
        }
        assert(b.lines =~= done.lines.subrange(0, b.lines.len() as int));
    } else {
        assert(b.lines =~= b.lines.subrange(0, b.lines.len() as int));
    }
}

/// The lines added to all files, and the lines deleted from them.
pub open spec fn total_counts(files: Seq<FileView>) -> (nat, nat)
    decreases files.len(),
{
    if files.len() == 0 {
        (0, 0)
    } else {
        let fore = total_counts(files.drop_last());
        (fore.0 + files.last().additions, fore.1 + files.last().deletions)
    }
}

/// The pieces of the patch with that origin.
pub open spec fn pieces_of(patch: Seq<PatchView>, origin: char) -> nat
    decreases patch.len(),
{
    if patch.len() == 0 {
        0
    } else {
        pieces_of(patch.drop_last(), origin) + if patch.last().origin == origin {
            1nat
        } else {
            0nat
        }
    }
}

proof fn lemma_total_update(files: Seq<FileView>, i: int, f: FileView)
    requires
        0 <= i < files.len(),
    ensures
        total_counts(files.update(i, f)).0 == total_counts(files).0 - files[i].additions
            + f.additions,
        total_counts(files.update(i, f)).1 == total_counts(files).1 - files[i].deletions
            + f.deletions,
    decreases files.len(),
{
    let fore = files.drop_last();
    if i < fore.len() {
        lemma_total_update(fore, i, f);
        assert(files.update(i, f).drop_last() =~= fore.update(i, f));
    } else {
        assert(files.update(i, f).drop_last() =~= fore);
    }
}

/// Whether a file is known by the path.
pub open spec fn knows(files: Seq<FileView>, path: Seq<u8>) -> bool {
    exists|i: int| 0 <= i < files.len() && (#[trigger] files[i]).path_bytes == path
}

proof fn lemma_named(files: Seq<FileView>, path: Seq<u8>, i: int)
    requires
        0 <= i,
    ensures
        file_named(files, path, i) matches Some(k) ==> i <= k < files.len() && files[k].path_bytes
            == path,
        (exists|k: int| i <= k < files.len() && (#[trigger] files[k]).path_bytes == path)
            ==> file_named(files, path, i) is Some,
    decreases files.len() - i,
{
    if i < files.len() {
        lemma_named(files, path, i + 1);
    }
}

/// The patch changes no path, and counts each added and each deleted line of a listed file once.
pub proof fn law_patch_is_counted(b: Body, patch: Seq<PatchView>)
    requires
        forall|k: int| 0 <= k < patch.len() ==> knows(b.files, (#[trigger] patch[k]).path),
        b.current matches Some(i) ==> 0 <= i < b.files.len(),
    ensures
        with_patch(b, patch).files.len() == b.files.len(),
        forall|i: int| #![trigger with_patch(b, patch).files[i]]
            0 <= i < b.files.len() ==> with_patch(b, patch).files[i].path_bytes
                == b.files[i].path_bytes,
        with_patch(b, patch).current matches Some(i) ==> 0 <= i < b.files.len(),
        total_counts(with_patch(b, patch).files).0 == total_counts(b.files).0 + pieces_of(
            patch,
            '+',
        ),
        total_counts(with_patch(b, patch).files).1 == total_counts(b.files).1 + pieces_of(
            patch,
            '-',
        ),
    decreases patch.len(),
{
    if patch.len() > 0 {
        let fore = patch.drop_last();
        assert forall|k: int| 0 <= k < fore.len() implies knows(
            b.files,
            (#[trigger] fore[k]).path,
        ) by {
            assert(fore[k] == patch[k]);
        }
        law_patch_is_counted(b, fore);
        reveal(with_piece);
        let mid = with_patch(b, fore);
        let done = with_patch(b, patch);
        let p = patch.last();
        assert(knows(b.files, patch[patch.len() - 1].path));
        let w = choose|w: int| 0 <= w < b.files.len() && (#[trigger] b.files[w]).path_bytes == p.path;
        assert(mid.files[w].path_bytes == p.path);
        lemma_named(mid.files, p.path, 0);
        let i = next_file(mid.files, mid.current, p.path)->0;
        let f = done.files[i];
        assert(done.files == mid.files.update(i, f));
        lemma_total_update(mid.files, i, f);
    }
}

/// The patch leaves deleted and added lines marked: where the lines before it are, all of them are.
pub proof fn law_patch_lines_are_marked(b: Body, patch: Seq<PatchView>)
    requires
        forall|k: int| 0 <= k < b.lines.len() ==> (#[trigger] b.lines[k]).marked(),
    ensures
        forall|k: int|
            0 <= k < with_patch(b, patch).lines.len() ==> (#[trigger] with_patch(
                b,
                patch,
            ).lines[k]).marked(),
    decreases patch.len(),
{
    if patch.len() > 0 {
        let fore = patch.drop_last();
        law_patch_lines_are_marked(b, fore);
        reveal(with_piece);
        let mid = with_patch(b, fore);
        let done = with_patch(b, patch);
        let p = patch.last();
        let rows = patch_rows(p);
        assert forall|k: int| 0 <= k < done.lines.len() implies (
        #[trigger] done.lines[k]).marked() by {
            if k < mid.lines.len() {
                assert(done.lines[k] == mid.lines[k]);
            } else {
                let row = rows[k - mid.lines.len()];
                assert(done.lines[k] == row);
                if is_change(row.kind) {
                    assert(row.text[0] == p.origin);
                }
            }
        }
    }
}

/// The marker of an added line is a plus sign, that of a deleted line a minus sign, and other lines
/// have none.
pub open spec fn marked_text(origin: char, line: Seq<char>) -> Seq<char> {
    if origin == '+' {
        seq!['+'] + line
    } else if origin == '-' {
        seq!['-'] + line
    } else {
        line
    }
}

proof fn lemma_trim_newlines(body: Seq<char>, tail: Seq<char>)
    requires
        body.len() == 0 || body.last() != '\n',
        forall|i: int| 0 <= i < tail.len() ==> tail[i] == '\n',
    ensures
        trim_newlines(body + tail) == body,
    decreases tail.len(),
{
    if tail.len() == 0 {
        assert(body + tail =~= body);
    } else {
        assert((body + tail).drop_last() =~= body + tail.drop_last());
        lemma_trim_newlines(body, tail.drop_last());
    }
}

/// A piece of the patch that is one line, with or without its line feed, becomes one row: the marker
/// of its origin, then the line with every character kept.
pub proof fn law_line_is_kept_as_it_is(p: PatchView, line: Seq<char>)
    requires
        !line.contains('\n'),
        lossy_text(p.content) == line || lossy_text(p.content) == line.push('\n'),
    ensures
        patch_rows(p).len() == 1,
        patch_rows(p)[0].text == marked_text(p.origin, line),
{
    assert(line.len() == 0 || line.last() != '\n') by {
        if line.len() > 0 {
            assert(line.contains(line.last()));
        }
    }
    let none = Seq::<char>::empty();
    lemma_trim_newlines(line, none);
    lemma_trim_newlines(line, seq!['\n']);
    assert(line + none =~= line);
    assert(line + seq!['\n'] =~= line.push('\n'));
    assert(split(line, '\n') =~= seq![line]);
    assert(patch_rows(p)[0].text =~= marked_text(p.origin, line));
}

/// A piece of the patch of several lines becomes a row for each, in their order: those of what stands
/// before a line feed, then those of what stands behind it, as long as a line is left there.
pub proof fn law_piece_of_lines_is_cut_at_line_feeds(
    p: PatchView,
    q: PatchView,
    r: PatchView,
    first: Seq<char>,
    rest: Seq<char>,
)
    requires
        q.origin == p.origin && r.origin == p.origin,
        q.old_lineno == p.old_lineno && r.old_lineno == p.old_lineno,
        q.new_lineno == p.new_lineno && r.new_lineno == p.new_lineno,
        !first.contains('\n'),
        rest.len() > 0 && rest.last() != '\n',
        lossy_text(p.content) == first.push('\n') + rest,
        lossy_text(q.content) == first,
        lossy_text(r.content) == rest,
    ensures
        patch_rows(p) == patch_rows(q) + patch_rows(r),
{
    let none = Seq::<char>::empty();
    let whole = first.push('\n') + rest;
    assert(first.len() == 0 || first.last() != '\n') by {
        if first.len() > 0 {
            assert(first.contains(first.last()));
        }
    }
    assert(whole + none =~= whole && first + none =~= first && rest + none =~= rest);
    lemma_trim_newlines(whole, none);
    lemma_trim_newlines(first, none);
    lemma_trim_newlines(rest, none);
    law_parts_lie_between_separators(first, rest, '\n');
    assert(patch_rows(p) =~= patch_rows(q) + patch_rows(r));
}

/// The line feeds at the end of a piece of the patch make no rows.
pub proof fn law_last_line_feeds_make_no_rows(p: PatchView, q: PatchView)
    requires
        q.origin == p.origin,
        q.old_lineno == p.old_lineno,
        q.new_lineno == p.new_lineno,
        lossy_text(q.content) == lossy_text(p.content).push('\n'),
    ensures
        patch_rows(q) == patch_rows(p),
{
    assert(lossy_text(q.content).drop_last() =~= lossy_text(p.content));
    assert(patch_rows(q) =~= patch_rows(p));
}

/// Every row of a piece of the patch has the kind and the line numbers that git reports: added,
/// deleted and context lines have their own kind, a hunk header another, and the lines of a file's
/// header are told from those in it that name the file. Only lines of a file have numbers, and a zero
/// is none. No row is coloured or marked yet.
pub proof fn law_rows_have_kind_and_numbers(p: PatchView, k: int)
    requires
        0 <= k < patch_rows(p).len(),
    ensures
        ({
            let row = patch_rows(p)[k];
            let numbered = p.origin == '+' || p.origin == '-' || p.origin == ' ';
            &&& p.origin == '+' ==> row.kind == LineKind::Add
            &&& p.origin == '-' ==> row.kind == LineKind::Del
            &&& p.origin == 'H' ==> row.kind == LineKind::Hunk
            &&& p.origin == 'F' ==> row.kind == if "--- "@.is_prefix_of(row.text)
                || "+++ "@.is_prefix_of(row.text) {
                LineKind::FileName
            } else {
                LineKind::FileMeta
            }
            &&& p.origin != '+' && p.origin != '-' && p.origin != 'H' && p.origin != 'F'
                ==> row.kind == LineKind::Context
            &&& row.old_lineno == if numbered && p.old_lineno is Some && p.old_lineno->0 > 0 {
                Some(p.old_lineno->0 as int)
            } else {
                None
            }
            &&& row.new_lineno == if numbered && p.new_lineno is Some && p.new_lineno->0 > 0 {
                Some(p.new_lineno->0 as int)
            } else {
                None
            }
            &&& row.spans is None && row.emphasis is None
        }),
{
    let piece = split(trim_newlines(lossy_text(p.content)), '\n')[k];
    assert(patch_rows(p)[k] == patch_row(p, piece));
    if p.origin == 'F' {
        assert(patch_rows(p)[k].text =~= piece);
    }
}

/// The patch is read piece by piece: its rows are those of its pieces, in their order, behind those
/// that were there.
pub proof fn law_rows_follow_the_patch(b: Body, patch: Seq<PatchView>, p: PatchView)
    ensures
        with_patch(b, Seq::empty()) == b,
        with_patch(b, patch.push(p)).lines == with_patch(b, patch).lines + patch_rows(p),
{
    reveal(with_piece);
    assert(patch.push(p).drop_last() =~= patch);
}

/// Each piece of the patch counts for the file whose path it has, and for no other: an added line adds
/// one to its additions, a deleted line one to its deletions; and where the piece before belonged to
/// another file, the patch of the file starts at the next row. Nothing else of any file changes; and
/// a piece with a path that no file has changes none.
pub proof fn law_piece_counts_for_its_file(b: Body, patch: Seq<PatchView>, p: PatchView, i: int)
    requires
        forall|j: int, k: int| #![trigger b.files[j], b.files[k]]
            0 <= j < k < b.files.len() ==> b.files[j].path_bytes != b.files[k].path_bytes,
        b.current is None,
        0 <= i < b.files.len(),
    ensures
        ({
            let before = with_patch(b, patch);
            let after = with_patch(b, patch.push(p));
            let f = before.files[i];
            let mine = b.files[i].path_bytes == p.path;
            let goes_on = patch.len() > 0 && patch.last().path == p.path;
            &&& before.files.len() == b.files.len() && after.files.len() == b.files.len()
            &&& f.path_bytes == b.files[i].path_bytes
            &&& mine ==> after.files[i] == (FileView {
                additions: if p.origin == '+' {
                    f.additions + 1
                } else {
                    f.additions
                },
                deletions: if p.origin == '-' {
                    f.deletions + 1
                } else {
                    f.deletions
                },
                diff_line_idx: if goes_on {
                    f.diff_line_idx
                } else {
                    Some(before.lines.len())
                },
                ..f
            })
            &&& !mine ==> after.files[i] == f
        }),
    decreases patch.len(),
{
    lemma_files_keep_paths(b, patch);
    lemma_files_keep_paths(b, patch.push(p));
    lemma_current_is_last(b, patch);
    reveal(with_piece);
    assert(patch.push(p).drop_last() =~= patch);
    let before = with_patch(b, patch);
    lemma_named(before.files, p.path, 0);
    let n = next_file(before.files, before.current, p.path);
    if b.files[i].path_bytes == p.path {
        assert(before.files[i].path_bytes == p.path);
        assert(n is Some);
        let m = n->0;
        assert(before.files[m].path_bytes == p.path);
        assert(m == i) by {
            if m < i {
                assert(b.files[m].path_bytes != b.files[i].path_bytes);
            } else if i < m {
                assert(b.files[i].path_bytes != b.files[m].path_bytes);
            }
        }
    } else if n is Some {
        assert(before.files[n->0].path_bytes == p.path);
    }
}

/// The patch changes neither how many files there are nor their paths.
proof fn lemma_files_keep_paths(b: Body, patch: Seq<PatchView>)
    requires
        b.current is None,
    ensures
        with_patch(b, patch).files.len() == b.files.len(),
        forall|i: int| #![trigger with_patch(b, patch).files[i]]
            0 <= i < b.files.len() ==> with_patch(b, patch).files[i].path_bytes
                == b.files[i].path_bytes,
        with_patch(b, patch).current matches Some(i) ==> 0 <= i < b.files.len(),
    decreases patch.len(),
{
    if patch.len() > 0 {
        reveal(with_piece);
        let fore = patch.drop_last();
        lemma_files_keep_paths(b, fore);
        let mid = with_patch(b, fore);
        lemma_named(mid.files, patch.last().path, 0);
    }
}

/// The file of the last piece is the one with its path.
proof fn lemma_current_is_last(b: Body, patch: Seq<PatchView>)
    requires
        b.current is None,
    ensures
        ({
            let done = with_patch(b, patch);
            match done.current {
                Some(i) => patch.len() > 0 && 0 <= i < b.files.len() && b.files[i].path_bytes
                    == patch.last().path,
                None => patch.len() > 0 ==> forall|i: int|
                    0 <= i < b.files.len() ==> (#[trigger] b.files[i]).path_bytes
                        != patch.last().path,
            }
        }),
{
    if patch.len() > 0 {
        reveal(with_piece);
        let fore = patch.drop_last();
        lemma_files_keep_paths(b, fore);
        let mid = with_patch(b, fore);
        let path = patch.last().path;
        lemma_named(mid.files, path, 0);
        let done = with_patch(b, patch);
        if done.current is None {
            assert forall|i: int| 0 <= i < b.files.len() implies (#[trigger] b.files[i]).path_bytes
                != path by {
                assert(mid.files[i].path_bytes == b.files[i].path_bytes);
            }
        } else {
            let i = done.current->0;
            assert(mid.files[i].path_bytes == b.files[i].path_bytes);
        }
    }
}

/// A listed file is known by its path after the change, or by the one before where it has no other;
/// it has a source where it was renamed or copied from another path, and only then. Its status and
/// whether it is binary are git's, nothing is counted yet, and its patch has not begun.
pub proof fn law_entry_is_what_git_lists(d: DeltaView)
    ensures
        ({
            let f = entry_of(d);
            let path = if d.new_path is Some {
                d.new_path->0
            } else if d.old_path is Some {
                d.old_path->0
            } else {
                Seq::empty()
            };
            let comes_from = (d.status == Delta::Renamed || d.status == Delta::Copied)
                && d.old_path is Some && d.old_path->0 != path;
            &&& f.path_bytes == path
            &&& f.path == lossy_text(path)
            &&& f.old_path_bytes == if comes_from {
                d.old_path
            } else {
                None
            }
            &&& f.old_path == if comes_from {
                Some(lossy_text(d.old_path->0))
            } else {
                None
            }
            &&& f.status == d.status && f.is_binary == d.is_binary
            &&& f.additions == 0 && f.deletions == 0 && f.diff_line_idx is None
        }),
{
}

/// Before its patch, a diff lists the changed files behind those that were there, in git's order; and
/// shows git's block of change counts line by line, with a blank line behind it, where that is asked
/// for, and nothing otherwise.
pub proof fn law_body_starts_with_files_and_stats(
    lines: Seq<LineView>,
    files: Seq<FileView>,
    deltas: Seq<DeltaView>,
    stats: Seq<char>,
    k: int,
)
    ensures
        ({
            let rows = lines_from(stats, 0);
            let with = body_start(lines, files, deltas, Some(stats), true);
            let without = body_start(lines, files, deltas, Some(stats), false);
            let none = body_start(lines, files, deltas, None, true);
            &&& without.lines == lines
            &&& none.lines == lines.push(plain_line(Seq::empty(), LineKind::Blank))
            &&& with.lines.len() == lines.len() + rows.len() + 1
            &&& 0 <= k < lines.len() ==> with.lines[k] == lines[k]
            &&& 0 <= k < rows.len() ==> with.lines[lines.len() + k].text == rows[k]
                && with.lines[lines.len() + k].kind == LineKind::Stat
            &&& with.lines.last().kind == LineKind::Blank && with.lines.last().text.len() == 0
            &&& with.files.len() == files.len() + deltas.len()
            &&& 0 <= k < files.len() ==> with.files[k] == files[k]
            &&& 0 <= k < deltas.len() ==> with.files[files.len() + k] == entry_of(deltas[k])
            &&& without.files == with.files && none.files == with.files
            &&& with.current is None && without.current is None && none.current is None
        }),
{
    let without = body_start(lines, files, deltas, Some(stats), false);
    assert(without.lines =~= lines);
    let none = body_start(lines, files, deltas, None, true);
    assert(none.lines =~= lines.push(plain_line(Seq::empty(), LineKind::Blank)));
}

/// A piece of the patch counts for a file of its path, and for none only where no file has that path:
/// for the file before, where that has the path; else for the one behind it, where that has it.
pub proof fn law_piece_finds_its_file(files: Seq<FileView>, current: Option<int>, path: Seq<u8>)
    ensures
        next_file(files, current, path) matches Some(i) ==> 0 <= i < files.len() && files[i].path_bytes
            == path,
        next_file(files, current, path) is None ==> forall|i: int|
            0 <= i < files.len() ==> (#[trigger] files[i]).path_bytes != path,
        current matches Some(i) ==> (0 <= i < files.len() && files[i].path_bytes == path ==> next_file(
            files,
            current,
            path,
        ) == current),
        current matches Some(i) ==> (0 <= i && i + 1 < files.len() && files[i].path_bytes != path
            && files[i + 1].path_bytes == path ==> next_file(files, current, path) == Some(i + 1)),
        current is None && files.len() > 0 && files[0].path_bytes == path ==> next_file(
            files,
            current,
            path,
        ) == Some(0int),
{
    lemma_file_found(files, path, 0);
}

proof fn lemma_file_found(files: Seq<FileView>, path: Seq<u8>, i: int)
    requires
        0 <= i,
    ensures
        file_named(files, path, i) matches Some(k) ==> i <= k < files.len() && files[k].path_bytes == path,
        file_named(files, path, i) is None ==> forall|k: int|
            i <= k < files.len() ==> (#[trigger] files[k]).path_bytes != path,
    decreases files.len() - i,
{
    if i < files.len() && files[i].path_bytes != path {
        lemma_file_found(files, path, i + 1);
    }
}

} // verus!
