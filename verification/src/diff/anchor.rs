//! Finding the line that was being read again after the diff has been built anew.

use vstd::prelude::*;

use crate::bytes::{bytes_before, comes_before, copy_bytes, law_byte_order_is_strict, same_bytes};
use crate::diff::data::{file_views, Delta, FileEntry, FileView};
use crate::diff::files::{
    at_most, file_at, file_index_at_line_opt, file_line_ranges, file_line_starts,
    law_ranges_tile_the_patch, law_starts_are_listed_one_way, law_starts_ascend, lists_starts,
    pair_before, range_at, starts_of,
};
use crate::diff::line::{line_views, AnchorSide, DiffLine, LineNo, LineView};

verus! {

/// Where a diff was being read: a line of a file, and how far below the top of the view it stood.
#[derive(Clone, Debug, PartialEq, Eq)]
pub struct DiffAnchor {
    pub path: Vec<u8>,
    pub side: AnchorSide,
    pub lineno: LineNo,
    pub delta: usize,
}

/// What an anchor holds.
pub struct AnchorView {
    pub path: Seq<u8>,
    pub side: AnchorSide,
    pub lineno: int,
    pub delta: int,
}

impl View for DiffAnchor {
    type V = AnchorView;

    open spec fn view(&self) -> AnchorView {
        AnchorView {
            path: self.path@,
            side: self.side,
            lineno: self.lineno.num(),
            delta: self.delta as int,
        }
    }
}

/// The first row from `i` on that has a line number.
pub open spec fn numbered_from(lines: Seq<LineView>, i: int) -> Option<int>
    decreases lines.len() - i,
{
    if !(0 <= i < lines.len()) {
        None
    } else if lines[i].point() is Some {
        Some(i)
    } else {
        numbered_from(lines, i + 1)
    }
}

/// The last row before `i` that has a line number.
pub open spec fn numbered_before(lines: Seq<LineView>, i: int) -> Option<int>
    decreases i,
{
    if !(0 < i <= lines.len()) {
        None
    } else if lines[i - 1].point() is Some {
        Some(i - 1)
    } else {
        numbered_before(lines, i - 1)
    }
}

/// The row in the middle of a view of `visible` rows whose top is `top`, no further than the last.
pub open spec fn centre_row(len: int, top: int, visible: int) -> int {
    at_most(at_most(top, len - 1) + visible / 2, len - 1)
}

/// The row by which the view is found again: the first one from the middle of the view on that has a
/// line number, or else the last one before it.
pub open spec fn anchor_row(lines: Seq<LineView>, top: int, visible: int) -> Option<int> {
    let centre = centre_row(lines.len() as int, top, visible);
    match numbered_from(lines, centre) {
        Some(row) => Some(row),
        None => numbered_before(lines, centre),
    }
}

/// The anchor for the view: `None` where no row has a line number, or none belongs to a file.
pub open spec fn captured(
    lines: Seq<LineView>,
    files: Seq<FileView>,
    top: int,
    visible: int,
) -> Option<AnchorView> {
    match anchor_row(lines, top, visible) {
        Some(row) => match (lines[row].point(), file_at(starts_of(files), row)) {
            (Some((side, lineno)), Some(fi)) => Some(
                AnchorView {
                    path: files[fi].path_bytes,
                    side,
                    lineno,
                    delta: {
                        let first = at_most(top, lines.len() - 1);
                        if row > first {
                            row - first
                        } else {
                            0
                        }
                    },
                },
            ),
            _ => None,
        },
        None => None,
    }
}

/// The anchor for a view of `visible_rows` rows whose top row is `top_row`.
pub fn capture_anchor(
    lines: &[DiffLine],
    files: &[FileEntry],
    top_row: usize,
    visible_rows: usize,
) -> (anchor: Option<DiffAnchor>)
    ensures
        match anchor {
            Some(anchor) => captured(
                line_views(lines@),
                file_views(files@),
                top_row as int,
                visible_rows as int,
            ) == Some(anchor@),
            None => captured(
                line_views(lines@),
                file_views(files@),
                top_row as int,
                visible_rows as int,
            ) is None,
        },
{
    let ghost views = line_views(lines@);
    let ghost entries = file_views(files@);
    if lines.len() == 0 {
        return None;
    }
    let last: usize = lines.len() - 1;
    let top: usize = if top_row < last {
        top_row
    } else {
        last
    };
    let half: usize = visible_rows / 2;
    let centre: usize = if half < last - top {
        top + half
    } else {
        last
    };
    assert(centre == centre_row(views.len() as int, top_row as int, visible_rows as int));
    let mut row: usize = centre;
    while row < lines.len() && lines[row].anchor_point().is_none()
        invariant
            centre <= row <= lines@.len(),
            views == line_views(lines@),
            numbered_from(views, row as int) == numbered_from(views, centre as int),
        decreases lines.len() - row,
    {
        assert(views[row as int] == lines@[row as int]@);
        row += 1;
    }
    if row == lines.len() {
        row = centre;
        while row > 0 && lines[row - 1].anchor_point().is_none()
            invariant
                row <= centre < lines@.len(),
                views == line_views(lines@),
                numbered_before(views, row as int) == numbered_before(views, centre as int),
            decreases row,
        {
            assert(views[row - 1] == lines@[row - 1]@);
            row -= 1;
        }
        if row == 0 {
            return None;
        }
        row -= 1;
    }
    assert(views[row as int] == lines@[row as int]@);
    assert(anchor_row(views, top_row as int, visible_rows as int) == Some(row as int));
    let delta: usize = if row > top {
        row - top
    } else {
        0
    };
    let starts = file_line_starts(files);
    match (lines[row].anchor_point(), file_index_at_line_opt(&starts, row)) {
        (Some((side, lineno)), Some(fi)) => {
            proof {
                let k = lemma_file_at_place(starts@, row as int);
                assert(starts@[k].1 == fi);
                assert(entries[fi as int] == files@[fi as int]@);
            }
            Some(DiffAnchor { path: copy_bytes(&files[fi].path_bytes), side, lineno, delta })
        },
        _ => None,
    }
}

/// The first file from `i` on that is known by `path`.
pub open spec fn file_named(files: Seq<FileView>, path: Seq<u8>, i: int) -> Option<int>
    decreases files.len() - i,
{
    if !(0 <= i < files.len()) {
        None
    } else if files[i].path_bytes == path {
        Some(i)
    } else {
        file_named(files, path, i + 1)
    }
}

/// The first file from `i` on that was renamed from `path`.
pub open spec fn file_renamed_from(files: Seq<FileView>, path: Seq<u8>, i: int) -> Option<int>
    decreases files.len() - i,
{
    if !(0 <= i < files.len()) {
        None
    } else if files[i].status == Delta::Renamed && files[i].old_path_bytes == Some(path) {
        Some(i)
    } else {
        file_renamed_from(files, path, i + 1)
    }
}

/// The file that `path` stands for: the one known by it, or else the one renamed from it. A copy
/// does not stand for what it was copied from.
pub open spec fn file_for(files: Seq<FileView>, path: Seq<u8>) -> Option<int> {
    match file_named(files, path, 0) {
        Some(i) => Some(i),
        None => file_renamed_from(files, path, 0),
    }
}

/// The first row from `i` up to `end` whose number on `side` is at least `lineno`.
pub open spec fn row_reaching(
    lines: Seq<LineView>,
    side: AnchorSide,
    lineno: int,
    i: int,
    end: int,
) -> Option<int>
    decreases end - i,
{
    if !(0 <= i < end) {
        None
    } else if lines[i].lineno(side) matches Some(n) && n >= lineno {
        Some(i)
    } else {
        row_reaching(lines, side, lineno, i + 1, end)
    }
}

/// The rows of the file `fi`.
pub open spec fn file_rows(files: Seq<FileView>, total: int, fi: int) -> (int, int) {
    let starts = starts_of(files);
    let k = choose|k: int| 0 <= k < starts.len() && (#[trigger] starts[k]).1 == fi;
    (range_at(starts, total, k).1, range_at(starts, total, k).2)
}

/// The first line of the patch of the last file before `i` that has one.
pub open spec fn header_before(files: Seq<FileView>, i: int) -> Option<nat>
    decreases i,
{
    if !(0 < i <= files.len()) {
        None
    } else if files[i - 1].diff_line_idx is Some {
        files[i - 1].diff_line_idx
    } else {
        header_before(files, i - 1)
    }
}

/// The first line of the patch of the first file from `i` on that has one.
pub open spec fn header_from(files: Seq<FileView>, i: int) -> Option<nat>
    decreases files.len() - i,
{
    if !(0 <= i < files.len()) {
        None
    } else if files[i].diff_line_idx is Some {
        files[i].diff_line_idx
    } else {
        header_from(files, i + 1)
    }
}

/// The patch nearest to the place `at` among the files: the one before it, or else the one behind
/// it, or else the top.
pub open spec fn nearest_header(files: Seq<FileView>, at: int) -> int {
    match header_before(files, at) {
        Some(n) => n as int,
        None => match header_from(files, at) {
            Some(n) => n as int,
            None => 0,
        },
    }
}

/// Whether the files stand in the order of their paths.
pub open spec fn paths_ascend(files: Seq<FileView>, path: Seq<u8>) -> bool {
    forall|i: int, j: int| #![trigger files[i], files[j]]
        0 <= i < j < files.len() && bytes_before(files[j].path_bytes, path) ==> bytes_before(
            files[i].path_bytes,
            path,
        )
}

/// Whether the files before `at` come before `path`, and those behind do not.
pub open spec fn splits(files: Seq<FileView>, path: Seq<u8>, at: int) -> bool {
    &&& 0 <= at <= files.len()
    &&& forall|i: int|
        0 <= i < at ==> bytes_before((#[trigger] files[i]).path_bytes, path)
    &&& forall|i: int|
        at <= i < files.len() ==> !bytes_before((#[trigger] files[i]).path_bytes, path)
}

/// Whether `row` is where the anchor leads: to its line, or the next one of its file that is left;
/// or else to the start of that file's patch; or else to the patch nearest to where the file is or
/// would stand. The last is settled where the files stand in the order of their paths.
pub open spec fn leads_to(
    anchor: AnchorView,
    lines: Seq<LineView>,
    files: Seq<FileView>,
    row: int,
) -> bool {
    match file_for(files, anchor.path) {
        Some(fi) => match files[fi].diff_line_idx {
            Some(header) => {
                let (start, end) = file_rows(files, lines.len() as int, fi);
                match row_reaching(lines, anchor.side, anchor.lineno, start, end) {
                    Some(found) => row == if found > anchor.delta {
                        found - anchor.delta
                    } else {
                        0
                    },
                    None => row == header,
                }
            },
            None => row == nearest_header(files, fi),
        },
        None => exists|at: int|
            0 <= at <= files.len() && (paths_ascend(files, anchor.path) ==> splits(
                files,
                anchor.path,
                at,
            )) && row == #[trigger] nearest_header(files, at),
    }
}

/// The file that `path` stands for.
fn find_file(files: &[FileEntry], path: &[u8]) -> (fi: Option<usize>)
    ensures
        match fi {
            Some(fi) => fi < files@.len() && file_for(file_views(files@), path@) == Some(fi as int),
            None => file_for(file_views(files@), path@) is None,
        },
{
    let ghost views = file_views(files@);
    let mut i: usize = 0;
    while i < files.len()
        invariant
            i <= files@.len(),
            views == file_views(files@),
            file_named(views, path@, i as int) == file_named(views, path@, 0),
        decreases files.len() - i,
    {
        assert(views[i as int] == files@[i as int]@);
        if same_bytes(&files[i].path_bytes, path) {
            return Some(i);
        }
        i += 1;
    }
    let mut k: usize = 0;
    while k < files.len()
        invariant
            k <= files@.len(),
            views == file_views(files@),
            file_named(views, path@, 0) is None,
            file_renamed_from(views, path@, k as int) == file_renamed_from(views, path@, 0),
        decreases files.len() - k,
    {
        assert(views[k as int] == files@[k as int]@);
        if files[k].status == Delta::Renamed {
            if let Some(old) = &files[k].old_path_bytes {
                if same_bytes(old, path) {
                    return Some(k);
                }
            }
        }
        k += 1;
    }
    None
}

/// The place of `path` among the files, found by halving.
fn place_of(files: &[FileEntry], path: &[u8]) -> (at: usize)
    ensures
        at <= files@.len(),
        paths_ascend(file_views(files@), path@) ==> splits(file_views(files@), path@, at as int),
{
    let ghost views = file_views(files@);
    let mut lo: usize = 0;
    let mut hi: usize = files.len();
    while lo < hi
        invariant
            lo <= hi <= files@.len(),
            views == file_views(files@),
            paths_ascend(views, path@) ==> forall|i: int|
                0 <= i < lo ==> bytes_before((#[trigger] views[i]).path_bytes, path@),
            paths_ascend(views, path@) ==> forall|i: int|
                hi <= i < views.len() ==> !bytes_before((#[trigger] views[i]).path_bytes, path@),
        decreases hi - lo,
    {
        let mid: usize = lo + (hi - lo) / 2;
        assert(views[mid as int] == files@[mid as int]@);
        if comes_before(&files[mid].path_bytes, path) {
            lo = mid + 1;
        } else {
            hi = mid;
        }
    }
    lo
}

/// The patch nearest to the place `at` among the files.
fn nearest_patch(files: &[FileEntry], at: usize) -> (row: usize)
    requires
        at <= files@.len(),
    ensures
        row == nearest_header(file_views(files@), at as int),
{
    let ghost views = file_views(files@);
    let mut i: usize = at;
    while i > 0
        invariant
            i <= at <= files@.len(),
            views == file_views(files@),
            header_before(views, i as int) == header_before(views, at as int),
        decreases i,
    {
        assert(views[i - 1] == files@[i - 1]@);
        if let Some(line) = files[i - 1].diff_line_idx {
            return line;
        }
        i -= 1;
    }
    let mut k: usize = at;
    while k < files.len()
        invariant
            at <= k <= files@.len(),
            views == file_views(files@),
            header_before(views, at as int) is None,
            header_from(views, k as int) == header_from(views, at as int),
        decreases files.len() - k,
    {
        assert(views[k as int] == files@[k as int]@);
        if let Some(line) = files[k].diff_line_idx {
            return line;
        }
        k += 1;
    }
    0
}

/// The rows of a file that has a patch.
fn rows_of(files: &[FileEntry], total: usize, fi: usize) -> (r: (usize, usize))
    requires
        fi < files@.len(),
        files@[fi as int].diff_line_idx is Some,
    ensures
        (r.0 as int, r.1 as int) == file_rows(file_views(files@), total as int, fi as int),
        r.1 <= total,
{
    let ghost views = file_views(files@);
    let ghost starts = starts_of(views);
    let ghost file = fi as int;
    let ranges = file_line_ranges(files, total);
    proof {
        assert(views[fi as int] == files@[fi as int]@);
        assert(exists|k: int| 0 <= k < starts.len() && (#[trigger] starts[k]).1 == fi);
    }
    let mut k: usize = 0;
    while k < ranges.len()
        invariant
            k <= ranges@.len() == starts.len(),
            views == file_views(files@),
            starts == starts_of(views),
            file == fi,
            lists_starts(starts, views),
            forall|j: int| #![trigger ranges@[j]]
                0 <= j < ranges@.len() ==> (
                    ranges@[j].0 as int,
                    ranges@[j].1 as int,
                    ranges@[j].2 as int,
                ) == range_at(starts, total as int, j),
            forall|j: int| 0 <= j < k ==> (#[trigger] starts[j]).1 != fi,
        decreases ranges.len() - k,
    {
        if ranges[k].0 == fi {
            proof {
                let c = choose|k: int| 0 <= k < starts.len() && (#[trigger] starts[k]).1 == file;
                assert(starts[k as int].1 == fi);
                if c != k {
                    assert(starts[c].0 == starts[k as int].0);
                    if c < k {
                        assert(pair_before(starts[c], starts[k as int]));
                    } else {
                        assert(pair_before(starts[k as int], starts[c]));
                    }
                }
            }
            return (ranges[k].1, ranges[k].2);
        }
        assert(starts[k as int].1 != fi);
        k += 1;
    }
    proof {
        let c = choose|k: int| 0 <= k < starts.len() && (#[trigger] starts[k]).1 == fi;
        assert(starts[c].1 == fi);
    }
    (0, 0)
}

/// The row to scroll to so that the anchored line stands where it stood.
pub fn resolve_anchor(anchor: &DiffAnchor, lines: &[DiffLine], files: &[FileEntry]) -> (row: usize)
    ensures
        leads_to(anchor@, line_views(lines@), file_views(files@), row as int),
{
    let ghost views = line_views(lines@);
    let ghost entries = file_views(files@);
    let matched = find_file(files, &anchor.path);
    let at: usize = match matched {
        Some(fi) => {
            assert(entries[fi as int] == files@[fi as int]@);
            if let Some(header) = files[fi].diff_line_idx {
                let (start, end) = rows_of(files, lines.len(), fi);
                let mut r: usize = start;
                while r < end
                    invariant
                        end <= lines@.len(),
                        start <= r,
                        views == line_views(lines@),
                        row_reaching(
                            views,
                            anchor.side,
                            anchor.lineno.num(),
                            r as int,
                            end as int,
                        ) == row_reaching(
                            views,
                            anchor.side,
                            anchor.lineno.num(),
                            start as int,
                            end as int,
                        ),
                        entries == file_views(files@),
                        file_for(entries, anchor.path@) == Some(fi as int),
                        entries[fi as int].diff_line_idx == Some(header as nat),
                        (start as int, end as int) == file_rows(
                            entries,
                            lines@.len() as int,
                            fi as int,
                        ),
                    decreases end - r,
                {
                    assert(views[r as int] == lines@[r as int]@);
                    if let Some(n) = lines[r].lineno_on(anchor.side) {
                        if n.get() >= anchor.lineno.get() {
                            return if r > anchor.delta {
                                r - anchor.delta
                            } else {
                                0
                            };
                        }
                    }
                    r += 1;
                }
                return header;
            }
            fi
        },
        None => place_of(files, &anchor.path),
    };
    nearest_patch(files, at)
}

/// Where the anchor leads, as the file and the row; `None` where that is no line of a file. This
/// tells what to work on first, not where to scroll to.
pub fn anchor_hint(anchor: &DiffAnchor, lines: &[DiffLine], files: &[FileEntry]) -> (hint: Option<
    (usize, usize),
>)
    ensures
        match hint {
            Some((fi, row)) => leads_to(
                anchor@,
                line_views(lines@),
                file_views(files@),
                row as int,
            ) && file_at(starts_of(file_views(files@)), row as int) == Some(fi as int),
            None => exists|row: int| #[trigger]
                leads_to(anchor@, line_views(lines@), file_views(files@), row) && file_at(
                    starts_of(file_views(files@)),
                    row,
                ) is None,
        },
{
    let row: usize = resolve_anchor(anchor, lines, files);
    let starts = file_line_starts(files);
    match file_index_at_line_opt(&starts, row) {
        Some(fi) => Some((fi, row)),
        None => None,
    }
}

/// Whether no two files are known by the same path.
pub open spec fn paths_differ(files: Seq<FileView>) -> bool {
    forall|i: int, j: int| #![trigger files[i], files[j]]
        0 <= i < j < files.len() ==> files[i].path_bytes != files[j].path_bytes
}

/// Whether the line numbers of each side ascend within each file.
pub open spec fn numbers_ascend(lines: Seq<LineView>, starts: Seq<(usize, usize)>) -> bool {
    forall|p: int, q: int, side: AnchorSide|
        #![trigger lines[p].lineno(side), lines[q].lineno(side)]
        0 <= p < q < lines.len() && file_at(starts, p) == file_at(starts, q) && lines[p].lineno(
            side,
        ) is Some && lines[q].lineno(side) is Some ==> lines[p].lineno(side)->0 < lines[q].lineno(
            side,
        )->0
}

/// An anchor leads back to the top of the view for which it was captured, where the diff is the same;
/// to the anchored row itself where that stood above the view.
pub proof fn law_anchor_leads_back(
    lines: Seq<LineView>,
    files: Seq<FileView>,
    starts: Seq<(usize, usize)>,
    top: int,
    visible: int,
    row: int,
)
    requires
        lists_starts(starts, files),
        paths_differ(files),
        numbers_ascend(lines, starts),
        0 <= top,
        0 <= visible,
        captured(lines, files, top, visible) is Some,
        leads_to(captured(lines, files, top, visible)->0, lines, files, row),
    ensures
        row == {
            let anchored = anchor_row(lines, top, visible)->0;
            at_most(anchored, at_most(top, lines.len() - 1))
        },
{
    let anchor = captured(lines, files, top, visible)->0;
    let anchored = anchor_row(lines, top, visible)->0;
    assert(starts == starts_of(files)) by {
        law_starts_are_listed_one_way(starts, starts_of(files), files);
    }
    let fi = file_at(starts, anchored)->0;
    let (start, end) = file_rows(files, lines.len() as int, fi);
    lemma_anchor_row(lines, top, visible);
    lemma_rows_hold(files, starts, lines.len() as int, anchored);
    lemma_named_is(files, fi, 0);
    assert(lines[anchored].lineno(anchor.side) == Some(anchor.lineno));
    lemma_row_reaching_is(lines, starts, anchor.side, anchor.lineno, start, anchored, end, fi);
}

/// The rows of the file to which a row belongs hold that row, and no row of another file.
proof fn lemma_rows_hold(files: Seq<FileView>, starts: Seq<(usize, usize)>, total: int, row: int)
    requires
        lists_starts(starts, files),
        starts == starts_of(files),
        0 <= row < total,
        file_at(starts, row) is Some,
    ensures
        ({
            let fi = file_at(starts, row)->0;
            let (start, end) = file_rows(files, total, fi);
            &&& 0 <= fi < files.len()
            &&& files[fi].diff_line_idx is Some
            &&& 0 <= start <= row < end <= total
            &&& forall|p: int| start <= p < end ==> #[trigger] file_at(starts, p) == Some(fi)
        }),
{
    let fi = file_at(starts, row)->0;
    let k = lemma_file_at_place(starts, row);
    let c = choose|c: int| 0 <= c < starts.len() && (#[trigger] starts[c]).1 == fi;
    assert(starts[k].1 == fi);
    assert(c == k) by {
        assert(starts[c].0 == starts[k].0);
        if c < k {
            assert(pair_before(starts[c], starts[k]));
        }
        if k < c {
            assert(pair_before(starts[k], starts[c]));
        }
    }
    assert(k + 1 < starts.len() ==> starts[k + 1].0 > row);
    law_starts_ascend(files, starts);
    law_ranges_tile_the_patch(starts, total, k);
}

proof fn lemma_anchor_row(lines: Seq<LineView>, top: int, visible: int)
    requires
        0 <= top,
        0 <= visible,
        anchor_row(lines, top, visible) is Some,
    ensures
        0 <= anchor_row(lines, top, visible)->0 < lines.len(),
{
    let centre = centre_row(lines.len() as int, top, visible);
    lemma_numbered_from(lines, centre);
    lemma_numbered_before(lines, centre);
}

proof fn lemma_numbered_from(lines: Seq<LineView>, i: int)
    ensures
        numbered_from(lines, i) matches Some(r) ==> i <= r < lines.len() && 0 <= r,
    decreases lines.len() - i,
{
    if 0 <= i < lines.len() {
        lemma_numbered_from(lines, i + 1);
    }
}

proof fn lemma_numbered_before(lines: Seq<LineView>, i: int)
    ensures
        numbered_before(lines, i) matches Some(r) ==> 0 <= r < i <= lines.len(),
    decreases i,
{
    if 0 < i <= lines.len() {
        lemma_numbered_before(lines, i - 1);
    }
}

/// Where the file to which a line belongs stands in the list of starts.
proof fn lemma_file_at_place(starts: Seq<(usize, usize)>, line: int) -> (k: int)
    requires
        file_at(starts, line) is Some,
    ensures
        0 <= k < starts.len(),
        starts[k].1 == file_at(starts, line)->0,
        starts[k].0 <= line,
        forall|l: int| k < l < starts.len() ==> (#[trigger] starts[l]).0 > line,
    decreases starts.len(),
{
    let n = starts.len() - 1;
    if starts[n].0 <= line {
        n
    } else {
        let fore = starts.drop_last();
        let k = lemma_file_at_place(fore, line);
        assert forall|l: int| k < l < starts.len() implies (#[trigger] starts[l]).0 > line by {
            if l < n {
                assert(fore[l] == starts[l]);
            }
        }
        k
    }
}

proof fn lemma_named_is(files: Seq<FileView>, fi: int, i: int)
    requires
        paths_differ(files),
        0 <= i <= fi < files.len(),
    ensures
        file_named(files, files[fi].path_bytes, i) == Some(fi),
    decreases fi - i,
{
    if i < fi {
        assert(files[i].path_bytes != files[fi].path_bytes);
        lemma_named_is(files, fi, i + 1);
    }
}

proof fn lemma_row_reaching_is(
    lines: Seq<LineView>,
    starts: Seq<(usize, usize)>,
    side: AnchorSide,
    lineno: int,
    i: int,
    row: int,
    end: int,
    fi: int,
)
    requires
        0 <= i <= row < end <= lines.len(),
        numbers_ascend(lines, starts),
        lines[row].lineno(side) == Some(lineno),
        forall|p: int| i <= p < end ==> #[trigger] file_at(starts, p) == Some(fi),
    ensures
        row_reaching(lines, side, lineno, i, end) == Some(row),
    decreases row - i,
{
    if i < row {
        assert(file_at(starts, i) == Some(fi) && file_at(starts, row) == Some(fi));
        if lines[i].lineno(side) is Some {
            assert(lines[i].lineno(side)->0 < lines[row].lineno(side)->0);
        }
        lemma_row_reaching_is(lines, starts, side, lineno, i + 1, row, end, fi);
    }
}

/// Whether a row has a line number on either side.
pub open spec fn has_number(l: LineView) -> bool {
    l.new_lineno is Some || l.old_lineno is Some
}

proof fn lemma_numbered_from_is(lines: Seq<LineView>, i: int, r: int)
    requires
        0 <= i <= r < lines.len(),
        has_number(lines[r]),
        forall|j: int| i <= j < r ==> !has_number(#[trigger] lines[j]),
    ensures
        numbered_from(lines, i) == Some(r),
    decreases r - i,
{
    if i < r {
        assert(!has_number(lines[i]));
        lemma_numbered_from_is(lines, i + 1, r);
    }
}

proof fn lemma_numbered_from_none(lines: Seq<LineView>, i: int)
    requires
        0 <= i,
        forall|j: int| i <= j < lines.len() ==> !has_number(#[trigger] lines[j]),
    ensures
        numbered_from(lines, i) is None,
    decreases lines.len() - i,
{
    if i < lines.len() {
        assert(!has_number(lines[i]));
        lemma_numbered_from_none(lines, i + 1);
    }
}

proof fn lemma_numbered_before_is(lines: Seq<LineView>, i: int, r: int)
    requires
        0 <= r < i <= lines.len(),
        has_number(lines[r]),
        forall|j: int| r < j < i ==> !has_number(#[trigger] lines[j]),
    ensures
        numbered_before(lines, i) == Some(r),
    decreases i - r,
{
    if r < i - 1 {
        assert(!has_number(lines[i - 1]));
        lemma_numbered_before_is(lines, i - 1, r);
    }
}

/// The view is held by the row with a line number that is nearest to its middle from there on, or else
/// by the last one before. The anchor tells its file, its number after the change or else before it,
/// and how far it is below the top of the view.
pub proof fn law_view_is_held_by_its_middle(
    lines: Seq<LineView>,
    files: Seq<FileView>,
    top: int,
    visible: int,
    row: int,
    file: int,
)
    requires
        0 <= top,
        0 <= visible,
        0 <= row < lines.len(),
        has_number(lines[row]),
        ({
            let first = if top < lines.len() - 1 {
                top
            } else {
                lines.len() - 1
            };
            let middle = if first + visible / 2 < lines.len() - 1 {
                first + visible / 2
            } else {
                lines.len() - 1
            };
            if row >= middle {
                forall|j: int| middle <= j < row ==> !has_number(#[trigger] lines[j])
            } else {
                forall|j: int| row < j < lines.len() ==> !has_number(#[trigger] lines[j])
            }
        }),
        file_at(starts_of(files), row) == Some(file),
    ensures
        captured(lines, files, top, visible) matches Some(anchor) && {
            let first = if top < lines.len() - 1 {
                top
            } else {
                lines.len() - 1
            };
            &&& anchor.path == files[file].path_bytes
            &&& lines[row].new_lineno is Some ==> anchor.side == AnchorSide::New && anchor.lineno
                == lines[row].new_lineno->0
            &&& lines[row].new_lineno is None ==> anchor.side == AnchorSide::Old && anchor.lineno
                == lines[row].old_lineno->0
            &&& row >= first ==> anchor.delta == row - first
            &&& row < first ==> anchor.delta == 0
        },
{
    let middle = centre_row(lines.len() as int, top, visible);
    if row >= middle {
        lemma_numbered_from_is(lines, middle, row);
    } else {
        assert forall|j: int| middle <= j < lines.len() implies !has_number(#[trigger] lines[j]) by {}
        lemma_numbered_from_none(lines, middle);
        lemma_numbered_before_is(lines, middle, row);
    }
}

proof fn lemma_first_named(files: Seq<FileView>, path: Seq<u8>, i: int, k: int)
    requires
        0 <= i <= k < files.len(),
        files[k].path_bytes == path,
        forall|j: int| i <= j < k ==> (#[trigger] files[j]).path_bytes != path,
    ensures
        file_named(files, path, i) == Some(k),
    decreases k - i,
{
    if i < k {
        lemma_first_named(files, path, i + 1, k);
    }
}

proof fn lemma_not_named(files: Seq<FileView>, path: Seq<u8>, i: int)
    requires
        0 <= i,
        forall|j: int| i <= j < files.len() ==> (#[trigger] files[j]).path_bytes != path,
    ensures
        file_named(files, path, i) is None,
    decreases files.len() - i,
{
    if i < files.len() {
        lemma_not_named(files, path, i + 1);
    }
}

proof fn lemma_renamed_is(files: Seq<FileView>, path: Seq<u8>, i: int, k: int)
    requires
        0 <= i <= k < files.len(),
        files[k].status == Delta::Renamed && files[k].old_path_bytes == Some(path),
        forall|j: int|
            i <= j < k ==> !((#[trigger] files[j]).status == Delta::Renamed
                && files[j].old_path_bytes == Some(path)),
    ensures
        file_renamed_from(files, path, i) == Some(k),
    decreases k - i,
{
    if i < k {
        assert(!(files[i].status == Delta::Renamed && files[i].old_path_bytes == Some(path)));
        lemma_renamed_is(files, path, i + 1, k);
    }
}

proof fn lemma_not_renamed(files: Seq<FileView>, path: Seq<u8>, i: int)
    requires
        0 <= i,
        forall|j: int|
            i <= j < files.len() ==> !((#[trigger] files[j]).status == Delta::Renamed
                && files[j].old_path_bytes == Some(path)),
    ensures
        file_renamed_from(files, path, i) is None,
    decreases files.len() - i,
{
    if i < files.len() {
        assert(!(files[i].status == Delta::Renamed && files[i].old_path_bytes == Some(path)));
        lemma_not_renamed(files, path, i + 1);
    }
}

/// A path stands for the first file known by it; where there is none, for the first file that was
/// renamed from it; and otherwise for none, so that a copy does not stand for its source.
pub proof fn law_path_stands_for_a_file(files: Seq<FileView>, path: Seq<u8>, k: int)
    ensures
        0 <= k < files.len() && files[k].path_bytes == path && (forall|j: int|
            0 <= j < k ==> (#[trigger] files[j]).path_bytes != path) ==> file_for(files, path)
            == Some(k),
        0 <= k < files.len() && files[k].status == Delta::Renamed && files[k].old_path_bytes == Some(
            path,
        ) && (forall|j: int|
            0 <= j < k ==> !((#[trigger] files[j]).status == Delta::Renamed
                && files[j].old_path_bytes == Some(path))) && (forall|j: int|
            0 <= j < files.len() ==> (#[trigger] files[j]).path_bytes != path) ==> file_for(
            files,
            path,
        ) == Some(k),
        (forall|j: int|
            0 <= j < files.len() ==> (#[trigger] files[j]).path_bytes != path && !(files[j].status
                == Delta::Renamed && files[j].old_path_bytes == Some(path))) ==> file_for(files, path)
            is None,
{
    if 0 <= k < files.len() && files[k].path_bytes == path && (forall|j: int|
        0 <= j < k ==> (#[trigger] files[j]).path_bytes != path) {
        lemma_first_named(files, path, 0, k);
    }
    if forall|j: int| 0 <= j < files.len() ==> (#[trigger] files[j]).path_bytes != path {
        lemma_not_named(files, path, 0);
        if 0 <= k < files.len() && files[k].status == Delta::Renamed && files[k].old_path_bytes
            == Some(path) && (forall|j: int|
            0 <= j < k ==> !((#[trigger] files[j]).status == Delta::Renamed
                && files[j].old_path_bytes == Some(path))) {
            lemma_renamed_is(files, path, 0, k);
        }
        if forall|j: int|
            0 <= j < files.len() ==> !((#[trigger] files[j]).status == Delta::Renamed
                && files[j].old_path_bytes == Some(path)) {
            lemma_not_renamed(files, path, 0);
        }
    }
    if forall|j: int|
        0 <= j < files.len() ==> (#[trigger] files[j]).path_bytes != path && !(files[j].status
            == Delta::Renamed && files[j].old_path_bytes == Some(path)) {
        assert forall|j: int| 0 <= j < files.len() implies (#[trigger] files[j]).path_bytes
            != path by {}
        lemma_not_named(files, path, 0);
        assert forall|j: int| 0 <= j < files.len() implies !((#[trigger] files[j]).status
            == Delta::Renamed && files[j].old_path_bytes == Some(path)) by {}
        lemma_not_renamed(files, path, 0);
    }
}

proof fn lemma_first_reaching(
    lines: Seq<LineView>,
    side: AnchorSide,
    lineno: int,
    i: int,
    end: int,
    r: int,
)
    requires
        0 <= i <= r < end,
        lines[r].lineno(side) matches Some(n) && n >= lineno,
        forall|j: int|
            i <= j < r ==> !(lines[j].lineno(side) is Some && (#[trigger] lines[j]).lineno(side)->0
                >= lineno),
    ensures
        row_reaching(lines, side, lineno, i, end) == Some(r),
    decreases r - i,
{
    if i < r {
        assert(!(lines[i].lineno(side) is Some && lines[i].lineno(side)->0 >= lineno));
        lemma_first_reaching(lines, side, lineno, i + 1, end, r);
    }
}

proof fn lemma_row_reaching_none(
    lines: Seq<LineView>,
    side: AnchorSide,
    lineno: int,
    i: int,
    end: int,
)
    requires
        0 <= i,
        forall|j: int|
            i <= j < end ==> !(lines[j].lineno(side) is Some && (#[trigger] lines[j]).lineno(side)->0
                >= lineno),
    ensures
        row_reaching(lines, side, lineno, i, end) is None,
    decreases end - i,
{
    if i < end {
        assert(!(lines[i].lineno(side) is Some && lines[i].lineno(side)->0 >= lineno));
        lemma_row_reaching_none(lines, side, lineno, i + 1, end);
    }
}

/// An anchor leads to the first row of its file whose number on its side is at least its own, and from
/// there as far up as it was below the top, but not above the first row; and where the file has no such
/// row, to the start of its patch.
pub proof fn law_anchor_leads_to_its_line(
    anchor: AnchorView,
    lines: Seq<LineView>,
    files: Seq<FileView>,
    fi: int,
    found: int,
    row: int,
)
    requires
        file_for(files, anchor.path) == Some(fi),
        0 <= fi < files.len(),
        files[fi].diff_line_idx is Some,
        leads_to(anchor, lines, files, row),
        file_rows(files, lines.len() as int, fi).0 >= 0,
    ensures
        ({
            let (start, end) = file_rows(files, lines.len() as int, fi);
            let reaches = |j: int|
                match anchor.side {
                    AnchorSide::New => lines[j].new_lineno is Some && lines[j].new_lineno->0
                        >= anchor.lineno,
                    AnchorSide::Old => lines[j].old_lineno is Some && lines[j].old_lineno->0
                        >= anchor.lineno,
                };
            &&& start <= found < end && reaches(found) && (forall|j: int|
                start <= j < found ==> !#[trigger] reaches(j)) ==> row == if found >= anchor.delta {
                found - anchor.delta
            } else {
                0
            }
            &&& (forall|j: int| start <= j < end ==> !#[trigger] reaches(j)) ==> row
                == files[fi].diff_line_idx->0
        }),
{
    let (start, end) = file_rows(files, lines.len() as int, fi);
    let reaches = |j: int|
        match anchor.side {
            AnchorSide::New => lines[j].new_lineno is Some && lines[j].new_lineno->0
                >= anchor.lineno,
            AnchorSide::Old => lines[j].old_lineno is Some && lines[j].old_lineno->0
                >= anchor.lineno,
        };
    if start <= found < end && reaches(found) && (forall|j: int|
        start <= j < found ==> !#[trigger] reaches(j)) {
        assert forall|j: int| start <= j < found implies !(lines[j].lineno(anchor.side) is Some && (
        #[trigger] lines[j]).lineno(anchor.side)->0 >= anchor.lineno) by {
            assert(!reaches(j));
        }
        lemma_first_reaching(lines, anchor.side, anchor.lineno, start, end, found);
    }
    if forall|j: int| start <= j < end ==> !#[trigger] reaches(j) {
        assert forall|j: int| start <= j < end implies !(lines[j].lineno(anchor.side) is Some && (
        #[trigger] lines[j]).lineno(anchor.side)->0 >= anchor.lineno) by {
            assert(!reaches(j));
        }
        lemma_row_reaching_none(lines, anchor.side, anchor.lineno, start, end);
    }
}

proof fn lemma_header_before(files: Seq<FileView>, at: int, k: int)
    requires
        0 <= at <= files.len(),
        -1 <= k < at,
        forall|j: int| k < j < at ==> (#[trigger] files[j]).diff_line_idx is None,
        k >= 0 ==> files[k].diff_line_idx is Some,
    ensures
        header_before(files, at) == if k >= 0 {
            files[k].diff_line_idx
        } else {
            None
        },
    decreases at - k,
{
    if k < at - 1 {
        assert(files[at - 1].diff_line_idx is None);
        if at - 1 > 0 || k < at - 1 {
            if k <= at - 2 {
                lemma_header_before(files, at - 1, k);
            }
        }
    }
}

proof fn lemma_header_from(files: Seq<FileView>, at: int, k: int)
    requires
        0 <= at <= k <= files.len(),
        forall|j: int| at <= j < k ==> (#[trigger] files[j]).diff_line_idx is None,
        k < files.len() ==> files[k].diff_line_idx is Some,
    ensures
        header_from(files, at) == if k < files.len() {
            files[k].diff_line_idx
        } else {
            None
        },
    decreases k - at,
{
    if at < k {
        assert(files[at].diff_line_idx is None);
        lemma_header_from(files, at + 1, k);
    }
}

/// Where the file of an anchor has no patch, the anchor leads to the start of the nearest patch before
/// it, or else behind it, or else to the top.
pub proof fn law_nearest_patch_stands_in(files: Seq<FileView>, at: int, before: int, behind: int)
    requires
        0 <= at <= files.len(),
        -1 <= before < at <= behind <= files.len(),
        forall|j: int|
            before < j < behind && j != at ==> (#[trigger] files[j]).diff_line_idx is None,
        at < behind ==> files[at].diff_line_idx is None,
        before >= 0 ==> files[before].diff_line_idx is Some,
        behind < files.len() ==> files[behind].diff_line_idx is Some,
    ensures
        before >= 0 ==> nearest_header(files, at) == files[before].diff_line_idx->0,
        before < 0 && behind < files.len() ==> nearest_header(files, at)
            == files[behind].diff_line_idx->0,
        before < 0 && behind == files.len() ==> nearest_header(files, at) == 0,
{
    lemma_header_before(files, at, before);
    assert forall|j: int| at <= j < behind implies (#[trigger] files[j]).diff_line_idx is None by {}
    lemma_header_from(files, at, behind);
}

/// The rows of a file are those from the start of its patch to that of the next one in the diff, or to
/// the end, and not beyond that.
pub proof fn law_rows_of_a_file(
    files: Seq<FileView>,
    starts: Seq<(usize, usize)>,
    total: int,
    k: int,
)
    requires
        lists_starts(starts, files),
        starts == starts_of(files),
        0 <= k < starts.len(),
    ensures
        ({
            let (start, end) = file_rows(files, total, starts[k].1 as int);
            &&& start == if starts[k].0 < total {
                starts[k].0 as int
            } else {
                total
            }
            &&& end == if k + 1 < starts.len() && starts[k + 1].0 < total {
                starts[k + 1].0 as int
            } else {
                total
            }
        }),
{
    let fi = starts[k].1 as int;
    let j = choose|j: int| 0 <= j < starts.len() && (#[trigger] starts[j]).1 == fi;
    assert(files[starts[k].1 as int].diff_line_idx == Some(starts[k].0 as nat));
    assert(files[starts[j].1 as int].diff_line_idx == Some(starts[j].0 as nat));
    if j < k {
        assert(crate::diff::files::pair_before(starts[j], starts[k]));
    } else if k < j {
        assert(crate::diff::files::pair_before(starts[k], starts[j]));
    }
}

/// Where the file of an anchor is gone, the anchor leads to the patch nearest to the place that the file
/// would have among the others.
pub proof fn law_lost_file_is_sought_at_its_place(
    anchor: AnchorView,
    lines: Seq<LineView>,
    files: Seq<FileView>,
    row: int,
    at: int,
)
    requires
        0 <= at <= files.len(),
        forall|i: int| 0 <= i < at ==> bytes_before((#[trigger] files[i]).path_bytes, anchor.path),
        forall|i: int|
            at <= i < files.len() ==> bytes_before(anchor.path, (#[trigger] files[i]).path_bytes),
        forall|i: int|
            0 <= i < files.len() ==> !((#[trigger] files[i]).status == Delta::Renamed
                && files[i].old_path_bytes == Some(anchor.path)),
    ensures
        leads_to(anchor, lines, files, row) <==> row == nearest_header(files, at),
{
    let path = anchor.path;
    assert forall|i: int| 0 <= i < files.len() implies (#[trigger] files[i]).path_bytes != path by {
        law_byte_order_is_strict(path, files[i].path_bytes, path);
    }
    lemma_not_named(files, path, 0);
    lemma_not_renamed(files, path, 0);
    assert forall|i: int| at <= i < files.len() implies !bytes_before(
        (#[trigger] files[i]).path_bytes,
        path,
    ) by {
        law_byte_order_is_strict(path, files[i].path_bytes, path);
    }
    assert(paths_ascend(files, path));
    assert(splits(files, path, at));
    assert forall|k: int| splits(files, path, k) implies k == at by {
        if k < at {
            assert(bytes_before(files[k].path_bytes, path));
        } else if k > at {
            assert(bytes_before(files[at].path_bytes, path));
        }
    }
    if row == nearest_header(files, at) {
        assert(0 <= at <= files.len() && row == nearest_header(files, at));
    }
}

} // verus!
