//! Which lines of a diff belong to which file.

use vstd::prelude::*;

use crate::diff::data::{file_views, FileEntry, FileView};
use crate::order::{insertion_sort, sorted};

verus! {

/// Whether the first pair comes before the second: by the line, then by the file.
pub open spec fn pair_before(a: (usize, usize), b: (usize, usize)) -> bool {
    a.0 < b.0 || a.0 == b.0 && a.1 < b.1
}

/// Whether `starts` lists the files that have a patch, each once, with the line at which its patch
/// starts, ordered by that line and then by the file.
pub open spec fn lists_starts(starts: Seq<(usize, usize)>, files: Seq<FileView>) -> bool {
    &&& forall|k: int, l: int| #![trigger starts[k], starts[l]]
        0 <= k < l < starts.len() ==> pair_before(starts[k], starts[l])
    &&& forall|k: int| #![trigger starts[k]]
        0 <= k < starts.len() ==> starts[k].1 < files.len() && files[starts[k].1 as int].diff_line_idx
            == Some(starts[k].0 as nat)
    &&& forall|i: int| #![trigger files[i]]
        0 <= i < files.len() && files[i].diff_line_idx is Some ==> exists|k: int|
            0 <= k < starts.len() && (#[trigger] starts[k]).1 == i
}

/// The line at which each patch starts and the index of its file, in ascending order.
pub open spec fn starts_of(files: Seq<FileView>) -> Seq<(usize, usize)> {
    choose|starts: Seq<(usize, usize)>| lists_starts(starts, files)
}

/// The starts of the patches can be listed in one way only.
pub proof fn law_starts_are_listed_one_way(
    a: Seq<(usize, usize)>,
    b: Seq<(usize, usize)>,
    files: Seq<FileView>,
)
    requires
        lists_starts(a, files),
        lists_starts(b, files),
    ensures
        a == b,
{
    lemma_starts_agree(a, b, files, a.len() as int);
    lemma_starts_agree(b, a, files, b.len() as int);
    assert(a.take(a.len() as int) =~= a);
    assert(b.take(b.len() as int) =~= b);
}

proof fn lemma_starts_agree(
    a: Seq<(usize, usize)>,
    b: Seq<(usize, usize)>,
    files: Seq<FileView>,
    n: int,
)
    requires
        lists_starts(a, files),
        lists_starts(b, files),
        0 <= n <= a.len(),
    ensures
        n <= b.len(),
        a.take(n) == b.take(n),
    decreases n,
{
    if n > 0 {
        let k = n - 1;
        lemma_starts_agree(a, b, files, k);
        assert forall|m: int| 0 <= m < k implies #[trigger] a[m] == b[m] by {
            assert(a.take(k)[m] == b.take(k)[m]);
        }
        let m = lemma_listed(b, files, a[k]);
        if m < k {
            assert(a[m] == b[m]);
            assert(pair_before(a[m], a[k]));
        }
        let l = lemma_listed(a, files, b[k]);
        if l < k {
            assert(a[l] == b[l]);
            assert(pair_before(b[l], b[k]));
        }
        if m > k {
            assert(pair_before(b[k], b[m]));
            if l > k {
                assert(pair_before(a[k], a[l]));
            }
        }
        assert(a[k] == b[k]);
        assert(a.take(n) =~= b.take(n));
    }
}

/// Where the pair of a file with a patch stands in a list of starts.
proof fn lemma_listed(starts: Seq<(usize, usize)>, files: Seq<FileView>, p: (usize, usize)) -> (m:
    int)
    requires
        lists_starts(starts, files),
        p.1 < files.len(),
        files[p.1 as int].diff_line_idx == Some(p.0 as nat),
    ensures
        0 <= m < starts.len(),
        starts[m] == p,
{
    let m = choose|m: int| 0 <= m < starts.len() && (#[trigger] starts[m]).1 == p.1;
    assert(starts[m].0 == p.0);
    m
}

/// The line at which each patch starts and the index of its file, in ascending order.
pub fn file_line_starts(files: &[FileEntry]) -> (starts: Vec<(usize, usize)>)
    ensures
        starts@ == starts_of(file_views(files@)),
        lists_starts(starts@, file_views(files@)),
{
    let ghost views = file_views(files@);
    let mut starts: Vec<(usize, usize)> = Vec::new();
    let mut i: usize = 0;
    while i < files.len()
        invariant
            i <= files.len(),
            views == file_views(files@),
            forall|k: int| #![trigger starts@[k]]
                0 <= k < starts@.len() ==> starts@[k].1 < i && views[starts@[k].1 as int].diff_line_idx
                    == Some(starts@[k].0 as nat),
            forall|k: int, l: int| #![trigger starts@[k], starts@[l]]
                0 <= k < l < starts@.len() ==> starts@[k].1 < starts@[l].1,
            forall|j: int| #![trigger views[j]]
                0 <= j < i && views[j].diff_line_idx is Some ==> exists|k: int|
                    0 <= k < starts@.len() && (#[trigger] starts@[k]).1 == j,
        decreases files.len() - i,
    {
        let ghost before = starts@;
        assert(views[i as int] == files@[i as int]@);
        if let Some(line) = files[i].diff_line_idx {
            starts.push((line, i));
            assert forall|j: int| #![trigger views[j]]
                0 <= j <= i && views[j].diff_line_idx is Some implies exists|k: int|
                0 <= k < starts@.len() && (#[trigger] starts@[k]).1 == j by {
                if j < i {
                    let k = choose|k: int| 0 <= k < before.len() && (#[trigger] before[k]).1 == j;
                    assert(starts@[k].1 == j);
                } else {
                    assert(starts@[before.len() as int].1 == j);
                }
            }
        }
        i += 1;
    }
    let ghost lt = |a: (usize, usize), b: (usize, usize)| pair_before(a, b);
    let ghost unsorted = starts@;
    let less = |a: (usize, usize), b: (usize, usize)| -> (r: bool)
        ensures
            r == pair_before(a, b),
        { a.0 < b.0 || (a.0 == b.0 && a.1 < b.1) };
    insertion_sort(&mut starts, less, Ghost(lt));
    proof {
        lemma_sorted_starts(unsorted, starts@, views);
        law_starts_are_listed_one_way(starts@, starts_of(views), views);
    }
    starts
}

proof fn lemma_sorted_starts(
    unsorted: Seq<(usize, usize)>,
    starts: Seq<(usize, usize)>,
    views: Seq<FileView>,
)
    requires
        sorted(starts, |a: (usize, usize), b: (usize, usize)| pair_before(a, b)),
        starts.to_multiset() == unsorted.to_multiset(),
        forall|k: int| #![trigger unsorted[k]]
            0 <= k < unsorted.len() ==> unsorted[k].1 < views.len()
                && views[unsorted[k].1 as int].diff_line_idx == Some(unsorted[k].0 as nat),
        forall|k: int, l: int| #![trigger unsorted[k], unsorted[l]]
            0 <= k < l < unsorted.len() ==> unsorted[k].1 < unsorted[l].1,
        forall|j: int| #![trigger views[j]]
            0 <= j < views.len() && views[j].diff_line_idx is Some ==> exists|k: int|
                0 <= k < unsorted.len() && (#[trigger] unsorted[k]).1 == j,
    ensures
        lists_starts(starts, views),
{
    broadcast use vstd::seq_lib::group_to_multiset_ensures;

    assert forall|k: int| #![trigger starts[k]] 0 <= k < starts.len() implies starts[k].1
        < views.len() && views[starts[k].1 as int].diff_line_idx == Some(starts[k].0 as nat) by {
        assert(starts.to_multiset().count(starts[k]) > 0);
        assert(unsorted.contains(starts[k]));
        let l = choose|l: int| 0 <= l < unsorted.len() && unsorted[l] == starts[k];
        assert(unsorted[l] == starts[k]);
    }
    assert forall|i: int| #![trigger views[i]]
        0 <= i < views.len() && views[i].diff_line_idx is Some implies exists|k: int|
        0 <= k < starts.len() && (#[trigger] starts[k]).1 == i by {
        let l = choose|l: int| 0 <= l < unsorted.len() && (#[trigger] unsorted[l]).1 == i;
        assert(unsorted.to_multiset().count(unsorted[l]) > 0);
        assert(starts.contains(unsorted[l]));
        let k = choose|k: int| 0 <= k < starts.len() && starts[k] == unsorted[l];
        assert(starts[k].1 == i);
    }
    // No pair stands twice, for every pair stood once.
    assert(unsorted.no_duplicates()) by {
        assert forall|k: int, l: int| 0 <= k < unsorted.len() && 0 <= l < unsorted.len() && k != l
            implies unsorted[k] != unsorted[l] by {}
    }
    unsorted.lemma_multiset_has_no_duplicates();
    assert(starts.to_multiset().len() == starts.len());
    starts.lemma_multiset_has_no_duplicates_conv();
    assert forall|k: int, l: int| #![trigger starts[k], starts[l]]
        0 <= k < l < starts.len() implies pair_before(starts[k], starts[l]) by {
        let lt = |a: (usize, usize), b: (usize, usize)| pair_before(a, b);
        assert(!lt(starts[l], starts[k]));
        assert(starts[k] != starts[l]);
    }
}

/// Whether the lines ascend.
pub open spec fn lines_ascend(starts: Seq<(usize, usize)>) -> bool {
    forall|k: int, l: int| #![trigger starts[k], starts[l]]
        0 <= k < l < starts.len() ==> starts[k].0 <= starts[l].0
}

/// The smaller of a line and the number of lines.
pub open spec fn at_most(line: int, total: int) -> int {
    if line < total {
        line
    } else {
        total
    }
}

/// The range of lines of the file that stands at `k` in the list of starts: from the start of its
/// patch to that of the next one, or to the end.
pub open spec fn range_at(starts: Seq<(usize, usize)>, total: int, k: int) -> (int, int, int) {
    (
        starts[k].1 as int,
        at_most(starts[k].0 as int, total),
        if k + 1 < starts.len() {
            at_most(starts[k + 1].0 as int, total)
        } else {
            total
        },
    )
}

/// The files that have a patch, each as its index and the range of its lines, ordered by the line.
pub fn file_line_ranges(files: &[FileEntry], total_lines: usize) -> (out: Vec<(usize, usize, usize)>)
    ensures
        lists_starts(starts_of(file_views(files@)), file_views(files@)),
        out@.len() == starts_of(file_views(files@)).len(),
        forall|k: int| #![trigger out@[k]]
            0 <= k < out@.len() ==> (out@[k].0 as int, out@[k].1 as int, out@[k].2 as int)
                == range_at(starts_of(file_views(files@)), total_lines as int, k),
{
    let starts = file_line_starts(files);
    let mut out: Vec<(usize, usize, usize)> = Vec::new();
    let mut k: usize = 0;
    while k < starts.len()
        invariant
            k <= starts.len(),
            out@.len() == k,
            forall|j: int| #![trigger out@[j]]
                0 <= j < k ==> (out@[j].0 as int, out@[j].1 as int, out@[j].2 as int) == range_at(
                    starts@,
                    total_lines as int,
                    j,
                ),
        decreases starts.len() - k,
    {
        let start: usize = starts[k].0;
        let end: usize = if k + 1 < starts.len() {
            starts[k + 1].0
        } else {
            total_lines
        };
        let first: usize = if start < total_lines {
            start
        } else {
            total_lines
        };
        let last: usize = if end < total_lines {
            end
        } else {
            total_lines
        };
        out.push((starts[k].1, first, last));
        k += 1;
    }
    out
}

/// The file whose lines hold `line`: that of the last patch to start at or before it.
pub open spec fn file_at(starts: Seq<(usize, usize)>, line: int) -> Option<int>
    decreases starts.len(),
{
    if starts.len() == 0 {
        None
    } else if starts.last().0 <= line {
        Some(starts.last().1 as int)
    } else {
        file_at(starts.drop_last(), line)
    }
}

proof fn lemma_file_at(starts: Seq<(usize, usize)>, line: int, k: int)
    requires
        0 <= k <= starts.len(),
        forall|j: int| k <= j < starts.len() ==> (#[trigger] starts[j]).0 > line,
        k > 0 ==> starts[k - 1].0 <= line,
    ensures
        file_at(starts, line) == if k > 0 {
            Some(starts[k - 1].1 as int)
        } else {
            None
        },
    decreases starts.len(),
{
    if k < starts.len() {
        let fore = starts.drop_last();
        assert forall|j: int| k <= j < fore.len() implies (#[trigger] fore[j]).0 > line by {
            assert(fore[j] == starts[j]);
        }
        assert(starts[starts.len() - 1].0 > line);
        lemma_file_at(fore, line, k);
    }
}

/// The file whose lines hold `line`; `None` before the first patch.
pub fn file_index_at_line_opt(starts: &[(usize, usize)], line: usize) -> (i: Option<usize>)
    requires
        lines_ascend(starts@),
    ensures
        match i {
            Some(i) => file_at(starts@, line as int) == Some(i as int),
            None => file_at(starts@, line as int) is None,
        },
{
    let mut lo: usize = 0;
    let mut hi: usize = starts.len();
    while lo < hi
        invariant
            lo <= hi <= starts@.len(),
            lines_ascend(starts@),
            forall|j: int| 0 <= j < lo ==> (#[trigger] starts@[j]).0 <= line,
            forall|j: int| hi <= j < starts@.len() ==> (#[trigger] starts@[j]).0 > line,
        decreases hi - lo,
    {
        let mid: usize = lo + (hi - lo) / 2;
        if starts[mid].0 <= line {
            lo = mid + 1;
        } else {
            hi = mid;
        }
    }
    proof {
        lemma_file_at(starts@, line as int, lo as int);
    }
    if lo == 0 {
        None
    } else {
        Some(starts[lo - 1].1)
    }
}

/// The file whose lines hold `line`, and the first one before the first patch.
pub fn file_index_at_line(starts: &[(usize, usize)], line: usize) -> (i: usize)
    requires
        lines_ascend(starts@),
    ensures
        i == match file_at(starts@, line as int) {
            Some(i) => i,
            None => 0,
        },
{
    match file_index_at_line_opt(starts, line) {
        Some(i) => i,
        None => 0,
    }
}

/// Whether `s` is the start of a patch below `top` (`down`) or above it, and the nearest one.
pub open spec fn is_next_start(starts: Seq<(usize, usize)>, top: int, down: bool, s: int) -> bool {
    &&& is_beyond(top, down, s)
    &&& exists|k: int| 0 <= k < starts.len() && (#[trigger] starts[k]).0 == s
    &&& forall|k: int| #![trigger starts[k]]
        0 <= k < starts.len() && is_beyond(top, down, starts[k].0 as int) ==> if down {
            s <= starts[k].0
        } else {
            starts[k].0 <= s
        }
}

/// Whether the line lies below `top` (`down`) or above it.
pub open spec fn is_beyond(top: int, down: bool, line: int) -> bool {
    if down {
        line > top
    } else {
        line < top
    }
}

/// The nearest start of a patch below the line `top`, or above it.
pub fn next_file_line(starts: &[(usize, usize)], top: usize, down: bool) -> (line: Option<usize>)
    ensures
        match line {
            Some(s) => is_next_start(starts@, top as int, down, s as int),
            None => forall|k: int| #![trigger starts@[k]]
                0 <= k < starts@.len() ==> !is_beyond(top as int, down, starts@[k].0 as int),
        },
{
    let mut best: Option<usize> = None;
    let mut k: usize = 0;
    while k < starts.len()
        invariant
            k <= starts.len(),
            match best {
                Some(s) => is_next_start(starts@.take(k as int), top as int, down, s as int),
                None => forall|j: int| #![trigger starts@[j]]
                    0 <= j < k ==> !is_beyond(top as int, down, starts@[j].0 as int),
            },
        decreases starts.len() - k,
    {
        let s: usize = starts[k].0;
        let ghost part = starts@.take(k as int);
        let ghost more = starts@.take(k + 1);
        proof {
            assert forall|j: int| 0 <= j < k implies #[trigger] part[j] == starts@[j] && more[j]
                == starts@[j] by {}
            assert(more[k as int] == starts@[k as int]);
            if best is Some {
                let j = choose|j: int| 0 <= j < part.len() && (#[trigger] part[j]).0 == best->0;
                assert(more[j].0 == best->0);
            }
        }
        let beyond = if down {
            s > top
        } else {
            s < top
        };
        if beyond {
            best = match best {
                Some(b) => if (down && s < b) || (!down && s > b) {
                    Some(s)
                } else {
                    Some(b)
                },
                None => Some(s),
            };
        }
        proof {
            assert forall|j: int| #![trigger more[j]] 0 <= j < k implies more[j] == part[j] by {}
        }
        k += 1;
    }
    assert(starts@.take(k as int) =~= starts@);
    best
}

/// The starts of the patches ascend, so that they can be searched.
pub proof fn law_starts_ascend(files: Seq<FileView>, starts: Seq<(usize, usize)>)
    requires
        lists_starts(starts, files),
    ensures
        lines_ascend(starts),
{
}

/// The ranges of lines follow one another without overlap and reach to the end; a line at or behind
/// the first start lies in the range of its file.
pub proof fn law_ranges_tile_the_patch(starts: Seq<(usize, usize)>, total: int, k: int)
    requires
        lines_ascend(starts),
        0 <= total,
        0 <= k < starts.len(),
    ensures
        range_at(starts, total, k).1 <= range_at(starts, total, k).2 <= total,
        k + 1 < starts.len() ==> range_at(starts, total, k).2 == range_at(starts, total, k + 1).1,
        k + 1 == starts.len() ==> range_at(starts, total, k).2 == total,
        forall|line: int|
            range_at(starts, total, k).1 <= line < range_at(starts, total, k).2
                ==> #[trigger] file_at(starts, line) == Some(range_at(starts, total, k).0),
{
    let r = range_at(starts, total, k);
    if k + 1 < starts.len() {
        assert(starts[k].0 <= starts[k + 1].0);
    }
    assert forall|line: int| r.1 <= line < r.2 implies #[trigger] file_at(starts, line) == Some(
        r.0,
    ) by {
        assert forall|j: int| k + 1 <= j < starts.len() implies (#[trigger] starts[j]).0 > line by {
            if j > k + 1 {
                assert(starts[k + 1].0 <= starts[j].0);
            }
        }
        lemma_file_at(starts, line, k + 1);
    }
}

/// Every file that has a patch is listed with the line at which it starts, and nothing else is; the
/// list goes by that line, and by the file where two start at the same.
pub proof fn law_every_patch_is_listed(starts: Seq<(usize, usize)>, files: Seq<FileView>)
    requires
        lists_starts(starts, files),
        files.len() <= usize::MAX,
    ensures
        forall|i: int, n: usize|
            #![trigger starts.contains((n, i as usize))]
            0 <= i < files.len() ==> (starts.contains((n, i as usize)) <==> files[i].diff_line_idx
                == Some(n as nat)),
        forall|k: int| 0 <= k < starts.len() ==> (#[trigger] starts[k]).1 < files.len(),
        forall|k: int|
            0 <= k && k + 1 < starts.len() ==> (#[trigger] starts[k]).0 < starts[k + 1].0 || (
            starts[k].0 == starts[k + 1].0 && starts[k].1 < starts[k + 1].1),
{
    assert forall|i: int, n: usize|
        #![trigger starts.contains((n, i as usize))]
        0 <= i < files.len() implies (starts.contains((n, i as usize)) <==> files[i].diff_line_idx
        == Some(n as nat)) by {
        if starts.contains((n, i as usize)) {
            let k = choose|k: int| 0 <= k < starts.len() && starts[k] == (n, i as usize);
            assert(files[starts[k].1 as int].diff_line_idx == Some(starts[k].0 as nat));
        }
        if files[i].diff_line_idx == Some(n as nat) {
            let k = choose|k: int| 0 <= k < starts.len() && (#[trigger] starts[k]).1 == i;
            assert(files[starts[k].1 as int].diff_line_idx == Some(starts[k].0 as nat));
            assert(starts[k] == (n, i as usize));
        }
    }
    assert forall|k: int| 0 <= k && k + 1 < starts.len() implies (#[trigger] starts[k]).0 < starts[k
        + 1].0 || (starts[k].0 == starts[k + 1].0 && starts[k].1 < starts[k + 1].1) by {
        let next = starts[k + 1];
        assert(pair_before(starts[k], next));
    }
}

/// A line belongs to the file whose patch is the last to start at or before it, and to none where every
/// patch starts behind it.
pub proof fn law_line_belongs_to_the_last_start(starts: Seq<(usize, usize)>, line: int, k: int)
    requires
        lines_ascend(starts),
    ensures
        0 <= k < starts.len() && starts[k].0 <= line && (k + 1 < starts.len() ==> starts[k + 1].0
            > line) ==> file_at(starts, line) == Some(starts[k].1 as int),
        (forall|j: int| 0 <= j < starts.len() ==> (#[trigger] starts[j]).0 > line) ==> file_at(
            starts,
            line,
        ) is None,
    decreases starts.len(),
{
    if starts.len() > 0 {
        let fore = starts.drop_last();
        let n = starts.len() - 1;
        assert forall|i: int, j: int| #![trigger fore[i], fore[j]]
            0 <= i < j < fore.len() implies fore[i].0 <= fore[j].0 by {
            assert(starts[i].0 <= starts[j].0);
        }
        law_line_belongs_to_the_last_start(fore, line, k);
        if 0 <= k < n && starts[k + 1].0 > line {
            assert(starts[n].0 >= starts[k + 1].0) by {
                if k + 1 < n {
                    assert(starts[k + 1].0 <= starts[n].0);
                }
            }
            assert(fore[k] == starts[k]);
            if k + 1 < fore.len() {
                assert(fore[k + 1] == starts[k + 1]);
            }
        }
        if forall|j: int| 0 <= j < starts.len() ==> (#[trigger] starts[j]).0 > line {
            assert(starts[n].0 > line);
            assert forall|j: int| 0 <= j < fore.len() implies (#[trigger] fore[j]).0 > line by {
                assert(starts[j].0 > line);
            }
        }
    }
}

/// The lines of a file reach from the start of its patch to that of the next, or to the end of the
/// diff, and not beyond that.
pub proof fn law_lines_of_a_file_reach_to_the_next(
    starts: Seq<(usize, usize)>,
    total: int,
    k: int,
)
    requires
        0 <= k < starts.len(),
    ensures
        range_at(starts, total, k).0 == starts[k].1,
        starts[k].0 <= total ==> range_at(starts, total, k).1 == starts[k].0,
        starts[k].0 > total ==> range_at(starts, total, k).1 == total,
        k + 1 == starts.len() ==> range_at(starts, total, k).2 == total,
        k + 1 < starts.len() && starts[k + 1].0 <= total ==> range_at(starts, total, k).2 == starts[k
            + 1].0,
        k + 1 < starts.len() && starts[k + 1].0 > total ==> range_at(starts, total, k).2 == total,
{
}

/// A step to the next file goes to the nearest start of a patch below the top, or above it, and never
/// to the top itself.
pub proof fn law_step_goes_to_the_nearest_start(
    starts: Seq<(usize, usize)>,
    top: int,
    s: int,
    k: int,
)
    requires
        0 <= k < starts.len(),
    ensures
        is_next_start(starts, top, true, s) && starts[k].0 > top ==> top < s <= starts[k].0,
        is_next_start(starts, top, false, s) && starts[k].0 < top ==> starts[k].0 <= s < top,
        starts[k].0 > top && (forall|j: int|
            0 <= j < starts.len() && (#[trigger] starts[j]).0 > top ==> starts[k].0 <= starts[j].0)
            ==> is_next_start(starts, top, true, starts[k].0 as int),
        starts[k].0 < top && (forall|j: int|
            0 <= j < starts.len() && (#[trigger] starts[j]).0 < top ==> starts[j].0 <= starts[k].0)
            ==> is_next_start(starts, top, false, starts[k].0 as int),
{
}

} // verus!
