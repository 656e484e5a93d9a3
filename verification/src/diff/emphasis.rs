//! Which deleted line an added line replaced, and the words that changed between the two.

use std::ops::Range;
use vstd::prelude::*;
use vstd::utf8::encode_utf8;

use crate::diff::line::{is_change, line_views, DiffLine, LineKind, LineView};
use crate::text::{byte_len, utf8_len};
use crate::word_diff::{
    emphasis_of, law_different_lines_are_marked, line_emphasis, ranges_of,
};

verus! {

/// The longest line, in bytes of its body, whose changed words are looked for.
pub const MAX_WORD_DIFF_LINE: usize = 2048;

/// The kinds of the lines.
pub open spec fn kinds_of(lines: Seq<LineView>) -> Seq<LineKind> {
    lines.map_values(|l: LineView| l.kind)
}

/// The first line of the run of lines of the kind `k` that ends before `i`.
pub open spec fn run_start(kinds: Seq<LineKind>, i: int, k: LineKind) -> int
    decreases i,
{
    if 0 < i <= kinds.len() && kinds[i - 1] == k {
        run_start(kinds, i - 1, k)
    } else {
        i
    }
}

/// The line behind the run of lines of the kind `k` that starts at `i`.
pub open spec fn run_stop(kinds: Seq<LineKind>, i: int, k: LineKind) -> int
    decreases kinds.len() - i,
{
    if 0 <= i < kinds.len() && kinds[i] == k {
        run_stop(kinds, i + 1, k)
    } else {
        i
    }
}

/// Whether the added line `a` replaced the deleted line `d`: a run of deleted lines is followed by
/// a run of just as many added lines, and both have the same place in their run.
pub open spec fn paired(kinds: Seq<LineKind>, d: int, a: int) -> bool {
    &&& 0 <= d < kinds.len()
    &&& kinds[d] == LineKind::Del
    &&& {
        let start = run_start(kinds, d, LineKind::Del);
        let mid = run_stop(kinds, d, LineKind::Del);
        let stop = run_stop(kinds, mid, LineKind::Add);
        mid - start == stop - mid && a == mid + (d - start)
    }
}

/// Whether the words of the pair are to be compared: one of its lines is among the rows asked for,
/// and they were not compared before.
pub open spec fn due(lines: Seq<LineView>, rows: (int, int), d: int, a: int) -> bool {
    &&& paired(kinds_of(lines), d, a)
    &&& rows.0 <= d < rows.1 || rows.0 <= a < rows.1
    &&& lines[d].emphasis is None
}

/// The changed byte ranges of a pair, those of the deleted line first; none where a line is too
/// long.
pub open spec fn pair_emphasis(del: LineView, add: LineView) -> (Seq<(int, int)>, Seq<(int, int)>) {
    if utf8_len(del.body()) > MAX_WORD_DIFF_LINE || utf8_len(add.body()) > MAX_WORD_DIFF_LINE {
        (Seq::empty(), Seq::empty())
    } else {
        emphasis_of(del.body(), add.body())
    }
}

/// The line with the given changed byte ranges.
pub open spec fn with_emphasis(line: LineView, ranges: Seq<(int, int)>) -> LineView {
    LineView { emphasis: Some(ranges), ..line }
}

/// Whether `after` is `before` with the words of all due pairs compared, and nothing else changed.
pub open spec fn emphasized(before: Seq<LineView>, after: Seq<LineView>, rows: (int, int)) -> bool {
    &&& after.len() == before.len()
    &&& forall|d: int, a: int| #[trigger] due(before, rows, d, a) ==> after[d] == with_emphasis(
        before[d],
        pair_emphasis(before[d], before[a]).0,
    ) && after[a] == with_emphasis(before[a], pair_emphasis(before[d], before[a]).1)
    &&& forall|r: int|
        0 <= r < before.len() && !in_due_pair(before, rows, r) ==> #[trigger] after[r] == before[r]
}

/// Whether the lines of all due pairs have their mark, so that their bodies can be compared.
pub open spec fn due_marked(lines: Seq<LineView>, rows: (int, int)) -> bool {
    forall|d: int, a: int| #[trigger] due(lines, rows, d, a) ==> lines[d].marked()
        && lines[a].marked()
}

/// Whether the line belongs to a due pair.
pub open spec fn in_due_pair(lines: Seq<LineView>, rows: (int, int), r: int) -> bool {
    exists|d: int, a: int| #[trigger] due(lines, rows, d, a) && (r == d || r == a)
}

proof fn lemma_run_stop(kinds: Seq<LineKind>, i: int, k: LineKind)
    requires
        0 <= i <= kinds.len(),
    ensures
        i <= run_stop(kinds, i, k) <= kinds.len(),
        forall|j: int| i <= j < run_stop(kinds, i, k) ==> kinds[j] == k,
        run_stop(kinds, i, k) < kinds.len() ==> kinds[run_stop(kinds, i, k)] != k,
    decreases kinds.len() - i,
{
    if i < kinds.len() && kinds[i] == k {
        lemma_run_stop(kinds, i + 1, k);
    }
}

/// A stretch of lines of the kind `k`, ended by a line of another kind, is the run from any of its
/// lines on.
proof fn lemma_run_stop_is(kinds: Seq<LineKind>, i: int, end: int, k: LineKind)
    requires
        0 <= i <= end <= kinds.len(),
        forall|j: int| i <= j < end ==> kinds[j] == k,
        end < kinds.len() ==> kinds[end] != k,
    ensures
        run_stop(kinds, i, k) == end,
    decreases end - i,
{
    if i < end {
        lemma_run_stop_is(kinds, i + 1, end, k);
    }
}

proof fn lemma_run_start_is(kinds: Seq<LineKind>, i: int, start: int, k: LineKind)
    requires
        0 <= start <= i <= kinds.len(),
        forall|j: int| start <= j < i ==> kinds[j] == k,
        start > 0 ==> kinds[start - 1] != k,
    ensures
        run_start(kinds, i, k) == start,
    decreases i - start,
{
    if start < i {
        lemma_run_start_is(kinds, i - 1, start, k);
    }
}

proof fn lemma_run_start(kinds: Seq<LineKind>, i: int, k: LineKind)
    requires
        0 <= i <= kinds.len(),
    ensures
        0 <= run_start(kinds, i, k) <= i,
        forall|j: int| run_start(kinds, i, k) <= j < i ==> kinds[j] == k,
        run_start(kinds, i, k) > 0 ==> kinds[run_start(kinds, i, k) - 1] != k,
    decreases i,
{
    if i > 0 && kinds[i - 1] == k {
        lemma_run_start(kinds, i - 1, k);
    }
}

/// The lines of a pair lie in one stretch of changed lines, the deleted one first.
proof fn lemma_paired(kinds: Seq<LineKind>, d: int, a: int)
    requires
        paired(kinds, d, a),
    ensures
        0 <= d < a < kinds.len(),
        kinds[a] == LineKind::Add,
        forall|j: int| d <= j <= a ==> is_change(#[trigger] kinds[j]),
        run_start(kinds, d, LineKind::Del) <= d,
{
    lemma_run_start(kinds, d, LineKind::Del);
    lemma_run_stop(kinds, d, LineKind::Del);
    lemma_run_stop(kinds, run_stop(kinds, d, LineKind::Del), LineKind::Add);
}

/// Compares the words of the deleted line `d` and the added line `a`.
fn emphasize_pair(lines: &mut [DiffLine], d: usize, a: usize)
    requires
        d < a < old(lines)@.len(),
        old(lines)@[d as int]@.marked(),
        old(lines)@[a as int]@.marked(),
    ensures
        final(lines)@.len() == old(lines)@.len(),
        ({
            let before = line_views(old(lines)@);
            let ranges = pair_emphasis(before[d as int], before[a as int]);
            line_views(final(lines)@) == before.update(
                d as int,
                with_emphasis(before[d as int], ranges.0),
            ).update(a as int, with_emphasis(before[a as int], ranges.1))
        }),
{
    let ghost before = line_views(lines@);
    let (de, ae) = if byte_len(lines[d].body()) > MAX_WORD_DIFF_LINE || byte_len(lines[a].body())
        > MAX_WORD_DIFF_LINE {
        (Vec::new(), Vec::new())
    } else {
        line_emphasis(lines[d].body(), lines[a].body())
    };
    assert(ranges_of(de@) =~= pair_emphasis(before[d as int], before[a as int]).0);
    assert(ranges_of(ae@) =~= pair_emphasis(before[d as int], before[a as int]).1);
    lines[d].emphasis = Some(de);
    lines[a].emphasis = Some(ae);
    let ghost ranges = pair_emphasis(before[d as int], before[a as int]);
    assert(line_views(lines@) =~= before.update(
        d as int,
        with_emphasis(before[d as int], ranges.0),
    ).update(a as int, with_emphasis(before[a as int], ranges.1)));
}

/// The smaller of two integers.
spec fn clamped(x: int, n: int) -> int {
    if x < n {
        x
    } else {
        n
    }
}

/// Whether the pairs whose deleted line stands before `i` have been compared, and no others.
spec fn emphasized_upto(
    before: Seq<LineView>,
    now: Seq<LineView>,
    rows: (int, int),
    i: int,
) -> bool {
    &&& now.len() == before.len()
    &&& forall|d: int, a: int| #[trigger] due(before, rows, d, a) && d < i ==> now[d]
        == with_emphasis(before[d], pair_emphasis(before[d], before[a]).0) && now[a]
        == with_emphasis(before[a], pair_emphasis(before[d], before[a]).1)
    &&& forall|r: int|
        0 <= r < before.len() && !(exists|d: int, a: int| #[trigger]
            due(before, rows, d, a) && d < i && (r == d || r == a)) ==> #[trigger] now[r] == before[r]
}

/// A block: the deleted lines from `start` to `mid`, then the added lines to `stop`, with no more
/// of either around them.
spec fn block(kinds: Seq<LineKind>, start: int, mid: int, stop: int) -> bool {
    &&& 0 <= start <= mid <= stop <= kinds.len()
    &&& forall|j: int| start <= j < mid ==> kinds[j] == LineKind::Del
    &&& forall|j: int| mid <= j < stop ==> kinds[j] == LineKind::Add
    &&& start > 0 ==> kinds[start - 1] != LineKind::Del
    &&& mid < kinds.len() ==> kinds[mid] != LineKind::Del
    &&& stop < kinds.len() ==> kinds[stop] != LineKind::Add
}

proof fn lemma_block(kinds: Seq<LineKind>, start: int, mid: int, stop: int, d: int)
    requires
        block(kinds, start, mid, stop),
        start <= d < mid,
    ensures
        forall|a: int| #[trigger]
            paired(kinds, d, a) <==> mid - start == stop - mid && a == d + (mid - start),
{
    lemma_run_start_is(kinds, d, start, LineKind::Del);
    lemma_run_stop_is(kinds, d, mid, LineKind::Del);
    lemma_run_stop_is(kinds, mid, stop, LineKind::Add);
}

/// Going past a line that is not deleted compares nothing.
proof fn lemma_skip(before: Seq<LineView>, now: Seq<LineView>, rows: (int, int), i: int)
    requires
        emphasized_upto(before, now, rows, i),
        0 <= i < before.len(),
        before[i].kind != LineKind::Del,
    ensures
        emphasized_upto(before, now, rows, i + 1),
{
    assert forall|d: int, a: int| #[trigger] due(before, rows, d, a) && d < i + 1 implies d < i by {
        assert(kinds_of(before)[d] == before[d].kind);
    }
    assert forall|r: int| #![trigger now[r]]
        0 <= r < before.len() && !(exists|d: int, a: int| #[trigger]
            due(before, rows, d, a) && d < i + 1 && (r == d || r == a)) implies now[r] == before[r] by {
        if exists|d: int, a: int| #[trigger]
            due(before, rows, d, a) && d < i && (r == d || r == a) {
            let (d, a) = choose|d: int, a: int| #[trigger]
                due(before, rows, d, a) && d < i && (r == d || r == a);
            assert(due(before, rows, d, a) && d < i + 1);
        }
    }
}

/// Going past a block whose two runs differ in length compares nothing.
proof fn lemma_skip_block(
    before: Seq<LineView>,
    now: Seq<LineView>,
    rows: (int, int),
    start: int,
    mid: int,
    stop: int,
)
    requires
        emphasized_upto(before, now, rows, start),
        block(kinds_of(before), start, mid, stop),
        mid - start != stop - mid,
    ensures
        emphasized_upto(before, now, rows, stop),
{
    assert forall|d: int, a: int| #[trigger] due(before, rows, d, a) && d < stop implies d < start by {
        if start <= d < mid {
            lemma_block(kinds_of(before), start, mid, stop, d);
        }
    }
    assert forall|r: int| #![trigger now[r]]
        0 <= r < before.len() && !(exists|d: int, a: int| #[trigger]
            due(before, rows, d, a) && d < stop && (r == d || r == a)) implies now[r] == before[r] by {
        if exists|d: int, a: int| #[trigger]
            due(before, rows, d, a) && d < start && (r == d || r == a) {
            let (d, a) = choose|d: int, a: int| #[trigger]
                due(before, rows, d, a) && d < start && (r == d || r == a);
            assert(due(before, rows, d, a) && d < stop);
        }
    }
}

/// Going past the deleted line `d` of a block of pairs compares it where it is due.
proof fn lemma_step(
    before: Seq<LineView>,
    now: Seq<LineView>,
    next: Seq<LineView>,
    rows: (int, int),
    start: int,
    mid: int,
    stop: int,
    d: int,
)
    requires
        emphasized_upto(before, now, rows, d),
        block(kinds_of(before), start, mid, stop),
        mid - start == stop - mid,
        start <= d < mid,
        ({
            let a = d + (mid - start);
            let ranges = pair_emphasis(before[d], before[a]);
            if due(before, rows, d, a) {
                next == now.update(d, with_emphasis(before[d], ranges.0)).update(
                    a,
                    with_emphasis(before[a], ranges.1),
                )
            } else {
                next == now
            }
        }),
    ensures
        emphasized_upto(before, next, rows, d + 1),
{
    let kinds = kinds_of(before);
    let a = d + (mid - start);
    lemma_block(kinds, start, mid, stop, d);
    assert forall|x: int, y: int| #[trigger] due(before, rows, x, y) && x < d + 1 implies next[x]
        == with_emphasis(before[x], pair_emphasis(before[x], before[y]).0) && next[y]
        == with_emphasis(before[y], pair_emphasis(before[x], before[y]).1) by {
        if x < d {
            lemma_paired(kinds, x, y);
            assert(now[x] == with_emphasis(before[x], pair_emphasis(before[x], before[y]).0));
            if x >= start {
                lemma_block(kinds, start, mid, stop, x);
            } else if y >= start {
                assert(is_change(kinds[start - 1]) && is_change(kinds[start]));
                lemma_before_block(kinds, x, y, start);
            }
            assert(x != a && y != d && y != a);
        }
    }
    assert forall|r: int| #![trigger next[r]]
        0 <= r < before.len() && !(exists|x: int, y: int| #[trigger]
            due(before, rows, x, y) && x < d + 1 && (r == x || r == y)) implies next[r] == before[r] by {
        if exists|x: int, y: int| #[trigger]
            due(before, rows, x, y) && x < d && (r == x || r == y) {
            let (x, y) = choose|x: int, y: int| #[trigger]
                due(before, rows, x, y) && x < d && (r == x || r == y);
            assert(due(before, rows, x, y) && x < d + 1);
        }
        assert(now[r] == before[r]);
        if due(before, rows, d, a) {
            assert(r != d && r != a);
        }
    }
}

/// A pair that starts before a block ends before it.
proof fn lemma_before_block(kinds: Seq<LineKind>, x: int, y: int, start: int)
    requires
        paired(kinds, x, y),
        x < start < kinds.len(),
        kinds[start] == LineKind::Del,
        kinds[start - 1] != LineKind::Del,
    ensures
        y < start,
{
    lemma_paired(kinds, x, y);
    let mid = run_stop(kinds, x, LineKind::Del);
    lemma_run_stop(kinds, x, LineKind::Del);
    lemma_run_stop(kinds, mid, LineKind::Add);
    if y >= start {
        if mid > start {
            assert(kinds[start - 1] == LineKind::Del);
        } else {
            assert(kinds[start] == LineKind::Add);
        }
    }
}

/// Compares the words of the due pairs of a block.
fn emphasize_block(
    lines: &mut [DiffLine],
    start: usize,
    mid: usize,
    stop: usize,
    lo: usize,
    hi: usize,
    Ghost(before): Ghost<Seq<LineView>>,
    Ghost(asked): Ghost<(int, int)>,
)
    requires
        before.len() == old(lines)@.len(),
        block(kinds_of(before), start as int, mid as int, stop as int),
        mid - start == stop - mid,
        lo == clamped(asked.0, before.len() as int),
        hi == clamped(asked.1, before.len() as int),
        due_marked(before, asked),
        emphasized_upto(before, line_views(old(lines)@), asked, start as int),
        forall|r: int| start <= r < before.len() ==> (#[trigger] old(lines)@[r])@ == before[r],
        forall|r: int|
            0 <= r < before.len() ==> (#[trigger] old(lines)@[r])@.kind == before[r].kind,
    ensures
        final(lines)@.len() == old(lines)@.len(),
        emphasized_upto(before, line_views(final(lines)@), asked, stop as int),
        forall|r: int| stop <= r < before.len() ==> (#[trigger] final(lines)@[r])@ == before[r],
        forall|r: int|
            0 <= r < before.len() ==> (#[trigger] final(lines)@[r])@.kind == before[r].kind,
{
    let n: usize = mid - start;
    let ghost kinds = kinds_of(before);
    let mut k: usize = 0;
    while k < n
        invariant
            k <= n == mid - start == stop - mid,
            before.len() == lines@.len(),
            kinds == kinds_of(before),
            block(kinds, start as int, mid as int, stop as int),
            lo == clamped(asked.0, before.len() as int),
            hi == clamped(asked.1, before.len() as int),
            due_marked(before, asked),
            emphasized_upto(before, line_views(lines@), asked, start + k),
            forall|r: int| start + k <= r < mid ==> (#[trigger] lines@[r])@ == before[r],
            forall|r: int| mid + k <= r < before.len() ==> (#[trigger] lines@[r])@ == before[r],
            forall|r: int| 0 <= r < before.len() ==> (#[trigger] lines@[r])@.kind == before[r].kind,
        decreases n - k,
    {
        let d: usize = start + k;
        let a: usize = mid + k;
        let ghost now = line_views(lines@);
        proof {
            lemma_block(kinds, start as int, mid as int, stop as int, d as int);
            assert(paired(kinds, d as int, a as int));
            assert(lines@[d as int]@ == before[d as int]);
            assert(lines@[a as int]@ == before[a as int]);
        }
        let inside = (lo <= d && d < hi) || (lo <= a && a < hi);
        if inside && lines[d].emphasis.is_none() {
            assert(due(before, asked, d as int, a as int));
            emphasize_pair(lines, d, a);
            assert forall|r: int| 0 <= r < before.len() implies (#[trigger] lines@[r])@
                == line_views(lines@)[r] by {}
            assert forall|r: int| 0 <= r < before.len() implies (#[trigger] lines@[r])@.kind
                == before[r].kind by {
                assert(line_views(lines@)[r].kind == now[r].kind);
            }
        } else {
            assert(!due(before, asked, d as int, a as int));
        }
        proof {
            lemma_step(
                before,
                now,
                line_views(lines@),
                asked,
                start as int,
                mid as int,
                stop as int,
                d as int,
            );
        }
        k += 1;
    }
    proof {
        lemma_past_adds(before, line_views(lines@), asked, mid as int, stop as int);
    }
}

/// Going past added lines compares nothing.
proof fn lemma_past_adds(
    before: Seq<LineView>,
    now: Seq<LineView>,
    rows: (int, int),
    i: int,
    stop: int,
)
    requires
        emphasized_upto(before, now, rows, i),
        0 <= i <= stop <= before.len(),
        forall|j: int| i <= j < stop ==> kinds_of(before)[j] == LineKind::Add,
    ensures
        emphasized_upto(before, now, rows, stop),
    decreases stop - i,
{
    if i < stop {
        assert(kinds_of(before)[i] == before[i].kind);
        lemma_skip(before, now, rows, i);
        lemma_past_adds(before, now, rows, i + 1, stop);
    }
}

/// Compares the words of every pair of lines of which one lies within `rows` and which was not
/// compared before.
pub fn emphasize_rows(lines: &mut [DiffLine], rows: Range<usize>)
    requires
        due_marked(line_views(old(lines)@), (rows.start as int, rows.end as int)),
    ensures
        emphasized(
            line_views(old(lines)@),
            line_views(final(lines)@),
            (rows.start as int, rows.end as int),
        ),
{
    let ghost before = line_views(lines@);
    let ghost kinds = kinds_of(before);
    let ghost asked = (rows.start as int, rows.end as int);
    let n: usize = lines.len();
    let lo: usize = if rows.start < n {
        rows.start
    } else {
        n
    };
    let hi: usize = if rows.end < n {
        rows.end
    } else {
        n
    };
    if lo >= hi {
        proof {
            assert forall|d: int, a: int| !#[trigger] due(before, asked, d, a) by {
                if paired(kinds, d, a) {
                    lemma_paired(kinds, d, a);
                }
            }
        }
        return ;
    }
    let mut i: usize = lo;
    while i > 0 && matches!(lines[i - 1].kind, LineKind::Del | LineKind::Add)
        invariant
            i <= lo <= n == lines.len(),
            line_views(lines@) == before,
            kinds == kinds_of(before),
        decreases i,
    {
        assert(before[i - 1].kind == lines@[i - 1].kind);
        i -= 1;
    }
    let mut end: usize = hi;
    while end < n && matches!(lines[end].kind, LineKind::Del | LineKind::Add)
        invariant
            hi <= end <= n == lines.len(),
        decreases n - end,
    {
        end += 1;
    }
    proof {
        if i > 0 {
            assert(before[i - 1].kind == lines@[i - 1].kind);
            assert(!is_change(kinds[i - 1]));
        }
        if end < n {
            assert(before[end as int].kind == lines@[end as int].kind);
            assert(!is_change(kinds[end as int]));
        }
        assert forall|d: int, a: int| !(#[trigger] due(before, asked, d, a) && d < i) by {
            if paired(kinds, d, a) && d < i {
                lemma_paired(kinds, d, a);
                if a >= i {
                    assert(is_change(kinds[i - 1]));
                }
            }
        }
    }
    while i < end
        invariant
            hi <= end <= n == lines.len(),
            i <= n,
            lo <= hi,
            asked == (rows.start as int, rows.end as int),
            lo == clamped(asked.0, n as int),
            hi == clamped(asked.1, n as int),
            before.len() == n,
            kinds == kinds_of(before),
            due_marked(before, asked),
            end < n ==> !is_change(kinds[end as int]),
            0 < i < n && kinds[i as int] == LineKind::Del ==> kinds[i - 1] != LineKind::Del,
            emphasized_upto(before, line_views(lines@), asked, i as int),
            forall|r: int| 0 <= r < n ==> (#[trigger] lines@[r])@.kind == kinds[r],
            forall|r: int| i <= r < n ==> (#[trigger] lines@[r])@ == before[r],
        decreases end - i,
    {
        assert(lines@[i as int]@.kind == kinds[i as int]);
        if lines[i].kind != LineKind::Del {
            proof {
                lemma_skip(before, line_views(lines@), asked, i as int);
            }
            i += 1;
            continue;
        }
        let del_start: usize = i;
        while i < end && lines[i].kind == LineKind::Del
            invariant
                del_start <= i <= end <= n == lines.len(),
                forall|j: int| del_start <= j < i ==> kinds[j] == LineKind::Del,
                forall|r: int| 0 <= r < n ==> (#[trigger] lines@[r])@.kind == kinds[r],
            decreases end - i,
        {
            assert(lines@[i as int]@.kind == kinds[i as int]);
            i += 1;
        }
        let add_start: usize = i;
        proof {
            if i < n {
                assert(lines@[i as int]@.kind == kinds[i as int]);
            }
        }
        while i < end && lines[i].kind == LineKind::Add
            invariant
                add_start <= i <= end <= n == lines.len(),
                forall|j: int| add_start <= j < i ==> kinds[j] == LineKind::Add,
                forall|r: int| 0 <= r < n ==> (#[trigger] lines@[r])@.kind == kinds[r],
            decreases end - i,
        {
            assert(lines@[i as int]@.kind == kinds[i as int]);
            i += 1;
        }
        proof {
            if i < n {
                assert(lines@[i as int]@.kind == kinds[i as int]);
            }
            assert(block(kinds, del_start as int, add_start as int, i as int));
        }
        if add_start - del_start == i - add_start {
            emphasize_block(lines, del_start, add_start, i, lo, hi, Ghost(before), Ghost(asked));
        } else {
            proof {
                lemma_skip_block(
                    before,
                    line_views(lines@),
                    asked,
                    del_start as int,
                    add_start as int,
                    i as int,
                );
            }
        }
    }
    proof {
        let after = line_views(lines@);
        assert forall|d: int, a: int| #[trigger] due(before, asked, d, a) implies d < i by {
            lemma_paired(kinds, d, a);
        }
        assert forall|r: int| #![trigger after[r]]
            0 <= r < before.len() && !in_due_pair(before, asked, r) implies after[r] == before[r] by {
        }
    }
}

/// Comparing words changes nothing of a line but its changed byte ranges, and only where they were
/// not known; a known range of a deleted line stays.
pub proof fn law_only_emphasis_changes(before: Seq<LineView>, after: Seq<LineView>, rows: (int, int))
    requires
        emphasized(before, after, rows),
    ensures
        after.len() == before.len(),
        forall|r: int| #![trigger after[r]]
            0 <= r < before.len() ==> after[r] == (LineView {
                emphasis: after[r].emphasis,
                ..before[r]
            }),
        forall|r: int| #![trigger after[r]]
            0 <= r < before.len() && before[r].emphasis is Some ==> after[r].emphasis is Some,
        forall|r: int| #![trigger after[r]]
            0 <= r < before.len() && before[r].kind == LineKind::Del && before[r].emphasis is Some
                ==> after[r] == before[r],
{
    assert forall|r: int| #![trigger after[r]] 0 <= r < before.len() implies after[r] == (LineView {
        emphasis: after[r].emphasis,
        ..before[r]
    }) && (before[r].emphasis is Some ==> after[r].emphasis is Some) && (before[r].kind
        == LineKind::Del && before[r].emphasis is Some ==> after[r] == before[r]) by {
        if in_due_pair(before, rows, r) {
            let (d, a) = choose|d: int, a: int| #[trigger]
                due(before, rows, d, a) && (r == d || r == a);
            lemma_paired(kinds_of(before), d, a);
            assert(kinds_of(before)[a] == before[a].kind);
        }
    }
}

/// Comparing the words of the same rows again changes nothing.
pub proof fn law_emphasis_settles(before: Seq<LineView>, after: Seq<LineView>, rows: (int, int))
    requires
        emphasized(before, after, rows),
    ensures
        emphasized(after, after, rows),
        forall|again: Seq<LineView>| #[trigger] emphasized(after, again, rows) ==> again == after,
{
    law_only_emphasis_changes(before, after, rows);
    assert(kinds_of(after) =~= kinds_of(before));
    assert forall|d: int, a: int| !#[trigger] due(after, rows, d, a) by {
        if due(after, rows, d, a) {
            assert(after[d].emphasis is None);
            assert(due(before, rows, d, a));
        }
    }
    assert forall|again: Seq<LineView>| #[trigger] emphasized(after, again, rows) implies again
        == after by {
        assert(again =~= after);
    }
}

/// No line belongs to two pairs.
proof fn lemma_pairs_differ(kinds: Seq<LineKind>, d: int, a: int, x: int, y: int)
    requires
        paired(kinds, d, a),
        paired(kinds, x, y),
        d == x || d == y || a == x || a == y,
    ensures
        d == x,
        a == y,
{
    lemma_paired(kinds, d, a);
    lemma_paired(kinds, x, y);
    if a == y {
        lemma_pair_place(kinds, d, a);
        lemma_pair_place(kinds, x, y);
    }
}

/// The place of the deleted line of a pair, told from the added one.
proof fn lemma_pair_place(kinds: Seq<LineKind>, d: int, a: int)
    requires
        paired(kinds, d, a),
    ensures
        ({
            let mid = run_start(kinds, a, LineKind::Add);
            d == run_start(kinds, mid, LineKind::Del) + (a - mid)
        }),
{
    let start = run_start(kinds, d, LineKind::Del);
    let mid = run_stop(kinds, d, LineKind::Del);
    lemma_run_start(kinds, d, LineKind::Del);
    lemma_run_stop(kinds, d, LineKind::Del);
    lemma_run_stop(kinds, mid, LineKind::Add);
    lemma_run_start_is(kinds, a, mid, LineKind::Add);
    lemma_run_start_is(kinds, mid, start, LineKind::Del);
}

/// Whether a line of the pair lies within one of the first `k` windows.
spec fn touched(windows: Seq<(int, int)>, k: int, d: int, a: int) -> bool {
    exists|j: int|
        0 <= j < k && ((#[trigger] windows[j]).0 <= d < windows[j].1 || windows[j].0 <= a
            < windows[j].1)
}

/// Whether the line belongs to a pair.
spec fn in_pair(kinds: Seq<LineKind>, r: int) -> bool {
    exists|d: int, a: int| #[trigger] paired(kinds, d, a) && (r == d || r == a)
}

/// Whether the pairs that the first `k` windows touch have been compared, and no others.
spec fn windowed(
    before: Seq<LineView>,
    now: Seq<LineView>,
    windows: Seq<(int, int)>,
    k: int,
) -> bool {
    &&& now.len() == before.len()
    &&& forall|d: int, a: int| #[trigger]
        paired(kinds_of(before), d, a) ==> if touched(windows, k, d, a) {
            now[d] == with_emphasis(before[d], pair_emphasis(before[d], before[a]).0) && now[a]
                == with_emphasis(before[a], pair_emphasis(before[d], before[a]).1)
        } else {
            now[d] == before[d] && now[a] == before[a]
        }
    &&& forall|r: int|
        0 <= r < before.len() && !in_pair(kinds_of(before), r) ==> #[trigger] now[r] == before[r]
}

/// One more window.
proof fn lemma_window(
    before: Seq<LineView>,
    now: Seq<LineView>,
    next: Seq<LineView>,
    windows: Seq<(int, int)>,
    k: int,
)
    requires
        forall|r: int| 0 <= r < before.len() ==> (#[trigger] before[r]).emphasis is None,
        windowed(before, now, windows, k),
        0 <= k < windows.len(),
        emphasized(now, next, windows[k]),
    ensures
        windowed(before, next, windows, k + 1),
{
    let kinds = kinds_of(before);
    assert forall|r: int| 0 <= r < before.len() implies (#[trigger] now[r]).kind == before[r].kind by {
        if in_pair(kinds, r) {
            let (d, a) = choose|d: int, a: int| #[trigger] paired(kinds, d, a) && (r == d || r == a);
            lemma_paired(kinds, d, a);
            assert(touched(windows, k, d, a) || !touched(windows, k, d, a));
        }
    }
    assert(kinds_of(now) =~= kinds);
    assert forall|d: int, a: int| #[trigger] paired(kinds, d, a) implies if touched(
        windows,
        k + 1,
        d,
        a,
    ) {
        next[d] == with_emphasis(before[d], pair_emphasis(before[d], before[a]).0) && next[a]
            == with_emphasis(before[a], pair_emphasis(before[d], before[a]).1)
    } else {
        next[d] == before[d] && next[a] == before[a]
    } by {
        lemma_paired(kinds, d, a);
        assert(before[d].emphasis is None);
        if due(now, windows[k], d, a) {
            assert(touched(windows, k + 1, d, a));
            if touched(windows, k, d, a) {
                assert(now[d].emphasis is Some);
            }
        } else {
            assert forall|x: int, y: int| #[trigger] due(now, windows[k], x, y) implies d != x && d
                != y && a != x && a != y by {
                if d == x || d == y || a == x || a == y {
                    lemma_pairs_differ(kinds, d, a, x, y);
                }
            }
            assert(!in_due_pair(now, windows[k], d) && !in_due_pair(now, windows[k], a));
            assert(next[d] == now[d] && next[a] == now[a]);
            if touched(windows, k + 1, d, a) {
                let j = choose|j: int|
                    0 <= j < k + 1 && ((#[trigger] windows[j]).0 <= d < windows[j].1
                        || windows[j].0 <= a < windows[j].1);
                if j < k {
                    assert(touched(windows, k, d, a));
                } else {
                    assert(now[d].emphasis is Some);
                    assert(touched(windows, k, d, a));
                }
            } else {
                if touched(windows, k, d, a) {
                    let j = choose|j: int|
                        0 <= j < k && ((#[trigger] windows[j]).0 <= d < windows[j].1
                            || windows[j].0 <= a < windows[j].1);
                    assert(0 <= j < k + 1);
                }
            }
        }
    }
    assert forall|r: int|
        0 <= r < before.len() && !in_pair(kinds, r) implies #[trigger] next[r] == before[r] by {
        if in_due_pair(now, windows[k], r) {
            let (d, a) = choose|d: int, a: int| #[trigger]
                due(now, windows[k], d, a) && (r == d || r == a);
            assert(paired(kinds, d, a));
        }
        assert(next[r] == now[r]);
    }
}

proof fn lemma_windows(
    states: Seq<Seq<LineView>>,
    windows: Seq<(int, int)>,
    k: int,
)
    requires
        states.len() == windows.len() + 1,
        forall|r: int| 0 <= r < states[0].len() ==> (#[trigger] states[0][r]).emphasis is None,
        forall|j: int| #![trigger windows[j]]
            0 <= j < windows.len() ==> emphasized(states[j], states[j + 1], windows[j]),
        0 <= k <= windows.len(),
    ensures
        windowed(states[0], states[k], windows, k),
    decreases k,
{
    if k > 0 {
        lemma_windows(states, windows, k - 1);
        assert(emphasized(states[k - 1], states[k], windows[k - 1]));
        lemma_window(states[0], states[k - 1], states[k], windows, k - 1);
    }
}

/// Where the words of no line have been compared, comparing those of windows that together cover all
/// lines, one after the other in any order, leaves what comparing those of all lines at once leaves;
/// and no window changes anything then.
pub proof fn law_windows_add_up(
    states: Seq<Seq<LineView>>,
    windows: Seq<(int, int)>,
    whole: Seq<LineView>,
)
    requires
        states.len() == windows.len() + 1,
        forall|r: int| 0 <= r < states[0].len() ==> (#[trigger] states[0][r]).emphasis is None,
        forall|j: int| #![trigger windows[j]]
            0 <= j < windows.len() ==> emphasized(states[j], states[j + 1], windows[j]),
        forall|r: int| #![trigger states[0][r]]
            0 <= r < states[0].len() ==> exists|j: int|
                0 <= j < windows.len() && (#[trigger] windows[j]).0 <= r < windows[j].1,
        emphasized(states[0], whole, (0, states[0].len() as int)),
    ensures
        states.last() == whole,
        forall|rows: (int, int), again: Seq<LineView>| #[trigger]
            emphasized(whole, again, rows) ==> again == whole,
{
    let before = states[0];
    let kinds = kinds_of(before);
    let n = windows.len() as int;
    let last = states[n];
    let all = (0int, before.len() as int);
    lemma_windows(states, windows, n);
    assert forall|r: int| 0 <= r < before.len() implies last[r] == whole[r] by {
        if in_pair(kinds, r) {
            let (d, a) = choose|d: int, a: int| #[trigger] paired(kinds, d, a) && (r == d || r == a);
            lemma_paired(kinds, d, a);
            assert(before[d].emphasis is None);
            assert(due(before, all, d, a));
            let j = choose|j: int|
                0 <= j < windows.len() && (#[trigger] windows[j]).0 <= d < windows[j].1;
            assert(touched(windows, n, d, a));
        } else {
            if in_due_pair(before, all, r) {
                let (d, a) = choose|d: int, a: int| #[trigger]
                    due(before, all, d, a) && (r == d || r == a);
                assert(paired(kinds, d, a));
            }
            assert(whole[r] == before[r]);
        }
    }
    assert(last =~= whole);
    law_only_emphasis_changes(before, whole, all);
    assert(kinds_of(whole) =~= kinds);
    assert forall|rows: (int, int), again: Seq<LineView>| #[trigger]
        emphasized(whole, again, rows) implies again == whole by {
        assert forall|d: int, a: int| !#[trigger] due(whole, rows, d, a) by {
            if due(whole, rows, d, a) {
                lemma_paired(kinds, d, a);
                assert(before[d].emphasis is None);
                assert(due(before, all, d, a));
            }
        }
        assert(again =~= whole);
    }
}

/// Whether `n` deleted lines stand at `start`, and `n` added lines behind them, with no more of either
/// around them.
pub open spec fn is_replacement(lines: Seq<LineView>, start: int, n: int) -> bool {
    &&& 0 <= start && 0 < n && start + 2 * n <= lines.len()
    &&& forall|j: int| start <= j < start + n ==> (#[trigger] lines[j]).kind == LineKind::Del
    &&& forall|j: int| start + n <= j < start + 2 * n ==> (#[trigger] lines[j]).kind == LineKind::Add
    &&& start > 0 ==> lines[start - 1].kind != LineKind::Del
    &&& start + 2 * n < lines.len() ==> lines[start + 2 * n].kind != LineKind::Add
}

/// Lines that replaced others are compared with them: of as many added lines as the deleted lines
/// before them, each is compared with the deleted line in its place, where one of the two is among the
/// rows asked for and they were not compared before. The ranges are those of the word diff of the two
/// lines without their markers, and none where a line is longer than two thousand and forty-eight
/// bytes. Nothing else of the two lines changes.
pub proof fn law_replaced_lines_are_compared(
    before: Seq<LineView>,
    after: Seq<LineView>,
    rows: (int, int),
    start: int,
    n: int,
    k: int,
)
    requires
        emphasized(before, after, rows),
        is_replacement(before, start, n),
        0 <= k < n,
        rows.0 <= start + k < rows.1 || rows.0 <= start + n + k < rows.1,
        before[start + k].emphasis is None,
    ensures
        ({
            let del = before[start + k];
            let add = before[start + n + k];
            let old = del.text.skip(1);
            let new = add.text.skip(1);
            let short = encode_utf8(old).len() <= 2048 && encode_utf8(new).len() <= 2048;
            &&& short ==> after[start + k] == (LineView {
                emphasis: Some(emphasis_of(old, new).0),
                ..del
            }) && after[start + n + k] == (LineView {
                emphasis: Some(emphasis_of(old, new).1),
                ..add
            })
            &&& !short ==> after[start + k] == (LineView { emphasis: Some(Seq::empty()), ..del })
                && after[start + n + k] == (LineView { emphasis: Some(Seq::empty()), ..add })
            &&& short && old != new ==> after[start + k].emphasis->0.len() > 0 || after[start + n
                + k].emphasis->0.len() > 0
        }),
{
    let kinds = kinds_of(before);
    assert forall|j: int| 0 <= j < before.len() implies #[trigger] kinds[j] == before[j].kind by {}
    assert(block(kinds, start, start + n, start + 2 * n)) by {
        assert forall|j: int| start <= j < start + n implies kinds[j] == LineKind::Del by {
            assert(before[j].kind == LineKind::Del);
        }
        assert forall|j: int| start + n <= j < start + 2 * n implies kinds[j] == LineKind::Add by {
            assert(before[j].kind == LineKind::Add);
        }
        assert(kinds[start + n] == before[start + n].kind);
    }
    lemma_block(kinds, start, start + n, start + 2 * n, start + k);
    assert(paired(kinds, start + k, start + n + k));
    assert(due(before, rows, start + k, start + n + k));
    let old = before[start + k].text.skip(1);
    let new = before[start + n + k].text.skip(1);
    assert(before[start + k].kind == LineKind::Del);
    assert(before[start + n + k].kind == LineKind::Add);
    if old != new {
        law_different_lines_are_marked(old, new);
    }
}

/// A line changes only where it was replaced or replaced another, one of the two is among the rows
/// asked for, and they were not compared before.
pub proof fn law_other_lines_stay(
    before: Seq<LineView>,
    after: Seq<LineView>,
    rows: (int, int),
    r: int,
)
    requires
        emphasized(before, after, rows),
        0 <= r < before.len(),
        after[r] != before[r],
    ensures
        exists|start: int, n: int, k: int| #![trigger is_replacement(before, start, n), before[start + k]]
            is_replacement(before, start, n) && 0 <= k < n && (r == start + k || r == start + n + k)
                && (rows.0 <= start + k < rows.1 || rows.0 <= start + n + k < rows.1) && before[start
                + k].emphasis is None,
{
    assert(in_due_pair(before, rows, r));
    let (d, a) = choose|d: int, a: int| #[trigger] due(before, rows, d, a) && (r == d || r == a);
    let kinds = kinds_of(before);
    assert forall|j: int| 0 <= j < before.len() implies #[trigger] kinds[j] == before[j].kind by {}
    lemma_run_start(kinds, d, LineKind::Del);
    lemma_run_stop(kinds, d, LineKind::Del);
    let start = run_start(kinds, d, LineKind::Del);
    let mid = run_stop(kinds, d, LineKind::Del);
    lemma_run_stop(kinds, mid, LineKind::Add);
    let stop = run_stop(kinds, mid, LineKind::Add);
    let n = mid - start;
    let k = d - start;
    assert forall|j: int| start <= j < start + n implies (#[trigger] before[j]).kind
        == LineKind::Del by {
        assert(kinds[j] == LineKind::Del);
    }
    assert forall|j: int| start + n <= j < start + 2 * n implies (#[trigger] before[j]).kind
        == LineKind::Add by {
        assert(kinds[j] == LineKind::Add);
    }
    assert(is_replacement(before, start, n));
    assert(before[start + k].emphasis is None);
}

} // verus!
