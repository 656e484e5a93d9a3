//! How a hunk that git makes relates to the one that was clicked.

use vstd::prelude::*;

use crate::diff::hunk::HunkRange;

verus! {

/// How a hunk relates to the one that was clicked.
#[derive(Clone, Copy, PartialEq, Eq, Structural, Debug)]
pub enum HunkFit {
    /// They share no line.
    Disjoint,
    /// The hunk holds no line but those clicked.
    Within,
    /// The hunk reaches beyond those clicked.
    Exceeds,
}

/// The line behind a range. A range without lines still has a place, and counts as one line.
pub open spec fn end_of(start: int, lines: int) -> int {
    start + if lines == 0 {
        1
    } else {
        lines
    }
}

/// The lines of the hunk on the side that was clicked: a reversed diff has its sides exchanged.
pub open spec fn hunk_side(h: HunkRange, reversed: bool) -> (int, int) {
    if reversed {
        (h.new_start as int, end_of(h.new_start as int, h.new_lines as int))
    } else {
        (h.old_start as int, end_of(h.old_start as int, h.old_lines as int))
    }
}

/// How a hunk relates to the clicked one, by the lines of both before the change.
pub open spec fn fit_of(clicked: HunkRange, hunk: HunkRange, reversed: bool) -> HunkFit {
    let (start, end) = hunk_side(hunk, reversed);
    let (first, last) = hunk_side(clicked, false);
    if end <= first || last <= start {
        HunkFit::Disjoint
    } else if first <= start && end <= last {
        HunkFit::Within
    } else {
        HunkFit::Exceeds
    }
}

fn range_end(start: u32, lines: u32) -> (end: u64)
    ensures
        end == end_of(start as int, lines as int),
{
    start as u64 + if lines == 0 {
        1
    } else {
        lines as u64
    }
}

/// How the hunk `generated` relates to the clicked one.
pub fn hunk_fit(clicked: &HunkRange, generated: &HunkRange, reversed: bool) -> (fit: HunkFit)
    ensures
        fit == fit_of(*clicked, *generated, reversed),
{
    let (gen_start, gen_lines) = if reversed {
        (generated.new_start, generated.new_lines)
    } else {
        (generated.old_start, generated.old_lines)
    };
    let gen_end: u64 = range_end(gen_start, gen_lines);
    let click_end: u64 = range_end(clicked.old_start, clicked.old_lines);
    if gen_end <= clicked.old_start as u64 || click_end <= gen_start as u64 {
        HunkFit::Disjoint
    } else if clicked.old_start <= gen_start && gen_end <= click_end {
        HunkFit::Within
    } else {
        HunkFit::Exceeds
    }
}

/// A hunk lies within itself; and a hunk within the clicked one holds no line beyond it.
pub proof fn law_fit_is_containment(clicked: HunkRange, hunk: HunkRange, reversed: bool)
    ensures
        fit_of(clicked, clicked, false) == HunkFit::Within,
        fit_of(clicked, hunk, reversed) == HunkFit::Within <==> {
            let (start, end) = hunk_side(hunk, reversed);
            let (first, last) = hunk_side(clicked, false);
            first <= start && end <= last
        },
        fit_of(clicked, hunk, reversed) == HunkFit::Disjoint <==> {
            let (start, end) = hunk_side(hunk, reversed);
            let (first, last) = hunk_side(clicked, false);
            forall|line: int| !(start <= line < end && #[trigger] in_range(line, first, last))
        },
        reversed ==> fit_of(clicked, hunk, true) == fit_of(
            clicked,
            HunkRange {
                old_start: hunk.new_start,
                old_lines: hunk.new_lines,
                new_start: hunk.old_start,
                new_lines: hunk.old_lines,
            },
            false,
        ),
{
    let (start, end) = hunk_side(hunk, reversed);
    let (first, last) = hunk_side(clicked, false);
    if !(end <= first || last <= start) {
        if start <= first {
            assert(start <= first < end && in_range(first, first, last));
        } else {
            assert(start <= start < end && in_range(start, first, last));
        }
    }
}

/// Whether the line lies in the range.
pub open spec fn in_range(line: int, first: int, last: int) -> bool {
    first <= line < last
}

/// A hunk and the click are compared by line numbers alone. The lines of the hunk are those of its old
/// side, and of its new side in a reversed diff; those of the click are its old side; and a side
/// without lines counts as one line at its start. The hunk lies within the click where all its lines
/// do, and has nothing to do with it where none does.
pub proof fn law_fit_is_told_by_lines(clicked: HunkRange, hunk: HunkRange, reversed: bool)
    ensures
        ({
            let start: int = if reversed {
                hunk.new_start as int
            } else {
                hunk.old_start as int
            };
            let lines: int = if reversed {
                hunk.new_lines as int
            } else {
                hunk.old_lines as int
            };
            let last: int = start + lines - if lines == 0 {
                0int
            } else {
                1
            };
            let first: int = clicked.old_start as int;
            let end: int = first + clicked.old_lines - if clicked.old_lines == 0 {
                0int
            } else {
                1
            };
            &&& fit_of(clicked, hunk, reversed) == HunkFit::Within <==> first <= start && last <= end
            &&& fit_of(clicked, hunk, reversed) == HunkFit::Disjoint <==> last < first || end < start
        }),
{
}

} // verus!
