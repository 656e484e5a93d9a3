//! The lines of a diff.

use std::ops::Range;
use std::sync::Arc;
use vstd::prelude::*;

use crate::highlight::Span;
use crate::text::{lemma_utf8_len_step, slice, utf8_width};
use crate::word_diff::ranges_of;

verus! {

/// A line number, counted from one.
#[derive(Clone, Copy, PartialEq, Eq, Structural, Debug)]
pub struct LineNo {
    pub(crate) n: u32,
}

impl LineNo {
    /// The number.
    pub closed spec fn num(self) -> int {
        self.n as int
    }

    #[verifier::type_invariant]
    spec fn from_one(self) -> bool {
        0 < self.n
    }

    /// The line number `n`, or `None` for zero.
    pub fn new(n: u32) -> (no: Option<LineNo>)
        ensures
            match no {
                Some(no) => n > 0 && no.num() == n,
                None => n == 0,
            },
    {
        if n == 0 {
            None
        } else {
            Some(LineNo { n })
        }
    }

    /// The number.
    pub fn get(self) -> (n: u32)
        ensures
            n == self.num(),
            n > 0,
    {
        proof {
            use_type_invariant(&self);
        }
        self.n
    }
}

/// The numbers of optional line numbers.
pub open spec fn lineno_view(no: Option<LineNo>) -> Option<int> {
    match no {
        Some(no) => Some(no.num()),
        None => None,
    }
}

/// What a line of a diff is.
#[derive(Clone, Copy, PartialEq, Eq, Structural, Debug)]
pub enum LineKind {
    Context,
    Add,
    Del,
    Hunk,
    Meta,
    FileMeta,
    FileName,
    Stat,
    /// A blank line that separates blocks. A blank line of a file is `Context`.
    Blank,
}

/// Whether the line is deleted or added.
pub open spec fn is_change(kind: LineKind) -> bool {
    kind == LineKind::Del || kind == LineKind::Add
}

impl LineKind {
    /// Whether the line is one of a file.
    pub fn is_code(self) -> (r: bool)
        ensures
            r == (is_change(self) || self == LineKind::Context),
    {
        matches!(self, LineKind::Add | LineKind::Del | LineKind::Context)
    }
}

/// The side of a diff on which a line has its number.
#[derive(Clone, Copy, PartialEq, Eq, Structural, Debug)]
pub enum AnchorSide {
    Old,
    New,
}

/// A line of a diff.
#[derive(Clone)]
pub struct DiffLine {
    pub text: Arc<String>,
    pub kind: LineKind,
    /// The coloured runs; `None` until the line has been highlighted.
    pub spans: Option<Vec<Span>>,
    /// The changed byte ranges of `body()`; `None` until they have been computed.
    pub emphasis: Option<Vec<Range<usize>>>,
    /// The line's number in the file before the change; only lines of a file have one.
    pub old_lineno: Option<LineNo>,
    /// The line's number in the file after the change.
    pub new_lineno: Option<LineNo>,
}

/// What a line of a diff holds.
pub struct LineView {
    pub text: Seq<char>,
    pub kind: LineKind,
    pub spans: Option<Seq<Span>>,
    pub emphasis: Option<Seq<(int, int)>>,
    pub old_lineno: Option<int>,
    pub new_lineno: Option<int>,
}

impl View for DiffLine {
    type V = LineView;

    open spec fn view(&self) -> LineView {
        LineView {
            text: self.text@,
            kind: self.kind,
            spans: match self.spans {
                Some(spans) => Some(spans@),
                None => None,
            },
            emphasis: match self.emphasis {
                Some(ranges) => Some(ranges_of(ranges@)),
                None => None,
            },
            old_lineno: lineno_view(self.old_lineno),
            new_lineno: lineno_view(self.new_lineno),
        }
    }
}

/// What the lines hold.
pub open spec fn line_views(lines: Seq<DiffLine>) -> Seq<LineView> {
    lines.map_values(|l: DiffLine| l@)
}

/// A line with neither colours nor line numbers.
pub open spec fn plain_line(text: Seq<char>, kind: LineKind) -> LineView {
    LineView { text, kind, spans: None, emphasis: None, old_lineno: None, new_lineno: None }
}

impl LineView {
    /// Whether a deleted or added line starts with its one-byte marker.
    pub open spec fn marked(self) -> bool {
        is_change(self.kind) ==> self.text.len() > 0 && utf8_width(self.text[0]) == 1
    }

    /// The text without the marker that deleted and added lines start with.
    pub open spec fn body(self) -> Seq<char> {
        if is_change(self.kind) {
            self.text.skip(1)
        } else {
            self.text
        }
    }

    /// The line's number on `side`.
    pub open spec fn lineno(self, side: AnchorSide) -> Option<int> {
        match side {
            AnchorSide::Old => self.old_lineno,
            AnchorSide::New => self.new_lineno,
        }
    }

    /// The side and number by which the line is found again: those after the change, where it has
    /// them.
    pub open spec fn point(self) -> Option<(AnchorSide, int)> {
        match (self.new_lineno, self.old_lineno) {
            (Some(n), _) => Some((AnchorSide::New, n)),
            (None, Some(o)) => Some((AnchorSide::Old, o)),
            (None, None) => None,
        }
    }
}

impl DiffLine {
    /// A line with neither colours nor line numbers.
    pub fn new(text: &str, kind: LineKind) -> (line: DiffLine)
        ensures
            line@ == plain_line(text@, kind),
    {
        DiffLine::with_linenos(text, kind, None, None)
    }

    /// A line with its line numbers.
    pub fn with_linenos(
        text: &str,
        kind: LineKind,
        old_lineno: Option<LineNo>,
        new_lineno: Option<LineNo>,
    ) -> (line: DiffLine)
        ensures
            line@ == (LineView {
                old_lineno: lineno_view(old_lineno),
                new_lineno: lineno_view(new_lineno),
                ..plain_line(text@, kind)
            }),
    {
        DiffLine {
            text: Arc::new(text.to_owned()),
            kind,
            spans: None,
            emphasis: None,
            old_lineno,
            new_lineno,
        }
    }

    /// The text without the marker that deleted and added lines start with.
    pub fn body(&self) -> (s: &str)
        requires
            self@.marked(),
        ensures
            s@ == self@.body(),
    {
        let text: &str = self.text.as_str();
        match self.kind {
            LineKind::Add | LineKind::Del => {
                let end: usize = crate::text::byte_len(text);
                proof {
                    lemma_utf8_len_step(text@, 0);
                    assert(text@.take(0) =~= Seq::<char>::empty());
                    assert(text@.take(text@.len() as int) =~= text@);
                    assert(text@.skip(1) =~= text@.subrange(1, text@.len() as int));
                }
                slice(text, 1, end, Ghost(1int), Ghost(text@.len() as int))
            },
            _ => text,
        }
    }

    /// The line's number on `side`.
    pub fn lineno_on(&self, side: AnchorSide) -> (no: Option<LineNo>)
        ensures
            no == match side {
                AnchorSide::Old => self.old_lineno,
                AnchorSide::New => self.new_lineno,
            },
            lineno_view(no) == self@.lineno(side),
    {
        match side {
            AnchorSide::Old => self.old_lineno,
            AnchorSide::New => self.new_lineno,
        }
    }

    /// The side and number by which the line is found again; `None` where it has no number.
    pub fn anchor_point(&self) -> (point: Option<(AnchorSide, LineNo)>)
        ensures
            match point {
                Some((side, no)) => self@.point() == Some((side, no.num())),
                None => self@.point() is None,
            },
    {
        match (self.new_lineno, self.old_lineno) {
            (Some(n), _) => Some((AnchorSide::New, n)),
            (None, Some(o)) => Some((AnchorSide::Old, o)),
            (None, None) => None,
        }
    }
}

/// The body of a deleted or added line is its text without the first character, and that of any other
/// line its whole text. A line is found again by its number after the change, or else before it.
pub proof fn law_body_is_the_text_without_the_marker(l: LineView)
    ensures
        l.kind == LineKind::Add || l.kind == LineKind::Del ==> l.body() == l.text.skip(1),
        l.kind != LineKind::Add && l.kind != LineKind::Del ==> l.body() == l.text,
        l.new_lineno is Some ==> l.point() == Some((AnchorSide::New, l.new_lineno->0)),
        l.new_lineno is None && l.old_lineno is Some ==> l.point() == Some(
            (AnchorSide::Old, l.old_lineno->0),
        ),
        l.new_lineno is None && l.old_lineno is None ==> l.point() is None,
{
}

} // verus!
