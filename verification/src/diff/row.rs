//! What a row of the commit list stands for, and what its diff is taken over.

use std::collections::hash_map::DefaultHasher;
use std::hash::Hasher;
use vstd::prelude::*;
use vstd::std_specs::hash::DefaultHasherAdditionalSpecFns;

use crate::bytes::{le, push_le};
use crate::oid::Oid;

verus! {

/// Whether all bytes of the object name are `b`.
pub open spec fn filled(oid: Oid, b: u8) -> bool {
    forall|i: int| 0 <= i < 20 ==> oid.bytes@[i] == b
}

/// The name under which the row of uncommitted changes is kept.
pub fn oid_uncommitted() -> (oid: Oid)
    ensures
        filled(oid, 0xFF),
        kind_of(oid) == CommitKind::Uncommitted,
{
    let oid = Oid { bytes: [0xFF; 20] };
    assert(oid.bytes@[0] == 0xFF);
    oid
}

/// The name under which the row of staged changes is kept.
pub fn oid_staged() -> (oid: Oid)
    ensures
        filled(oid, 0xFE),
        kind_of(oid) == CommitKind::Staged,
{
    let oid = Oid { bytes: [0xFE; 20] };
    assert(oid.bytes@[0] == 0xFE);
    oid
}

/// The name under which the combined row of a revision range is kept.
pub fn oid_range() -> (oid: Oid)
    ensures
        filled(oid, 0xFD),
        kind_of(oid) == CommitKind::Range,
{
    let oid = Oid { bytes: [0xFD; 20] };
    assert(oid.bytes@[0] == 0xFD);
    oid
}

/// The two ends of a revision range: its diff leads from the tree of `base` to that of `head`.
#[derive(Clone, Copy, Debug)]
pub struct RangeEnds {
    pub base: Oid,
    pub head: Oid,
}

impl PartialEq for RangeEnds {
    fn eq(&self, other: &RangeEnds) -> (r: bool) {
        self.base == other.base && self.head == other.head
    }
}

impl Eq for RangeEnds {

}

impl vstd::std_specs::cmp::PartialEqSpecImpl for RangeEnds {
    open spec fn obeys_eq_spec() -> bool {
        true
    }

    open spec fn eq_spec(&self, other: &RangeEnds) -> bool {
        *self == *other
    }
}

/// What a row of the commit list stands for.
#[derive(Clone, Copy, PartialEq, Eq, Structural, Debug)]
pub enum CommitKind {
    Real,
    Uncommitted,
    Staged,
    /// The combined row of a revision range.
    Range,
}

/// The kind of the row that is kept under `oid`: three names are taken for the rows that stand for
/// no commit.
pub open spec fn kind_of(oid: Oid) -> CommitKind {
    if filled(oid, 0xFF) {
        CommitKind::Uncommitted
    } else if filled(oid, 0xFE) {
        CommitKind::Staged
    } else if filled(oid, 0xFD) {
        CommitKind::Range
    } else {
        CommitKind::Real
    }
}

/// Only one name has all of its bytes equal to `b`.
proof fn lemma_filled_is_one(oid: Oid, full: Oid, b: u8)
    requires
        filled(full, b),
    ensures
        filled(oid, b) <==> oid == full,
{
    if filled(oid, b) {
        assert(oid.bytes@ =~= full.bytes@);
        assert(oid.bytes =~= full.bytes);
    }
}

impl CommitKind {
    /// The kind of the row that is kept under `oid`.
    pub fn of(oid: Oid) -> (kind: CommitKind)
        ensures
            kind == kind_of(oid),
    {
        let uncommitted = oid_uncommitted();
        let staged = oid_staged();
        let range = oid_range();
        proof {
            lemma_filled_is_one(oid, uncommitted, 0xFF);
            lemma_filled_is_one(oid, staged, 0xFE);
            lemma_filled_is_one(oid, range, 0xFD);
        }
        if oid == uncommitted {
            CommitKind::Uncommitted
        } else if oid == staged {
            CommitKind::Staged
        } else if oid == range {
            CommitKind::Range
        } else {
            CommitKind::Real
        }
    }

    /// Whether the row's name leaves its content open. The name of a real commit pins it.
    pub fn is_virtual(self) -> (r: bool)
        ensures
            r == (self != CommitKind::Real),
    {
        !matches!(self, CommitKind::Real)
    }

    /// Whether only the computed diff tells what the row shows. A commit's name and the two ends of
    /// a range tell it beforehand; the index and the working tree do not.
    pub fn content_hashed_after_diff(self) -> (r: bool)
        ensures
            r == (self == CommitKind::Uncommitted || self == CommitKind::Staged),
    {
        matches!(self, CommitKind::Uncommitted | CommitKind::Staged)
    }
}

/// Whether the row that is kept under `oid` is that of a commit.
pub fn is_real_commit(oid: Oid) -> (r: bool)
    ensures
        r == (kind_of(oid) == CommitKind::Real),
{
    CommitKind::of(oid) == CommitKind::Real
}

/// What a row's diff is taken over.
#[derive(Clone, Copy, Debug)]
pub enum DiffSource {
    Commit(Oid),
    Uncommitted,
    Staged,
    Range(RangeEnds),
}

impl PartialEq for DiffSource {
    fn eq(&self, other: &DiffSource) -> (r: bool) {
        match (self, other) {
            (DiffSource::Commit(a), DiffSource::Commit(b)) => *a == *b,
            (DiffSource::Uncommitted, DiffSource::Uncommitted) => true,
            (DiffSource::Staged, DiffSource::Staged) => true,
            (DiffSource::Range(a), DiffSource::Range(b)) => *a == *b,
            _ => false,
        }
    }
}

impl Eq for DiffSource {

}

impl vstd::std_specs::cmp::PartialEqSpecImpl for DiffSource {
    open spec fn obeys_eq_spec() -> bool {
        true
    }

    open spec fn eq_spec(&self, other: &DiffSource) -> bool {
        *self == *other
    }
}

impl DiffSource {
    /// Whether the row is kept under `oid`: the commit's own name, or the one taken for the kind.
    pub open spec fn kept_under(self, oid: Oid) -> bool {
        match self {
            DiffSource::Commit(own) => oid == own,
            DiffSource::Uncommitted => filled(oid, 0xFF),
            DiffSource::Staged => filled(oid, 0xFE),
            DiffSource::Range(_) => filled(oid, 0xFD),
        }
    }

    /// The kind of the row.
    pub open spec fn row_kind(self) -> CommitKind {
        match self {
            DiffSource::Commit(_) => CommitKind::Real,
            DiffSource::Uncommitted => CommitKind::Uncommitted,
            DiffSource::Staged => CommitKind::Staged,
            DiffSource::Range(_) => CommitKind::Range,
        }
    }

    /// The name under which the row is kept.
    pub fn oid(self) -> (oid: Oid)
        ensures
            self.kept_under(oid),
    {
        match self {
            DiffSource::Commit(oid) => oid,
            DiffSource::Uncommitted => oid_uncommitted(),
            DiffSource::Staged => oid_staged(),
            DiffSource::Range(_) => oid_range(),
        }
    }

    /// The kind of the row.
    pub fn kind(self) -> (kind: CommitKind)
        ensures
            kind == self.row_kind(),
    {
        match self {
            DiffSource::Commit(_) => CommitKind::Real,
            DiffSource::Uncommitted => CommitKind::Uncommitted,
            DiffSource::Staged => CommitKind::Staged,
            DiffSource::Range(_) => CommitKind::Range,
        }
    }

    /// The ends of the range, where the row stands for one.
    pub fn range(self) -> (ends: Option<RangeEnds>)
        ensures
            ends == match self {
                DiffSource::Range(ends) => Some(ends),
                _ => None,
            },
    {
        match self {
            DiffSource::Range(ends) => Some(ends),
            DiffSource::Commit(_) | DiffSource::Uncommitted | DiffSource::Staged => None,
        }
    }
}

/// The kind read off a row's name is the kind of its source, for every source but a commit whose
/// name is one of the three that are taken.
pub proof fn law_name_tells_the_kind(source: DiffSource, oid: Oid)
    requires
        source.kept_under(oid),
        source is Commit ==> kind_of(oid) == CommitKind::Real,
    ensures
        kind_of(oid) == source.row_kind(),
{
    match source {
        DiffSource::Commit(_) => {},
        DiffSource::Uncommitted => {
            assert(oid.bytes@[0] == 0xFF);
        },
        DiffSource::Staged => {
            assert(oid.bytes@[0] == 0xFE);
        },
        DiffSource::Range(_) => {
            assert(oid.bytes@[0] == 0xFD);
        },
    }
}

/// What a row's diff is taken over, and the paths that it is restricted to.
#[derive(Clone, Debug)]
pub struct RowScope {
    pub source: DiffSource,
    pub paths: Vec<String>,
}

impl RowScope {
    /// The scope that restricts nothing.
    pub fn new(source: DiffSource) -> (scope: RowScope)
        ensures
            scope.source == source,
            scope.paths@.len() == 0,
    {
        RowScope { source, paths: Vec::new() }
    }
}

/// What is fed to the hasher for the ends of a range.
pub open spec fn ends_written(ends: RangeEnds) -> Seq<Seq<u8>> {
    seq![le(20, 8), ends.base.bytes@, le(20, 8), ends.head.bytes@]
}

/// A fingerprint of the range's content: the two names pin the two trees, and so the diff.
pub fn hash_range_ends(ends: RangeEnds) -> (h: u64)
    ensures
        h == DefaultHasher::spec_finish(ends_written(ends)),
{
    let mut prefix: Vec<u8> = Vec::new();
    push_le(&mut prefix, 20, 8);
    assert(prefix@ =~= le(20, 8));
    let mut h = DefaultHasher::new();
    h.write(&prefix);
    h.write(&ends.base.bytes);
    h.write(&prefix);
    h.write(&ends.head.bytes);
    assert(h@ =~= ends_written(ends));
    h.finish()
}

/// Ranges with different ends feed the hasher differently.
pub proof fn law_ends_are_told_apart(a: RangeEnds, b: RangeEnds)
    requires
        ends_written(a) == ends_written(b),
    ensures
        a == b,
{
    assert(ends_written(a)[1] == ends_written(b)[1]);
    assert(ends_written(a)[3] == ends_written(b)[3]);
    assert(a.base.bytes =~= b.base.bytes);
    assert(a.head.bytes =~= b.head.bytes);
}

/// How much of a row's change counts is asked for.
#[derive(Clone, Copy, PartialEq, Eq, Structural, Debug)]
pub enum StatsWant {
    FilesOnly,
    FilesAndLines,
}

/// The change counts of a row.
#[derive(Clone, Copy, PartialEq, Eq, Debug)]
pub struct CommitStats {
    pub files: usize,
    /// The lines added and deleted; `None` where they were not asked for.
    pub lines: Option<(usize, usize)>,
}

/// A row that stands for no commit is kept under twenty times the same byte: 0xFF for the uncommitted
/// changes, 0xFE for the staged ones, and 0xFD for a range. Every other name is that of a commit.
pub proof fn law_three_names_stand_for_no_commit(oid: Oid, b: u8)
    ensures
        (forall|i: int| 0 <= i < 20 ==> oid.bytes@[i] == b) ==> kind_of(oid) == if b == 0xFF {
            CommitKind::Uncommitted
        } else if b == 0xFE {
            CommitKind::Staged
        } else if b == 0xFD {
            CommitKind::Range
        } else {
            CommitKind::Real
        },
        (exists|i: int, j: int|
            0 <= i < 20 && 0 <= j < 20 && oid.bytes@[i] != oid.bytes@[j]) ==> kind_of(oid)
            == CommitKind::Real,
{
    if forall|i: int| 0 <= i < 20 ==> oid.bytes@[i] == b {
        assert(oid.bytes@[0] == b);
    }
    if exists|i: int, j: int| 0 <= i < 20 && 0 <= j < 20 && oid.bytes@[i] != oid.bytes@[j] {
        let (i, j) = choose|i: int, j: int|
            0 <= i < 20 && 0 <= j < 20 && oid.bytes@[i] != oid.bytes@[j];
        assert(oid.bytes@[i] != oid.bytes@[j]);
    }
}

/// A commit's row is kept under the commit's own name, and the others under those that are taken for
/// them.
pub proof fn law_row_is_kept_under_its_name(own: Oid, oid: Oid, ends: RangeEnds)
    ensures
        DiffSource::Commit(own).kept_under(oid) <==> oid == own,
        DiffSource::Uncommitted.kept_under(oid) <==> forall|i: int|
            0 <= i < 20 ==> oid.bytes@[i] == 0xFF,
        DiffSource::Staged.kept_under(oid) <==> forall|i: int|
            0 <= i < 20 ==> oid.bytes@[i] == 0xFE,
        DiffSource::Range(ends).kept_under(oid) <==> forall|i: int|
            0 <= i < 20 ==> oid.bytes@[i] == 0xFD,
{
}

} // verus!
