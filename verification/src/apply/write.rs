//! A write, step by step: what is to be done next, given what came of the last step.
//!
//! The caller does what a step says and reports what came of it. Everything is looked at before
//! anything is written.

use vstd::prelude::*;

use crate::apply::fit::{fit_of, hunk_fit, HunkFit};
use crate::apply::request::{ApplyAction, ApplyError, ApplyRequest, GitCode, GitError};
use crate::bytes::{copy_bytes, same_bytes};
use crate::diff::data::{Delta, DiffSettings};
use crate::diff::hunk::HunkRange;
use crate::diff::options::{specs_of, DiffOptions};
use crate::oid::Oid;

verus! {

/// A changed file of the diff that is to be applied.
pub struct ActionDelta {
    pub status: Delta,
    pub old_path: Option<Vec<u8>>,
    pub new_path: Option<Vec<u8>>,
    pub old_mode: FileMode,
    pub new_mode: FileMode,
    pub is_binary: bool,
    pub hunks: Vec<HunkRange>,
}

/// What an entry is, as far as a write has to know.
#[derive(Clone, Copy, PartialEq, Eq, Structural, Debug)]
pub enum FileMode {
    File,
    Executable,
    /// A symbolic link.
    Link,
    /// A submodule.
    Commit,
    Other,
}

/// What stands at a path of the working tree.
#[derive(Clone, Copy, Debug)]
pub enum WorktreeContent {
    Absent,
    /// A file, by the name that its bytes would have in git.
    Blob(Oid),
    /// Something that is no file: a symbolic link, a directory.
    Other,
}

/// What the last commit has at a path.
#[derive(Clone, Copy, PartialEq, Eq, Structural, Debug)]
pub enum HeadEntry {
    Nothing,
    Blob,
    /// Something that is no file: a submodule, a directory.
    Other,
}

/// One of the two paths of a renamed file; other files have the new one alone.
#[derive(Clone, Copy, PartialEq, Eq, Structural, Debug)]
pub enum Side {
    Old,
    New,
}

/// How the entry of a path in the index is to change.
#[derive(Clone, Copy, PartialEq, Eq, Structural, Debug)]
pub enum IndexChange {
    /// Take the file of the working tree.
    Add,
    Remove,
    /// Take the file of the last commit.
    Restore,
}

/// What a diff is applied to.
#[derive(Clone, Copy, PartialEq, Eq, Structural, Debug)]
pub enum Location {
    Index,
    WorkTree,
}

/// What is to be done next.
#[derive(Clone, Copy, PartialEq, Eq, Structural, Debug)]
pub enum Step {
    OpenIndex,
    /// See whether something stands at the path in the working tree.
    LookAt(Side),
    /// Find what the last commit has at the path.
    LookUpHead(Side),
    Change(Side, IndexChange),
    WriteIndex,
    /// Make the diff that is to be applied; with white space ignored, only to compare it.
    MakeDiff { ignore_ws: bool },
    /// Find what stands in the working tree at the old path of the changed file, and the name of
    /// what the commit has there.
    Guard(usize),
    /// Apply the diff.
    Patch(Location),
    /// Look at the binary file, and at everything that restoring it replaces.
    Check(usize),
    /// Restore the binary file.
    Restore(usize),
}

/// What came of a step.
pub enum Event {
    Done(Result<(), ApplyError>),
    /// Whether something stands there.
    Seen(Result<bool, ApplyError>),
    Head(Result<HeadEntry, ApplyError>),
    Content(Result<WorktreeContent, ApplyError>, Option<Oid>),
    /// What came of writing the index, or of restoring a file.
    Written(Result<(), GitError>),
    /// What came of applying the diff, and how many hunks were taken.
    Patched(Result<(), GitError>, usize),
}

/// What is to be done next, or how the write ended.
pub enum Next {
    Do(Step),
    Finish(Result<(), ApplyError>),
}

/// Whether bytes are those of an optional path.
pub open spec fn names(path: Option<Vec<u8>>, bytes: Seq<u8>) -> bool {
    path matches Some(p) && p@ == bytes
}

/// Whether the changed file is the one that was clicked, on either side.
pub open spec fn is_target(d: ActionDelta, path: Seq<u8>) -> bool {
    names(d.new_path, path) || names(d.old_path, path)
}

/// Whether the changed file is the one that was clicked, on either side.
pub fn delta_is_target(delta: &ActionDelta, path: &[u8]) -> (r: bool)
    ensures
        r == is_target(*delta, path@),
{
    if let Some(new) = &delta.new_path {
        if same_bytes(new, path) {
            return true;
        }
    }
    if let Some(old) = &delta.old_path {
        if same_bytes(old, path) {
            return true;
        }
    }
    false
}

/// Whether the file in the working tree is what the commit has: the same file, or neither.
pub open spec fn same_content(on_disk: WorktreeContent, blob: Option<Oid>) -> bool {
    match (on_disk, blob) {
        (WorktreeContent::Blob(oid), Some(blob)) => oid == blob,
        (WorktreeContent::Absent, None) => true,
        _ => false,
    }
}

/// Whether the file in the working tree is what the commit has: the same file, or neither.
pub fn content_matches(on_disk: &WorktreeContent, blob: Option<Oid>) -> (r: bool)
    ensures
        r == same_content(*on_disk, blob),
{
    match (on_disk, blob) {
        (WorktreeContent::Blob(oid), Some(blob)) => *oid == blob,
        (WorktreeContent::Absent, None) => true,
        _ => false,
    }
}

/// Whether the file may be written: nothing stands there, or the same file does.
pub open spec fn may_overwrite(existing: WorktreeContent, blob: Option<Oid>) -> bool {
    match existing {
        WorktreeContent::Absent => true,
        WorktreeContent::Blob(oid) => blob == Some(oid),
        WorktreeContent::Other => false,
    }
}

/// Whether the file may be written: nothing stands there, or the same file does.
pub fn safe_to_overwrite(existing: &WorktreeContent, blob: Option<Oid>) -> (r: bool)
    ensures
        r == may_overwrite(*existing, blob),
{
    match existing {
        WorktreeContent::Absent => true,
        WorktreeContent::Blob(oid) => match blob {
            Some(blob) => *oid == blob,
            None => false,
        },
        WorktreeContent::Other => false,
    }
}

/// Whether a hunk of the clicked file fits the click in that way.
pub open spec fn some_fit(
    diff: Seq<ActionDelta>,
    clicked: HunkRange,
    reversed: bool,
    path: Seq<u8>,
    fit: HunkFit,
) -> bool {
    exists|i: int, h: int| #![trigger diff[i].hunks@[h]]
        0 <= i < diff.len() && is_target(diff[i], path) && 0 <= h < diff[i].hunks@.len() && fit_of(
            clicked,
            diff[i].hunks@[h],
            reversed,
        ) == fit
}

/// How the best fitting hunk of the clicked file relates to the click.
pub open spec fn best_fit(
    diff: Seq<ActionDelta>,
    clicked: HunkRange,
    reversed: bool,
    path: Seq<u8>,
) -> HunkFit {
    if some_fit(diff, clicked, reversed, path, HunkFit::Within) {
        HunkFit::Within
    } else if some_fit(diff, clicked, reversed, path, HunkFit::Exceeds) {
        HunkFit::Exceeds
    } else {
        HunkFit::Disjoint
    }
}

/// How the best fitting hunk of the clicked file relates to the click.
pub fn best_hunk_fit(
    diff: &[ActionDelta],
    clicked: &HunkRange,
    reversed: bool,
    path: &[u8],
) -> (fit: HunkFit)
    ensures
        fit == best_fit(diff@, *clicked, reversed, path@),
{
    let mut best = HunkFit::Disjoint;
    let mut i: usize = 0;
    while i < diff.len()
        invariant
            i <= diff@.len(),
            best != HunkFit::Within,
            best == HunkFit::Exceeds ==> some_fit(
                diff@,
                *clicked,
                reversed,
                path@,
                HunkFit::Exceeds,
            ),
            forall|k: int, h: int| #![trigger diff@[k].hunks@[h]]
                0 <= k < i && is_target(diff@[k], path@) && 0 <= h < diff@[k].hunks@.len() ==> {
                    let fit = fit_of(*clicked, diff@[k].hunks@[h], reversed);
                    fit == HunkFit::Disjoint || fit == HunkFit::Exceeds && best == HunkFit::Exceeds
                },
        decreases diff.len() - i,
    {
        if delta_is_target(&diff[i], path) {
            let hunks = &diff[i].hunks;
            let mut h: usize = 0;
            while h < hunks.len()
                invariant
                    i < diff@.len(),
                    is_target(diff@[i as int], path@),
                    *hunks == diff@[i as int].hunks,
                    h <= hunks@.len(),
                    best != HunkFit::Within,
                    best == HunkFit::Exceeds ==> some_fit(
                        diff@,
                        *clicked,
                        reversed,
                        path@,
                        HunkFit::Exceeds,
                    ),
                    forall|k: int, g: int| #![trigger diff@[k].hunks@[g]]
                        (0 <= k < i && is_target(diff@[k], path@) && 0 <= g < diff@[k].hunks@.len()
                            || k == i && 0 <= g < h) ==> {
                            let fit = fit_of(*clicked, diff@[k].hunks@[g], reversed);
                            fit == HunkFit::Disjoint || fit == HunkFit::Exceeds && best
                                == HunkFit::Exceeds
                        },
                decreases hunks.len() - h,
            {
                let fit = hunk_fit(clicked, &hunks[h], reversed);
                assert(diff@[i as int].hunks@[h as int] == hunks@[h as int]);
                match fit {
                    HunkFit::Within => {
                        return HunkFit::Within;
                    },
                    HunkFit::Exceeds => {
                        best = HunkFit::Exceeds;
                    },
                    HunkFit::Disjoint => {},
                }
                h += 1;
            }
        }
        i += 1;
    }
    best
}

/// Whether a changed file of that status is applied without its hunks being asked for.
pub open spec fn skips_hunks(status: Delta) -> bool {
    status == Delta::Deleted || status == Delta::Renamed
}

/// Whether a changed file of that status comes from another.
pub open spec fn has_source(status: Delta) -> bool {
    status == Delta::Renamed || status == Delta::Copied
}

/// Whether the clicked file is among the changed ones with a status of the given kind.
pub open spec fn some_target(
    diff: Seq<ActionDelta>,
    path: Seq<u8>,
    with_source: bool,
) -> bool {
    exists|i: int| #![trigger diff[i]]
        0 <= i < diff.len() && is_target(diff[i], path) && if with_source {
            has_source(diff[i].status)
        } else {
            skips_hunks(diff[i].status)
        }
}

fn any_target(diff: &[ActionDelta], path: &[u8], with_source: bool) -> (r: bool)
    ensures
        r == some_target(diff@, path@, with_source),
{
    let mut i: usize = 0;
    while i < diff.len()
        invariant
            i <= diff@.len(),
            forall|k: int| #![trigger diff@[k]]
                0 <= k < i ==> !(is_target(diff@[k], path@) && if with_source {
                    has_source(diff@[k].status)
                } else {
                    skips_hunks(diff@[k].status)
                }),
        decreases diff.len() - i,
    {
        let hit = match diff[i].status {
            Delta::Renamed => true,
            Delta::Copied => with_source,
            Delta::Deleted => !with_source,
            _ => false,
        };
        if hit && delta_is_target(&diff[i], path) {
            return true;
        }
        i += 1;
    }
    false
}

/// Whether the clicked file is applied without its hunks being asked for, so that no hunk taken does
/// not mean that nothing happened.
pub fn bypasses_hunk_callback(diff: &[ActionDelta], path: &[u8]) -> (r: bool)
    ensures
        r == some_target(diff@, path@, false),
{
    any_target(diff, path, false)
}

/// A mode that no patch can write in the working tree.
pub open spec fn unwritable(mode: FileMode) -> bool {
    mode == FileMode::Link || mode == FileMode::Commit
}

/// Whether a changed file has a mode that no patch can write.
pub open spec fn some_unwritable(diff: Seq<ActionDelta>) -> bool {
    exists|i: int| #![trigger diff[i]]
        0 <= i < diff.len() && (unwritable(diff[i].old_mode) || unwritable(diff[i].new_mode))
}

/// Refuses a diff with a mode that no patch can write.
pub fn refuse_unwritable_modes(diff: &[ActionDelta]) -> (r: Result<(), ApplyError>)
    ensures
        r == if some_unwritable(diff@) {
            Err(ApplyError::Unsupported)
        } else {
            Ok(())
        },
{
    let mut i: usize = 0;
    while i < diff.len()
        invariant
            i <= diff@.len(),
            forall|k: int| #![trigger diff@[k]]
                0 <= k < i ==> !(unwritable(diff@[k].old_mode) || unwritable(diff@[k].new_mode)),
        decreases diff.len() - i,
    {
        let old = matches!(diff[i].old_mode, FileMode::Link | FileMode::Commit);
        let new = matches!(diff[i].new_mode, FileMode::Link | FileMode::Commit);
        if old || new {
            return Err(ApplyError::Unsupported);
        }
        i += 1;
    }
    Ok(())
}

/// The change of the index that stages a path: what stands in the working tree has to be what was
/// shown.
pub open spec fn staged_change(present: bool, shown_deleted: bool) -> Result<IndexChange, ApplyError> {
    if present == shown_deleted {
        Err(ApplyError::Stale)
    } else if present {
        Ok(IndexChange::Add)
    } else {
        Ok(IndexChange::Remove)
    }
}

/// The change of the index that stages a path.
pub fn stage_file(present: bool, shown_deleted: bool) -> (r: Result<IndexChange, ApplyError>)
    ensures
        r == staged_change(present, shown_deleted),
{
    if present == shown_deleted {
        return Err(ApplyError::Stale);
    }
    if present {
        Ok(IndexChange::Add)
    } else {
        Ok(IndexChange::Remove)
    }
}

/// The change of the index that unstages a path: back to what the last commit has there.
pub open spec fn unstaged_change(head: HeadEntry) -> Result<IndexChange, ApplyError> {
    match head {
        HeadEntry::Blob => Ok(IndexChange::Restore),
        HeadEntry::Other => Err(ApplyError::Unsupported),
        HeadEntry::Nothing => Ok(IndexChange::Remove),
    }
}

/// The change of the index that unstages a path.
pub fn unstage_file(head: HeadEntry) -> (r: Result<IndexChange, ApplyError>)
    ensures
        r == unstaged_change(head),
{
    match head {
        HeadEntry::Blob => Ok(IndexChange::Restore),
        HeadEntry::Other => Err(ApplyError::Unsupported),
        HeadEntry::Nothing => Ok(IndexChange::Remove),
    }
}

/// Whether the path was shown as gone: the old path of a renamed file always is.
pub open spec fn side_deleted(req: ApplyRequest, side: Side) -> bool {
    match side {
        Side::Old => true,
        Side::New => req.status == Delta::Deleted,
    }
}

/// The step that looks at a path before its entry changes.
pub open spec fn look(req: ApplyRequest, side: Side) -> Step {
    if req.action() == ApplyAction::Stage {
        Step::LookAt(side)
    } else {
        Step::LookUpHead(side)
    }
}

/// The first changed file from `i` on that applying the diff deletes, or the number of files.
pub open spec fn next_deleted(diff: Seq<ActionDelta>, i: int) -> int
    decreases diff.len() - i,
{
    if 0 <= i < diff.len() && diff[i].status != Delta::Deleted {
        next_deleted(diff, i + 1)
    } else {
        i
    }
}

/// The step before the diff is applied to the working tree: each file that it deletes is looked at,
/// for git would delete it whatever it holds.
pub open spec fn guard_from(diff: Seq<ActionDelta>, i: int) -> Next {
    let k = next_deleted(diff, i);
    if k >= diff.len() {
        Next::Do(Step::Patch(Location::WorkTree))
    } else if diff[k].old_path is None {
        Next::Finish(Err(ApplyError::Unsupported))
    } else {
        Next::Do(Step::Guard(k as usize))
    }
}

/// The step that applies the diff: to the index at once, to the working tree behind the guards.
pub open spec fn apply_to(diff: Seq<ActionDelta>, worktree: bool) -> Next {
    if !worktree {
        Next::Do(Step::Patch(Location::Index))
    } else if some_unwritable(diff) {
        Next::Finish(Err(ApplyError::Unsupported))
    } else {
        guard_from(diff, 0)
    }
}

/// The number of binary files.
pub open spec fn binaries(diff: Seq<ActionDelta>) -> nat
    decreases diff.len(),
{
    if diff.len() == 0 {
        0
    } else {
        binaries(diff.drop_last()) + if diff.last().is_binary {
            1nat
        } else {
            0nat
        }
    }
}

/// The step that reverts a whole file: text by applying the diff, binary files by restoring them once
/// all have been looked at, and never a mixture.
pub open spec fn revert_with(diff: Seq<ActionDelta>) -> Next {
    if diff.len() == 0 {
        Next::Finish(Err(ApplyError::Stale))
    } else if binaries(diff) == 0 {
        apply_to(diff, true)
    } else if binaries(diff) != diff.len() {
        Next::Finish(Err(ApplyError::Unsupported))
    } else {
        Next::Do(Step::Check(0))
    }
}

/// The step that applies the clicked hunk: none for a file that was shown as copied or is renamed or
/// copied now, and none but where a hunk lies within the click. A hunk that reaches beyond it is
/// compared with what was shown, where white space is ignored there.
pub open spec fn hunk_with(
    req: ApplyRequest,
    clicked: HunkRange,
    diff: Seq<ActionDelta>,
    ignore_ws: bool,
) -> Next {
    let reversed = req.action() != ApplyAction::Stage;
    if req.status == Delta::Copied || some_target(diff, req.path@, true) {
        Next::Finish(Err(ApplyError::RenameNeedsWholeFile))
    } else {
        match best_fit(diff, clicked, reversed, req.path@) {
            HunkFit::Within => apply_to(diff, req.action() == ApplyAction::Revert),
            HunkFit::Exceeds => if ignore_ws {
                Next::Do(Step::MakeDiff { ignore_ws: true })
            } else {
                Next::Finish(Err(ApplyError::Stale))
            },
            HunkFit::Disjoint => Next::Finish(Err(ApplyError::Stale)),
        }
    }
}

/// How a write ends once the diff has been applied: a hunk that was not taken means that nothing
/// happened, but for files that are applied without their hunks being asked for.
pub open spec fn patched_with(
    req: ApplyRequest,
    diff: Seq<ActionDelta>,
    outcome: Result<(), GitError>,
    accepted: usize,
) -> Result<(), ApplyError> {
    match outcome {
        Err(e) => if e.code == GitCode::ApplyFail {
            Err(ApplyError::Stale)
        } else {
            Err(ApplyError::Git(e))
        },
        Ok(()) => if req.hunk is Some && accepted == 0 && !some_target(diff, req.path@, false) {
            Err(ApplyError::Stale)
        } else {
            Ok(())
        },
    }
}

/// Whether the event is one that can come of the step.
pub open spec fn answers(event: Event, step: Step) -> bool {
    match step {
        Step::OpenIndex | Step::Change(_, _) | Step::MakeDiff { .. } | Step::Check(
            _,
        ) => event is Done,
        Step::WriteIndex | Step::Restore(_) => event is Written,
        Step::LookAt(_) => event is Seen,
        Step::LookUpHead(_) => event is Head,
        Step::Guard(_) => event is Content,
        Step::Patch(_) => event is Patched,
    }
}

/// The end of a write, where the change was refused, or the step that makes it.
pub open spec fn change_or_stop(side: Side, change: Result<IndexChange, ApplyError>) -> Next {
    match change {
        Ok(change) => Next::Do(Step::Change(side, change)),
        Err(e) => Next::Finish(Err(e)),
    }
}

/// What is to be done after a step: `diff` is the diff that was made last.
pub open spec fn step_after(
    req: ApplyRequest,
    ignore_ws: bool,
    diff: Seq<ActionDelta>,
    last: Step,
    event: Event,
) -> Next {
    match (last, event) {
        (_, Event::Done(Err(e))) => Next::Finish(Err(e)),
        (_, Event::Seen(Err(e))) => Next::Finish(Err(e)),
        (_, Event::Head(Err(e))) => Next::Finish(Err(e)),
        (_, Event::Content(Err(e), _)) => Next::Finish(Err(e)),
        (_, Event::Written(Err(e))) => Next::Finish(Err(ApplyError::Git(e))),
        (Step::OpenIndex, _) => Next::Do(
            look(
                req,
                if req.renamed_from() is Some {
                    Side::Old
                } else {
                    Side::New
                },
            ),
        ),
        (Step::LookAt(side), Event::Seen(Ok(present))) => change_or_stop(
            side,
            staged_change(present, side_deleted(req, side)),
        ),
        (Step::LookUpHead(side), Event::Head(Ok(head))) => change_or_stop(
            side,
            unstaged_change(head),
        ),
        (Step::Change(Side::Old, _), _) => Next::Do(look(req, Side::New)),
        (Step::Change(Side::New, _), _) => Next::Do(Step::WriteIndex),
        (Step::WriteIndex, _) => Next::Finish(Ok(())),
        (Step::MakeDiff { ignore_ws: false }, _) => match req.hunk {
            Some(clicked) => hunk_with(req, clicked, diff, ignore_ws),
            None => revert_with(diff),
        },
        (Step::MakeDiff { ignore_ws: true }, _) => Next::Finish(
            Err(
                if req.hunk matches Some(clicked) && best_fit(
                    diff,
                    clicked,
                    req.action() != ApplyAction::Stage,
                    req.path@,
                ) == HunkFit::Within {
                    ApplyError::HiddenByWhitespace
                } else {
                    ApplyError::Stale
                },
            ),
        ),
        (Step::Guard(i), Event::Content(Ok(content), blob)) => if same_content(content, blob) {
            guard_from(diff, i + 1)
        } else {
            Next::Finish(Err(ApplyError::ChangedSinceCommit))
        },
        (Step::Patch(_), Event::Patched(outcome, accepted)) => Next::Finish(
            patched_with(req, diff, outcome, accepted),
        ),
        (Step::Check(i), _) => if i + 1 < diff.len() {
            Next::Do(Step::Check((i + 1) as usize))
        } else {
            Next::Do(Step::Restore(0))
        },
        (Step::Restore(i), _) => if i + 1 < diff.len() {
            Next::Do(Step::Restore((i + 1) as usize))
        } else {
            Next::Finish(Ok(()))
        },
        _ => Next::Finish(Err(ApplyError::Unsupported)),
    }
}

/// The first step of a write: the index for a whole file, unless it is reverted; the diff otherwise.
pub open spec fn step_first(req: ApplyRequest) -> Step {
    if req.hunk is None && req.action() != ApplyAction::Revert {
        Step::OpenIndex
    } else {
        Step::MakeDiff { ignore_ws: false }
    }
}

/// The first step of a write.
pub fn first_step(req: &ApplyRequest) -> (step: Step)
    ensures
        step == step_first(*req),
{
    match (req.hunk, ApplyAction::of(req.oid)) {
        (None, ApplyAction::Stage) | (None, ApplyAction::Unstage) => Step::OpenIndex,
        _ => Step::MakeDiff { ignore_ws: false },
    }
}

fn look_step(req: &ApplyRequest, side: Side) -> (step: Step)
    ensures
        step == look(*req, side),
{
    match ApplyAction::of(req.oid) {
        ApplyAction::Stage => Step::LookAt(side),
        _ => Step::LookUpHead(side),
    }
}

/// The step before the diff is applied to the working tree.
fn guard_workdir_deletions(diff: &[ActionDelta], i: usize) -> (next: Next)
    requires
        i <= diff@.len(),
    ensures
        next == guard_from(diff@, i as int),
{
    let mut k: usize = i;
    while k < diff.len() && diff[k].status != Delta::Deleted
        invariant
            i <= k <= diff@.len(),
            next_deleted(diff@, i as int) == next_deleted(diff@, k as int),
        decreases diff.len() - k,
    {
        k += 1;
    }
    if k == diff.len() {
        Next::Do(Step::Patch(Location::WorkTree))
    } else {
        match &diff[k].old_path {
            Some(_) => Next::Do(Step::Guard(k)),
            None => Next::Finish(Err(ApplyError::Unsupported)),
        }
    }
}

fn apply_step(diff: &[ActionDelta], worktree: bool) -> (next: Next)
    ensures
        next == apply_to(diff@, worktree),
{
    if !worktree {
        return Next::Do(Step::Patch(Location::Index));
    }
    match refuse_unwritable_modes(diff) {
        Ok(()) => guard_workdir_deletions(diff, 0),
        Err(e) => Next::Finish(Err(e)),
    }
}

/// The step that reverts a whole file.
fn revert_file(diff: &[ActionDelta]) -> (next: Next)
    ensures
        next == revert_with(diff@),
{
    if diff.len() == 0 {
        return Next::Finish(Err(ApplyError::Stale));
    }
    let mut n: usize = 0;
    let mut i: usize = 0;
    assert(diff@.take(0) =~= Seq::<ActionDelta>::empty());
    while i < diff.len()
        invariant
            n <= i <= diff@.len(),
            n == binaries(diff@.take(i as int)),
        decreases diff.len() - i,
    {
        assert(diff@.take(i + 1).drop_last() =~= diff@.take(i as int));
        if diff[i].is_binary {
            n += 1;
        }
        i += 1;
    }
    assert(diff@.take(i as int) =~= diff@);
    if n == 0 {
        return apply_step(diff, true);
    }
    if n != diff.len() {
        return Next::Finish(Err(ApplyError::Unsupported));
    }
    Next::Do(Step::Check(0))
}

fn hunk_step(req: &ApplyRequest, clicked: &HunkRange, diff: &[ActionDelta], ignore_ws: bool) -> (next:
    Next)
    ensures
        next == hunk_with(*req, *clicked, diff@, ignore_ws),
{
    let action = ApplyAction::of(req.oid);
    let reversed = !matches!(action, ApplyAction::Stage);
    if req.status == Delta::Copied || any_target(diff, &req.path, true) {
        return Next::Finish(Err(ApplyError::RenameNeedsWholeFile));
    }
    match best_hunk_fit(diff, clicked, reversed, &req.path) {
        HunkFit::Within => apply_step(diff, matches!(action, ApplyAction::Revert)),
        HunkFit::Exceeds => if ignore_ws {
            Next::Do(Step::MakeDiff { ignore_ws: true })
        } else {
            Next::Finish(Err(ApplyError::Stale))
        },
        HunkFit::Disjoint => Next::Finish(Err(ApplyError::Stale)),
    }
}

/// How a write ends once the diff has been applied.
fn apply_diff(
    req: &ApplyRequest,
    diff: &[ActionDelta],
    outcome: Result<(), GitError>,
    accepted: usize,
) -> (r: Result<(), ApplyError>)
    ensures
        r == patched_with(*req, diff@, outcome, accepted),
{
    match outcome {
        Err(e) => match e.code {
            GitCode::ApplyFail => Err(ApplyError::Stale),
            _ => Err(ApplyError::Git(e)),
        },
        Ok(()) => if req.hunk.is_some() && accepted == 0 && !bypasses_hunk_callback(
            diff,
            &req.path,
        ) {
            Err(ApplyError::Stale)
        } else {
            Ok(())
        },
    }
}

fn change_step(side: Side, change: Result<IndexChange, ApplyError>) -> (next: Next)
    ensures
        next == change_or_stop(side, change),
{
    match change {
        Ok(change) => Next::Do(Step::Change(side, change)),
        Err(e) => Next::Finish(Err(e)),
    }
}

/// What is to be done after the step `last`, of which `event` came; `diff` is the diff that was made
/// last, and `ignore_ws` tells whether the diff was shown with white space ignored.
pub fn apply_request(
    req: &ApplyRequest,
    ignore_ws: bool,
    diff: &[ActionDelta],
    last: Step,
    event: Event,
) -> (next: Next)
    requires
        answers(event, last),
        last matches Step::Guard(i) ==> i < diff@.len(),
        last matches Step::Check(i) ==> i < diff@.len(),
        last matches Step::Restore(i) ==> i < diff@.len(),
    ensures
        next == step_after(*req, ignore_ws, diff@, last, event),
{
    match event {
        Event::Done(Err(e)) => Next::Finish(Err(e)),
        Event::Seen(Err(e)) => Next::Finish(Err(e)),
        Event::Head(Err(e)) => Next::Finish(Err(e)),
        Event::Content(Err(e), _) => Next::Finish(Err(e)),
        Event::Written(Err(e)) => Next::Finish(Err(ApplyError::Git(e))),
        Event::Seen(Ok(present)) => match last {
            Step::LookAt(side) => {
                let shown_deleted = match side {
                    Side::Old => true,
                    Side::New => req.shown_deleted(),
                };
                change_step(side, stage_file(present, shown_deleted))
            },
            _ => Next::Finish(Err(ApplyError::Unsupported)),
        },
        Event::Head(Ok(head)) => match last {
            Step::LookUpHead(side) => change_step(side, unstage_file(head)),
            _ => Next::Finish(Err(ApplyError::Unsupported)),
        },
        Event::Content(Ok(content), blob) => match last {
            Step::Guard(i) => if content_matches(&content, blob) && i < diff.len() {
                guard_workdir_deletions(diff, i + 1)
            } else {
                Next::Finish(Err(ApplyError::ChangedSinceCommit))
            },
            _ => Next::Finish(Err(ApplyError::Unsupported)),
        },
        Event::Patched(outcome, accepted) => Next::Finish(apply_diff(req, diff, outcome, accepted)),
        Event::Done(Ok(())) => match last {
            Step::OpenIndex => Next::Do(
                look_step(
                    req,
                    if req.rename_source().is_some() {
                        Side::Old
                    } else {
                        Side::New
                    },
                ),
            ),
            Step::Change(Side::Old, _) => Next::Do(look_step(req, Side::New)),
            Step::Change(Side::New, _) => Next::Do(Step::WriteIndex),
            Step::MakeDiff { ignore_ws: false } => match &req.hunk {
                Some(clicked) => hunk_step(req, clicked, diff, ignore_ws),
                None => revert_file(diff),
            },
            Step::MakeDiff { ignore_ws: true } => {
                let fits = match &req.hunk {
                    Some(clicked) => best_hunk_fit(
                        diff,
                        clicked,
                        !matches!(ApplyAction::of(req.oid), ApplyAction::Stage),
                        &req.path,
                    ) == HunkFit::Within,
                    None => false,
                };
                if fits {
                    Next::Finish(Err(ApplyError::HiddenByWhitespace))
                } else {
                    Next::Finish(Err(ApplyError::Stale))
                }
            },
            Step::Check(i) => if i < diff.len() - 1 {
                Next::Do(Step::Check(i + 1))
            } else {
                Next::Do(Step::Restore(0))
            },
            _ => Next::Finish(Err(ApplyError::Unsupported)),
        },
        Event::Written(Ok(())) => match last {
            Step::Restore(i) => if i < diff.len() - 1 {
                Next::Do(Step::Restore(i + 1))
            } else {
                Next::Finish(Ok(()))
            },
            _ => Next::Finish(Ok(())),
        },
    }
}

/// Whether a changed file is applied: all of them for a whole file, and the clicked one for a hunk.
pub fn takes_delta(req: &ApplyRequest, delta: &ActionDelta) -> (r: bool)
    ensures
        r == (req.hunk is None || is_target(*delta, req.path@)),
{
    req.hunk.is_none() || delta_is_target(delta, &req.path)
}

/// Whether a hunk of a changed file that is applied is taken: all of them for a whole file, and those
/// that lie within the clicked hunk otherwise.
pub fn takes_hunk(req: &ApplyRequest, hunk: &HunkRange) -> (r: bool)
    ensures
        r == match req.hunk {
            Some(clicked) => fit_of(clicked, *hunk, req.action() != ApplyAction::Stage)
                == HunkFit::Within,
            None => true,
        },
{
    match &req.hunk {
        Some(clicked) => hunk_fit(
            clicked,
            hunk,
            !matches!(ApplyAction::of(req.oid), ApplyAction::Stage),
        ) == HunkFit::Within,
        None => true,
    }
}

/// What git is asked for when it makes the diff that is to be applied: both paths of a renamed file,
/// taken as they are, with the sides exchanged but for staging.
pub fn action_diff_opts(req: &ApplyRequest, settings: DiffSettings, ignore_ws: bool) -> (opts:
    DiffOptions)
    ensures
        opts.context_lines == Some(settings.context),
        opts.ignore_whitespace == ignore_ws,
        opts.reverse == (req.action() != ApplyAction::Stage),
        opts.literal_paths,
        specs_of(opts.pathspecs@) == match req.renamed_from() {
            Some(old) => seq![req.path@, old],
            None => seq![req.path@],
        },
{
    let mut opts = DiffOptions::new();
    opts.context_lines = Some(settings.context);
    opts.ignore_whitespace = ignore_ws;
    opts.reverse = !matches!(ApplyAction::of(req.oid), ApplyAction::Stage);
    opts.literal_paths = true;
    opts.pathspecs.push(copy_bytes(&req.path));
    if let Some(old) = req.rename_source() {
        opts.pathspecs.push(copy_bytes(old));
        assert(specs_of(opts.pathspecs@) =~= seq![req.path@, old@]);
    } else {
        assert(specs_of(opts.pathspecs@) =~= seq![req.path@]);
    }
    opts
}

/// How many bytes of a file are looked through for what tells that it is binary.
pub const SNIFF_LEN: usize = 8000;

/// Whether the bytes are those of a binary file: a zero stands among the first of them.
pub open spec fn looks_binary(b: Seq<u8>) -> bool {
    exists|i: int| 0 <= i < b.len() && i < SNIFF_LEN && #[trigger] b[i] == 0
}

fn sniff(b: &[u8]) -> (r: bool)
    ensures
        r == looks_binary(b@),
{
    let mut i: usize = 0;
    while i < b.len() && i < SNIFF_LEN
        invariant
            i <= b@.len(),
            i <= SNIFF_LEN,
            forall|k: int| 0 <= k < i ==> #[trigger] b@[k] != 0,
        decreases b.len() - i,
    {
        if b[i] == 0 {
            return true;
        }
        i += 1;
    }
    false
}

/// Whether a changed file is binary: git says so, or one of its two contents looks it.
pub fn delta_is_binary(flagged: bool, old: Option<&[u8]>, new: Option<&[u8]>) -> (r: bool)
    ensures
        r == (flagged || (old matches Some(b) && looks_binary(b@)) || (new matches Some(b)
            && looks_binary(b@))),
{
    if flagged {
        return true;
    }
    let in_old = match old {
        Some(b) => sniff(b),
        None => false,
    };
    let in_new = match new {
        Some(b) => sniff(b),
        None => false,
    };
    in_old || in_new
}

/// Whether there is a last commit to write against: none before the first commit, and an error where
/// it cannot be read.
pub fn head_tree_for_write(head: Result<(), GitError>) -> (r: Result<bool, ApplyError>)
    ensures
        r == match head {
            Ok(()) => Ok::<bool, ApplyError>(true),
            Err(e) => if e.code == GitCode::UnbornBranch {
                Ok(false)
            } else {
                Err(ApplyError::Git(e))
            },
        },
{
    match head {
        Ok(()) => Ok(true),
        Err(e) => match e.code {
            GitCode::UnbornBranch => Ok(false),
            _ => Err(ApplyError::Git(e)),
        },
    }
}

/// What is known of a path of the working tree before its bytes are read.
pub enum PathStat {
    Missing,
    File,
    /// Something that is no file.
    Other,
    /// Nothing, for a file stands where the path needs a directory.
    Blocked(GitError),
    Failed(GitError),
}

/// What stands at a path, where it does not take its bytes to tell: `None` for a file.
pub fn worktree_content(stat: PathStat) -> (r: Result<Option<WorktreeContent>, ApplyError>)
    ensures
        r == match stat {
            PathStat::Missing => Ok::<Option<WorktreeContent>, ApplyError>(
                Some(WorktreeContent::Absent),
            ),
            PathStat::File => Ok(None),
            PathStat::Other => Ok(Some(WorktreeContent::Other)),
            PathStat::Blocked(e) | PathStat::Failed(e) => Err(ApplyError::Git(e)),
        },
{
    match stat {
        PathStat::Missing => Ok(Some(WorktreeContent::Absent)),
        PathStat::File => Ok(None),
        PathStat::Other => Ok(Some(WorktreeContent::Other)),
        PathStat::Blocked(e) | PathStat::Failed(e) => Err(ApplyError::Git(e)),
    }
}

/// What will stand at a path when a binary file is restored: as `worktree_content` says, but nothing
/// where the file in its way goes before, which `room` tells.
pub fn content_before_restore(stat: PathStat, room: bool) -> (r: Result<
    Option<WorktreeContent>,
    ApplyError,
>)
    ensures
        r == match stat {
            PathStat::Missing => Ok::<Option<WorktreeContent>, ApplyError>(
                Some(WorktreeContent::Absent),
            ),
            PathStat::File => Ok(None),
            PathStat::Other => Ok(Some(WorktreeContent::Other)),
            PathStat::Blocked(e) => if room {
                Ok(Some(WorktreeContent::Absent))
            } else {
                Err(ApplyError::Git(e))
            },
            PathStat::Failed(e) => Err(ApplyError::Git(e)),
        },
{
    match stat {
        PathStat::Blocked(e) => if room {
            Ok(Some(WorktreeContent::Absent))
        } else {
            Err(ApplyError::Git(e))
        },
        stat => worktree_content(stat),
    }
}

/// Whether something stands at a path: only a path that is not found is gone, and any other failure
/// is an error.
pub fn stands_there(stat: PathStat) -> (r: Result<bool, ApplyError>)
    ensures
        r == match stat {
            PathStat::Missing => Ok::<bool, ApplyError>(false),
            PathStat::File | PathStat::Other => Ok(true),
            PathStat::Blocked(e) | PathStat::Failed(e) => Err(ApplyError::Git(e)),
        },
{
    match stat {
        PathStat::Missing => Ok(false),
        PathStat::File | PathStat::Other => Ok(true),
        PathStat::Blocked(e) | PathStat::Failed(e) => Err(ApplyError::Git(e)),
    }
}

/// What stands at the path of a file, given the name that its bytes have in git: nothing, where the
/// file has gone since.
pub fn hashed_content(hash: Result<Oid, GitError>) -> (r: Result<WorktreeContent, ApplyError>)
    ensures
        r == match hash {
            Ok(oid) => Ok::<WorktreeContent, ApplyError>(WorktreeContent::Blob(oid)),
            Err(e) => if e.code == GitCode::NotFound {
                Ok(WorktreeContent::Absent)
            } else {
                Err(ApplyError::Git(e))
            },
        },
{
    match hash {
        Ok(oid) => Ok(WorktreeContent::Blob(oid)),
        Err(e) => match e.code {
            GitCode::NotFound => Ok(WorktreeContent::Absent),
            _ => Err(ApplyError::Git(e)),
        },
    }
}

/// The mode that a restored entry of the index gets: the one that the last commit has, and that of an
/// ordinary file where it is no number.
pub fn entry_mode(mode: i32) -> (m: u32)
    ensures
        m == if mode >= 0 {
            mode as int
        } else {
            0o100_644
        },
{
    if mode >= 0 {
        mode as u32
    } else {
        0o100_644
    }
}

/// The index is written once, and only when every path of the file has been changed without an
/// error.
pub proof fn law_index_is_written_last(
    req: ApplyRequest,
    ignore_ws: bool,
    diff: Seq<ActionDelta>,
    last: Step,
    event: Event,
)
    requires
        answers(event, last),
        step_after(req, ignore_ws, diff, last, event) == Next::Do(Step::WriteIndex),
    ensures
        last matches Step::Change(side, _) && side == Side::New,
        event matches Event::Done(done) && done is Ok,
{
}

/// An entry of the index changes only behind a look at its path, and as that look allows; the path of
/// the file itself is looked at only when the old path of a rename has been changed.
pub proof fn law_entries_change_behind_a_look(
    req: ApplyRequest,
    ignore_ws: bool,
    diff: Seq<ActionDelta>,
    last: Step,
    event: Event,
    side: Side,
    change: IndexChange,
)
    requires
        answers(event, last),
        step_after(req, ignore_ws, diff, last, event) == Next::Do(Step::Change(side, change)),
    ensures
        match last {
            Step::LookAt(s) => {
                &&& s == side
                &&& event matches Event::Seen(Ok(present))
                &&& present != side_deleted(req, side)
                &&& present <==> change == IndexChange::Add
            },
            Step::LookUpHead(s) => {
                &&& s == side
                &&& event matches Event::Head(Ok(head))
                &&& unstaged_change(head) == Ok::<IndexChange, ApplyError>(change)
            },
            _ => false,
        },
{
}

/// The diff is applied for a click on a hunk only where a hunk of the file lies within the click and
/// the file was neither renamed nor copied; and to the working tree only where every mode can be
/// written and every file that goes was looked at and held what the commit has.
pub proof fn law_patch_is_decided_first(
    req: ApplyRequest,
    ignore_ws: bool,
    diff: Seq<ActionDelta>,
    last: Step,
    event: Event,
)
    requires
        answers(event, last),
        last matches Step::Guard(i) ==> i < diff.len(),
        step_after(req, ignore_ws, diff, last, event) matches Next::Do(step) && step is Patch,
    ensures
        match last {
            Step::MakeDiff { .. } => {
                &&& event matches Event::Done(done) && done is Ok
                &&& req.hunk matches Some(clicked) ==> !some_target(diff, req.path@, true)
                    && req.status != Delta::Copied && some_fit(
                    diff,
                    clicked,
                    req.action() != ApplyAction::Stage,
                    req.path@,
                    HunkFit::Within,
                )
                &&& req.hunk is None || req.action() == ApplyAction::Revert ==> !some_unwritable(
                    diff,
                ) && next_deleted(diff, 0) >= diff.len()
            },
            Step::Guard(i) => event matches Event::Content(Ok(content), blob) && same_content(
                content,
                blob,
            ) && next_deleted(diff, i + 1) >= diff.len(),
            _ => false,
        },
{
}

/// Between one file that is looked at and the next, none goes; so that all files that go are looked
/// at before the diff is applied.
pub proof fn law_guards_miss_no_file(diff: Seq<ActionDelta>, i: int)
    requires
        0 <= i <= diff.len(),
    ensures
        i <= next_deleted(diff, i) <= diff.len(),
        forall|k: int| i <= k < next_deleted(diff, i) ==> (#[trigger] diff[k]).status
            != Delta::Deleted,
        next_deleted(diff, i) < diff.len() ==> diff[next_deleted(diff, i)].status == Delta::Deleted,
    decreases diff.len() - i,
{
    if i < diff.len() && diff[i].status != Delta::Deleted {
        law_guards_miss_no_file(diff, i + 1);
    }
}

/// A file that goes is never passed over: where what stands there is not what the commit has, the
/// write ends, and nothing has been written.
pub proof fn law_changed_file_stops_the_write(
    req: ApplyRequest,
    ignore_ws: bool,
    diff: Seq<ActionDelta>,
    i: usize,
    content: WorktreeContent,
    blob: Option<Oid>,
)
    requires
        !same_content(content, blob),
    ensures
        step_after(req, ignore_ws, diff, Step::Guard(i), Event::Content(Ok(content), blob))
            == Next::Finish(Err(ApplyError::ChangedSinceCommit)),
        step_after(req, ignore_ws, diff, Step::Guard(i), Event::Content(Ok(WorktreeContent::Other), blob))
            == Next::Finish(Err(ApplyError::ChangedSinceCommit)),
{
}

/// Nothing is done behind a step that writes the index or applies the diff.
pub proof fn law_nothing_follows_a_write(
    req: ApplyRequest,
    ignore_ws: bool,
    diff: Seq<ActionDelta>,
    last: Step,
    event: Event,
)
    requires
        answers(event, last),
        last is WriteIndex || last is Patch,
    ensures
        step_after(req, ignore_ws, diff, last, event) is Finish,
{
}

/// Whether the steps are those of a write of which the events came.
pub open spec fn is_run(
    req: ApplyRequest,
    ignore_ws: bool,
    diff: Seq<ActionDelta>,
    steps: Seq<Step>,
    events: Seq<Event>,
) -> bool {
    &&& steps.len() == events.len() + 1
    &&& steps[0] == step_first(req)
    &&& forall|k: int| #![trigger events[k]]
        0 <= k < events.len() ==> answers(events[k], steps[k]) && step_after(
            req,
            ignore_ws,
            diff,
            steps[k],
            events[k],
        ) == Next::Do(steps[k + 1])
}

/// Whether the changed file `i` was looked at in the steps before `n` and held what the commit has.
pub open spec fn was_guarded(steps: Seq<Step>, events: Seq<Event>, n: int, i: int) -> bool {
    exists|k: int| #![trigger events[k]]
        0 <= k < n && k < events.len() && steps[k] == Step::Guard(i as usize) && (
        events[k] matches Event::Content(Ok(content), blob) && same_content(content, blob))
}

/// Before the diff is applied to the working tree, every file that goes was looked at and held what
/// the commit has.
pub proof fn law_run_guards_every_deletion(
    req: ApplyRequest,
    ignore_ws: bool,
    diff: Seq<ActionDelta>,
    steps: Seq<Step>,
    events: Seq<Event>,
    i: int,
)
    requires
        is_run(req, ignore_ws, diff, steps, events),
        diff.len() <= usize::MAX,
        steps.last() is Patch,
        req.action() == ApplyAction::Revert,
        0 <= i < diff.len(),
        diff[i].status == Delta::Deleted,
    ensures
        was_guarded(steps, events, events.len() as int, i),
{
    lemma_guarded(req, ignore_ws, diff, steps, events, events.len() as int, i);
}

proof fn lemma_guarded(
    req: ApplyRequest,
    ignore_ws: bool,
    diff: Seq<ActionDelta>,
    steps: Seq<Step>,
    events: Seq<Event>,
    n: int,
    i: int,
)
    requires
        is_run(req, ignore_ws, diff, steps, events),
        diff.len() <= usize::MAX,
        req.action() == ApplyAction::Revert,
        0 <= n < steps.len(),
        0 <= i < diff.len(),
        diff[i].status == Delta::Deleted,
        steps[n] is Patch || (steps[n] matches Step::Guard(j) && i < j),
    ensures
        was_guarded(steps, events, n, i),
    decreases n,
{
    if n > 0 {
        let last = steps[n - 1];
        let event = events[n - 1];
        assert(step_after(req, ignore_ws, diff, last, event) == Next::Do(steps[n]));
        if let Step::Guard(j) = last {
            lemma_guard_range(req, ignore_ws, diff, steps, events, n - 1);
            law_guards_miss_no_file(diff, j + 1);
            if i == j {
                assert(was_guarded(steps, events, n, i));
            } else if i < j {
                lemma_guarded(req, ignore_ws, diff, steps, events, n - 1, i);
            }
        } else {
            law_guards_miss_no_file(diff, 0);
        }
    }
}

/// A file that is looked at is one of the diff.
proof fn lemma_guard_range(
    req: ApplyRequest,
    ignore_ws: bool,
    diff: Seq<ActionDelta>,
    steps: Seq<Step>,
    events: Seq<Event>,
    n: int,
)
    requires
        is_run(req, ignore_ws, diff, steps, events),
        diff.len() <= usize::MAX,
        0 <= n < steps.len(),
    ensures
        steps[n] matches Step::Guard(j) ==> j < diff.len(),
    decreases n,
{
    if n > 0 {
        let event = events[n - 1];
        assert(step_after(req, ignore_ws, diff, steps[n - 1], event) == Next::Do(steps[n]));
        lemma_guard_range(req, ignore_ws, diff, steps, events, n - 1);
        law_guards_miss_no_file(diff, 0);
        if let Step::Guard(j) = steps[n - 1] {
            law_guards_miss_no_file(diff, j + 1);
        }
    }
}

/// Whether the step is one of those that change entries of the index.
pub open spec fn is_index_step(step: Step) -> bool {
    step is OpenIndex || step is LookAt || step is LookUpHead || step is Change || step is WriteIndex
}

/// A whole file is staged and unstaged in the index alone: no diff is made, and none applied.
pub proof fn law_whole_file_goes_through_the_index(
    req: ApplyRequest,
    ignore_ws: bool,
    diff: Seq<ActionDelta>,
    steps: Seq<Step>,
    events: Seq<Event>,
    n: int,
)
    requires
        is_run(req, ignore_ws, diff, steps, events),
        req.hunk is None,
        req.action() != ApplyAction::Revert,
        0 <= n < steps.len(),
    ensures
        is_index_step(steps[n]),
    decreases n,
{
    if n > 0 {
        law_whole_file_goes_through_the_index(req, ignore_ws, diff, steps, events, n - 1);
        assert(step_after(req, ignore_ws, diff, steps[n - 1], events[n - 1]) == Next::Do(steps[n]));
    }
}

/// When the index is written, the entry of the file has been changed, and that of the path from which
/// it was renamed as well.
pub proof fn law_rename_changes_both_paths(
    req: ApplyRequest,
    ignore_ws: bool,
    diff: Seq<ActionDelta>,
    steps: Seq<Step>,
    events: Seq<Event>,
)
    requires
        is_run(req, ignore_ws, diff, steps, events),
        steps.last() is WriteIndex,
    ensures
        exists|k: int|
            0 <= k < steps.len() && (#[trigger] steps[k] matches Step::Change(side, _) && side
                == Side::New),
        req.renamed_from() is Some ==> exists|k: int|
            0 <= k < steps.len() && (#[trigger] steps[k] matches Step::Change(side, _) && side
                == Side::Old),
{
    let n = events.len() as int;
    assert(n > 0);
    assert(step_after(req, ignore_ws, diff, steps[n - 1], events[n - 1]) == Next::Do(steps[n]));
    assert(steps[n - 1] matches Step::Change(side, _) && side == Side::New);
    assert(n > 1);
    assert(step_after(req, ignore_ws, diff, steps[n - 2], events[n - 2]) == Next::Do(steps[n - 1]));
    assert(steps[n - 2] == Step::LookAt(Side::New) || steps[n - 2] == Step::LookUpHead(Side::New));
    assert(n > 2);
    assert(step_after(req, ignore_ws, diff, steps[n - 3], events[n - 3]) == Next::Do(steps[n - 2]));
    if req.renamed_from() is Some {
        assert(steps[n - 3] matches Step::Change(side, _) && side == Side::Old);
    }
}

/// Whether the step writes the index or the working tree.
pub open spec fn writes(step: Step) -> bool {
    step is WriteIndex || step is Patch || step is Restore
}

/// A write that is refused, for any reason but an error of git, has written nothing. Only the diff may
/// have been handed to git by then, and git has found that it does not fit, or taken none of its
/// hunks. `shown` is the diff that was made last: the one that was shown, where it was compared.
pub proof fn law_refusal_follows_no_write(
    req: ApplyRequest,
    ignore_ws: bool,
    diff: Seq<ActionDelta>,
    shown: Seq<ActionDelta>,
    steps: Seq<Step>,
    events: Seq<Event>,
    event: Event,
    error: ApplyError,
)
    requires
        is_run(req, ignore_ws, diff, steps, events),
        answers(event, steps.last()),
        step_after(req, ignore_ws, shown, steps.last(), event) == Next::Finish(Err(error)),
        error !is Git,
    ensures
        forall|k: int| 0 <= k < steps.len() - 1 ==> !writes(#[trigger] steps[k]),
        writes(steps.last()) ==> {
            &&& steps.last() is Patch
            &&& event matches Event::Patched(outcome, accepted)
            &&& match outcome {
                Ok(_) => accepted == 0,
                Err(e) => e.code == GitCode::ApplyFail,
            }
        },
{
    assert forall|k: int| 0 <= k < steps.len() - 1 implies !writes(#[trigger] steps[k]) by {
        if writes(steps[k]) {
            lemma_restoring_goes_on(req, ignore_ws, diff, steps, events, k, steps.len() - 1);
        }
    }
}

/// Behind a step that writes there is none but the restoring of files.
proof fn lemma_restoring_goes_on(
    req: ApplyRequest,
    ignore_ws: bool,
    diff: Seq<ActionDelta>,
    steps: Seq<Step>,
    events: Seq<Event>,
    k: int,
    n: int,
)
    requires
        is_run(req, ignore_ws, diff, steps, events),
        0 <= k < n < steps.len(),
        writes(steps[k]),
    ensures
        steps[n] is Restore,
    decreases n,
{
    if k < n - 1 {
        lemma_restoring_goes_on(req, ignore_ws, diff, steps, events, k, n - 1);
    }
    assert(step_after(req, ignore_ws, diff, steps[n - 1], events[n - 1]) == Next::Do(steps[n]));
}

/// Whether the binary file `i` was looked at in the steps before `n`, and can be restored.
pub open spec fn was_checked(steps: Seq<Step>, events: Seq<Event>, n: int, i: int) -> bool {
    exists|k: int| #![trigger events[k]]
        0 <= k < n && k < events.len() && steps[k] == Step::Check(i as usize) && (
        events[k] matches Event::Done(done) && done is Ok)
}

/// Before a binary file is restored, all of them were looked at.
pub proof fn law_binary_files_are_looked_at_first(
    req: ApplyRequest,
    ignore_ws: bool,
    diff: Seq<ActionDelta>,
    steps: Seq<Step>,
    events: Seq<Event>,
    i: int,
)
    requires
        is_run(req, ignore_ws, diff, steps, events),
        diff.len() <= usize::MAX,
        steps.last() is Restore,
        0 <= i < diff.len(),
    ensures
        was_checked(steps, events, events.len() as int, i),
{
    lemma_checked(req, ignore_ws, diff, steps, events, events.len() as int, i);
}

proof fn lemma_checked(
    req: ApplyRequest,
    ignore_ws: bool,
    diff: Seq<ActionDelta>,
    steps: Seq<Step>,
    events: Seq<Event>,
    n: int,
    i: int,
)
    requires
        is_run(req, ignore_ws, diff, steps, events),
        diff.len() <= usize::MAX,
        0 <= n < steps.len(),
        0 <= i < diff.len(),
        steps[n] is Restore || (steps[n] matches Step::Check(j) && i < j),
    ensures
        was_checked(steps, events, n, i),
    decreases n,
{
    if n > 0 {
        let last = steps[n - 1];
        let event = events[n - 1];
        assert(step_after(req, ignore_ws, diff, last, event) == Next::Do(steps[n]));
        if last == Step::Check(i as usize) {
            assert(was_checked(steps, events, n, i));
        } else {
            lemma_checked(req, ignore_ws, diff, steps, events, n - 1, i);
        }
    }
}

/// What an action writes: staging and unstaging the index, reverting the working tree.
pub open spec fn location_of(action: ApplyAction) -> Location {
    match action {
        ApplyAction::Stage | ApplyAction::Unstage => Location::Index,
        ApplyAction::Revert => Location::WorkTree,
    }
}

/// What a step writes.
pub open spec fn written_by(step: Step) -> Option<Location> {
    match step {
        Step::WriteIndex => Some(Location::Index),
        Step::Patch(location) => Some(location),
        Step::Restore(_) => Some(Location::WorkTree),
        _ => None,
    }
}

/// Staging and unstaging write the index alone, and reverting writes the working tree alone.
pub proof fn law_one_place_is_written(
    req: ApplyRequest,
    ignore_ws: bool,
    diff: Seq<ActionDelta>,
    steps: Seq<Step>,
    events: Seq<Event>,
    n: int,
)
    requires
        is_run(req, ignore_ws, diff, steps, events),
        0 <= n < steps.len(),
    ensures
        written_by(steps[n]) matches Some(location) ==> location == location_of(req.action()),
{
    lemma_steps_of_the_action(req, ignore_ws, diff, steps, events, n);
}

/// The entries of the index change but for a revert, and files are looked at and restored for a revert
/// alone.
proof fn lemma_steps_of_the_action(
    req: ApplyRequest,
    ignore_ws: bool,
    diff: Seq<ActionDelta>,
    steps: Seq<Step>,
    events: Seq<Event>,
    n: int,
)
    requires
        is_run(req, ignore_ws, diff, steps, events),
        0 <= n < steps.len(),
    ensures
        match steps[n] {
            Step::Guard(_) | Step::Check(_) | Step::Restore(_) => req.action()
                == ApplyAction::Revert,
            Step::Patch(location) => location == location_of(req.action()),
            Step::MakeDiff { .. } => req.hunk is Some || req.action() == ApplyAction::Revert,
            _ => req.action() != ApplyAction::Revert,
        },
    decreases n,
{
    if n > 0 {
        lemma_steps_of_the_action(req, ignore_ws, diff, steps, events, n - 1);
        assert(step_after(req, ignore_ws, diff, steps[n - 1], events[n - 1]) == Next::Do(steps[n]));
    }
}

/// What no patch can write is a symbolic link or a submodule, on either side of a changed file; a file
/// is, with or without the right to be run.
pub proof fn law_links_and_submodules_are_unwritable(diff: Seq<ActionDelta>)
    ensures
        some_unwritable(diff) <==> exists|i: int|
            0 <= i < diff.len() && ((#[trigger] diff[i]).old_mode is Link || diff[i].old_mode is Commit
                || diff[i].new_mode is Link || diff[i].new_mode is Commit),
{
}

/// Whether a patch can write the changed file without deleting one: it is neither a symbolic link nor
/// a submodule on either side, not binary, and does not go.
pub open spec fn is_plain_change(d: ActionDelta) -> bool {
    &&& d.old_mode !is Link && d.old_mode !is Commit
    &&& d.new_mode !is Link && d.new_mode !is Commit
    &&& !d.is_binary
    &&& d.status != Delta::Deleted
}

/// Reverting a whole file goes through where it can: text files that stay, each with a mode of a file,
/// are patched in the working tree at once.
pub proof fn law_plain_files_are_reverted(
    req: ApplyRequest,
    ignore_ws: bool,
    diff: Seq<ActionDelta>,
)
    requires
        req.hunk is None,
        diff.len() > 0,
        forall|i: int| 0 <= i < diff.len() ==> is_plain_change(#[trigger] diff[i]),
    ensures
        step_after(
            req,
            ignore_ws,
            diff,
            Step::MakeDiff { ignore_ws: false },
            Event::Done(Ok(())),
        ) == Next::Do(Step::Patch(Location::WorkTree)),
{
    lemma_no_binaries(diff);
    law_guards_miss_no_file(diff, 0);
}

proof fn lemma_no_binaries(diff: Seq<ActionDelta>)
    requires
        forall|i: int| 0 <= i < diff.len() ==> !(#[trigger] diff[i]).is_binary,
    ensures
        binaries(diff) == 0,
    decreases diff.len(),
{
    if diff.len() > 0 {
        assert forall|i: int| 0 <= i < diff.len() - 1 implies !(
        #[trigger] diff.drop_last()[i]).is_binary by {
            assert(diff.drop_last()[i] == diff[i]);
        }
        assert(!diff[diff.len() - 1].is_binary);
        lemma_no_binaries(diff.drop_last());
    }
}

proof fn lemma_binaries(diff: Seq<ActionDelta>)
    ensures
        binaries(diff) <= diff.len(),
        binaries(diff) == diff.len() <==> forall|i: int|
            0 <= i < diff.len() ==> (#[trigger] diff[i]).is_binary,
        binaries(diff) == 0 <==> forall|i: int|
            0 <= i < diff.len() ==> !(#[trigger] diff[i]).is_binary,
    decreases diff.len(),
{
    if diff.len() > 0 {
        let fore = diff.drop_last();
        let n = diff.len() - 1;
        lemma_binaries(fore);
        assert forall|i: int| 0 <= i < n implies #[trigger] fore[i] == diff[i] by {}
        if forall|i: int| 0 <= i < diff.len() ==> (#[trigger] diff[i]).is_binary {
            assert(diff[n].is_binary);
            assert forall|i: int| 0 <= i < n implies (#[trigger] fore[i]).is_binary by {
                assert(diff[i].is_binary);
            }
        }
        if forall|i: int| 0 <= i < diff.len() ==> !(#[trigger] diff[i]).is_binary {
            assert(!diff[n].is_binary);
            assert forall|i: int| 0 <= i < n implies !(#[trigger] fore[i]).is_binary by {
                assert(!diff[i].is_binary);
            }
        }
        if binaries(diff) == diff.len() {
            assert forall|i: int| 0 <= i < diff.len() implies (#[trigger] diff[i]).is_binary by {
                if i < n {
                    assert(fore[i].is_binary);
                }
            }
        }
        if binaries(diff) == 0 {
            assert forall|i: int| 0 <= i < diff.len() implies !(#[trigger] diff[i]).is_binary by {
                if i < n {
                    assert(!fore[i].is_binary);
                }
            }
        }
    }
}

/// Reverting a whole file is refused where nothing is left to revert, where a changed file is neither
/// all text nor all binary, and where text has a mode that cannot be written; binary files are looked
/// at first, and so is the first of the text files that go.
pub proof fn law_whole_file_revert_is_sorted(
    req: ApplyRequest,
    ignore_ws: bool,
    diff: Seq<ActionDelta>,
)
    requires
        req.hunk is None,
        diff.len() <= usize::MAX,
    ensures
        ({
            let next = step_after(
                req,
                ignore_ws,
                diff,
                Step::MakeDiff { ignore_ws: false },
                Event::Done(Ok(())),
            );
            &&& diff.len() == 0 ==> next == Next::Finish(Err(ApplyError::Stale))
            &&& (exists|i: int, j: int| #![trigger diff[i], diff[j]]
                0 <= i < diff.len() && 0 <= j < diff.len() && diff[i].is_binary
                    && !diff[j].is_binary) ==> next == Next::Finish(Err(ApplyError::Unsupported))
            &&& diff.len() > 0 && (forall|i: int|
                0 <= i < diff.len() ==> (#[trigger] diff[i]).is_binary) ==> next == Next::Do(
                Step::Check(0),
            )
            &&& (forall|i: int| 0 <= i < diff.len() ==> !(#[trigger] diff[i]).is_binary) && (
            exists|i: int|
                0 <= i < diff.len() && ((#[trigger] diff[i]).old_mode is Link || diff[i].old_mode
                    is Commit || diff[i].new_mode is Link || diff[i].new_mode is Commit))
                ==> next == Next::Finish(Err(ApplyError::Unsupported))
            &&& forall|k: int| #![trigger diff[k]]
                0 <= k < diff.len() && diff[k].status == Delta::Deleted && diff[k].old_path is Some
                    && (forall|i: int|
                    0 <= i < diff.len() ==> !(#[trigger] diff[i]).is_binary && diff[i].old_mode
                        !is Link && diff[i].old_mode !is Commit && diff[i].new_mode !is Link
                        && diff[i].new_mode !is Commit) && (forall|i: int|
                    0 <= i < k ==> (#[trigger] diff[i]).status != Delta::Deleted) ==> next
                    == Next::Do(Step::Guard(k as usize))
        }),
{
    let next = step_after(
        req,
        ignore_ws,
        diff,
        Step::MakeDiff { ignore_ws: false },
        Event::Done(Ok(())),
    );
    lemma_binaries(diff);
    law_guards_miss_no_file(diff, 0);
    if exists|i: int|
        0 <= i < diff.len() && ((#[trigger] diff[i]).old_mode is Link || diff[i].old_mode is Commit
            || diff[i].new_mode is Link || diff[i].new_mode is Commit) {
        assert(some_unwritable(diff));
    }
    assert forall|k: int| #![trigger diff[k]]
        0 <= k < diff.len() && diff[k].status == Delta::Deleted && diff[k].old_path is Some && (
        forall|i: int|
            0 <= i < diff.len() ==> !(#[trigger] diff[i]).is_binary && diff[i].old_mode !is Link
                && diff[i].old_mode !is Commit && diff[i].new_mode !is Link && diff[i].new_mode
                !is Commit) && (forall|i: int|
            0 <= i < k ==> (#[trigger] diff[i]).status != Delta::Deleted) implies next == Next::Do(
        Step::Guard(k as usize),
    ) by {
        let g = next_deleted(diff, 0);
        assert(g == k) by {
            if g < k {
                assert(diff[g].status != Delta::Deleted);
            }
        }
        assert(!some_unwritable(diff));
    }
}

/// A click on a hunk goes through where it can: where a hunk of the clicked file has all its lines
/// within the click, and the file neither was shown as copied nor is renamed or copied, the diff is
/// applied. It goes to the index for staging and unstaging, and for reverting to the working tree,
/// where every changed file is text that stays.
pub proof fn law_fitting_hunk_is_applied(
    req: ApplyRequest,
    clicked: HunkRange,
    ignore_ws: bool,
    diff: Seq<ActionDelta>,
    i: int,
    h: int,
)
    requires
        req.hunk == Some(clicked),
        req.status != Delta::Copied,
        0 <= i < diff.len(),
        0 <= h < diff[i].hunks@.len(),
        names(diff[i].new_path, req.path@) || names(diff[i].old_path, req.path@),
        fit_of(clicked, diff[i].hunks@[h], req.action() != ApplyAction::Stage) == HunkFit::Within,
        forall|k: int| #![trigger diff[k]]
            0 <= k < diff.len() && (names(diff[k].new_path, req.path@) || names(
                diff[k].old_path,
                req.path@,
            )) ==> diff[k].status != Delta::Renamed && diff[k].status != Delta::Copied,
        req.action() == ApplyAction::Revert ==> forall|k: int|
            0 <= k < diff.len() ==> (#[trigger] diff[k]).old_mode !is Link && diff[k].old_mode
                !is Commit && diff[k].new_mode !is Link && diff[k].new_mode !is Commit
                && diff[k].status != Delta::Deleted,
    ensures
        step_after(
            req,
            ignore_ws,
            diff,
            Step::MakeDiff { ignore_ws: false },
            Event::Done(Ok(())),
        ) == Next::Do(
            Step::Patch(
                if req.action() == ApplyAction::Revert {
                    Location::WorkTree
                } else {
                    Location::Index
                },
            ),
        ),
{
    assert(is_target(diff[i], req.path@));
    assert(some_fit(
        diff,
        clicked,
        req.action() != ApplyAction::Stage,
        req.path@,
        HunkFit::Within,
    ));
    law_guards_miss_no_file(diff, 0);
}

/// A click on a hunk is refused where it cannot go through: as one for the whole file where the file
/// is renamed or copied, and as stale where no hunk of the file has to do with the click, or where one
/// reaches beyond it and white space was shown. Where white space was ignored, the diff is made as it
/// was shown, and the click is blamed on what was hidden where a hunk then lies within it.
pub proof fn law_hunk_is_refused_for_cause(
    req: ApplyRequest,
    clicked: HunkRange,
    ignore_ws: bool,
    diff: Seq<ActionDelta>,
)
    requires
        req.hunk == Some(clicked),
    ensures
        ({
            let reversed = req.action() != ApplyAction::Stage;
            let mine = |d: ActionDelta|
                names(d.new_path, req.path@) || names(d.old_path, req.path@);
            let moved = exists|k: int|
                0 <= k < diff.len() && mine(#[trigger] diff[k]) && (diff[k].status == Delta::Renamed
                    || diff[k].status == Delta::Copied);
            let fits = |fit: HunkFit|
                exists|k: int, h: int| #![trigger diff[k].hunks@[h]]
                    0 <= k < diff.len() && mine(diff[k]) && 0 <= h < diff[k].hunks@.len() && fit_of(
                        clicked,
                        diff[k].hunks@[h],
                        reversed,
                    ) == fit;
            let next = step_after(
                req,
                ignore_ws,
                diff,
                Step::MakeDiff { ignore_ws: false },
                Event::Done(Ok(())),
            );
            let again = step_after(
                req,
                ignore_ws,
                diff,
                Step::MakeDiff { ignore_ws: true },
                Event::Done(Ok(())),
            );
            &&& moved ==> next == Next::Finish(Err(ApplyError::RenameNeedsWholeFile))
            &&& req.status == Delta::Copied ==> next == Next::Finish(
                Err(ApplyError::RenameNeedsWholeFile),
            )
            &&& req.status != Delta::Copied && !moved && !fits(HunkFit::Within) && !fits(
                HunkFit::Exceeds,
            ) ==> next == Next::Finish(Err(ApplyError::Stale))
            &&& req.status != Delta::Copied && !moved && !fits(HunkFit::Within) && fits(
                HunkFit::Exceeds,
            ) ==> next == if ignore_ws {
                Next::Do(Step::MakeDiff { ignore_ws: true })
            } else {
                Next::Finish(Err(ApplyError::Stale))
            }
            &&& again == Next::Finish(
                Err(
                    if fits(HunkFit::Within) {
                        ApplyError::HiddenByWhitespace
                    } else {
                        ApplyError::Stale
                    },
                ),
            )
        }),
{
    let reversed = req.action() != ApplyAction::Stage;
    let mine = |d: ActionDelta| names(d.new_path, req.path@) || names(d.old_path, req.path@);
    let moved = exists|k: int|
        0 <= k < diff.len() && mine(#[trigger] diff[k]) && (diff[k].status == Delta::Renamed
            || diff[k].status == Delta::Copied);
    let fits = |fit: HunkFit|
        exists|k: int, h: int| #![trigger diff[k].hunks@[h]]
            0 <= k < diff.len() && mine(diff[k]) && 0 <= h < diff[k].hunks@.len() && fit_of(
                clicked,
                diff[k].hunks@[h],
                reversed,
            ) == fit;
    assert(some_target(diff, req.path@, true) == moved);
    assert(some_fit(diff, clicked, reversed, req.path@, HunkFit::Within) == fits(HunkFit::Within));
    assert(some_fit(diff, clicked, reversed, req.path@, HunkFit::Exceeds) == fits(HunkFit::Exceeds));
}

/// A file is known by its path on either side.
pub proof fn law_file_is_known_by_either_path(d: ActionDelta, path: Vec<u8>)
    ensures
        d.new_path == Some(path) || d.old_path == Some(path) ==> is_target(d, path@),
        is_target(d, path@) ==> (d.new_path is Some && d.new_path->0@ == path@) || (d.old_path is Some
            && d.old_path->0@ == path@),
{
}

/// A whole file is staged and unstaged in few steps. The index is opened; each path, the old one of a
/// rename first, is looked at in the working tree for staging and in the last commit for unstaging;
/// its entry follows what is found there; and the index is written. A path that is there must not have
/// been shown as deleted, and the other way round; the old path of a rename must be gone.
pub proof fn law_index_follows_what_is_found(
    req: ApplyRequest,
    ignore_ws: bool,
    diff: Seq<ActionDelta>,
    side: Side,
    present: bool,
    change: IndexChange,
)
    requires
        req.hunk is None,
        req.action() != ApplyAction::Revert,
    ensures
        step_first(req) == Step::OpenIndex,
        ({
            let stage = req.action() == ApplyAction::Stage;
            let shown_gone = side is Old || req.status == Delta::Deleted;
            let look = |s: Side|
                if stage {
                    Step::LookAt(s)
                } else {
                    Step::LookUpHead(s)
                };
            let after = |last: Step, event: Event| step_after(req, ignore_ws, diff, last, event);
            &&& after(Step::OpenIndex, Event::Done(Ok(()))) == Next::Do(
                look(
                    if req.status == Delta::Renamed && req.old_path is Some {
                        Side::Old
                    } else {
                        Side::New
                    },
                ),
            )
            &&& after(Step::LookAt(side), Event::Seen(Ok(present))) == if present && !shown_gone {
                Next::Do(Step::Change(side, IndexChange::Add))
            } else if !present && shown_gone {
                Next::Do(Step::Change(side, IndexChange::Remove))
            } else {
                Next::Finish(Err(ApplyError::Stale))
            }
            &&& after(Step::LookUpHead(side), Event::Head(Ok(HeadEntry::Blob))) == Next::Do(
                Step::Change(side, IndexChange::Restore),
            )
            &&& after(Step::LookUpHead(side), Event::Head(Ok(HeadEntry::Nothing))) == Next::Do(
                Step::Change(side, IndexChange::Remove),
            )
            &&& after(Step::LookUpHead(side), Event::Head(Ok(HeadEntry::Other))) == Next::Finish(
                Err(ApplyError::Unsupported),
            )
            &&& after(Step::Change(Side::Old, change), Event::Done(Ok(()))) == Next::Do(
                look(Side::New),
            )
            &&& after(Step::Change(Side::New, change), Event::Done(Ok(()))) == Next::Do(
                Step::WriteIndex,
            )
            &&& after(Step::WriteIndex, Event::Written(Ok(()))) == Next::Finish(Ok(()))
        }),
{
}

/// A click on a hunk, and every revert, begins with the diff.
pub proof fn law_hunks_and_reverts_begin_with_the_diff(req: ApplyRequest)
    requires
        req.hunk is Some || req.action() == ApplyAction::Revert,
    ensures
        step_first(req) == (Step::MakeDiff { ignore_ws: false }),
{
}

/// Applying the diff ends the write: well where git took it, but for a click of which no hunk was taken
/// of a file that is neither deleted nor renamed; as stale where it did not fit; and with git's error
/// otherwise.
pub proof fn law_patch_ends_the_write(
    req: ApplyRequest,
    ignore_ws: bool,
    diff: Seq<ActionDelta>,
    location: Location,
    accepted: usize,
    e: GitError,
)
    ensures
        ({
            let after = |event: Event|
                step_after(req, ignore_ws, diff, Step::Patch(location), event);
            let whole = exists|k: int|
                0 <= k < diff.len() && (names((#[trigger] diff[k]).new_path, req.path@) || names(
                    diff[k].old_path,
                    req.path@,
                )) && (diff[k].status == Delta::Deleted || diff[k].status == Delta::Renamed);
            &&& after(Event::Patched(Ok(()), accepted)) == Next::Finish(
                if req.hunk is None || accepted > 0 || whole {
                    Ok(())
                } else {
                    Err(ApplyError::Stale)
                },
            )
            &&& after(Event::Patched(Err(e), accepted)) == Next::Finish(
                Err(
                    if e.code is ApplyFail {
                        ApplyError::Stale
                    } else {
                        ApplyError::Git(e)
                    },
                ),
            )
        }),
{
    let whole = exists|k: int|
        0 <= k < diff.len() && (names((#[trigger] diff[k]).new_path, req.path@) || names(
            diff[k].old_path,
            req.path@,
        )) && (diff[k].status == Delta::Deleted || diff[k].status == Delta::Renamed);
    assert(some_target(diff, req.path@, false) == whole);
}

/// The files that go are looked at one after the other: each that is what the commit left leads to the
/// next one, and the last one to the patch; any other stops the write.
pub proof fn law_guards_lead_to_the_patch(
    req: ApplyRequest,
    ignore_ws: bool,
    diff: Seq<ActionDelta>,
    i: usize,
    k: int,
    here: Oid,
    other: Oid,
)
    requires
        i < diff.len() <= usize::MAX,
        i < k <= diff.len(),
        forall|j: int| i < j < k ==> (#[trigger] diff[j]).status != Delta::Deleted,
        k < diff.len() ==> diff[k].status == Delta::Deleted && diff[k].old_path is Some,
        here != other,
    ensures
        ({
            let after = |content: WorktreeContent, blob: Option<Oid>|
                step_after(
                    req,
                    ignore_ws,
                    diff,
                    Step::Guard(i),
                    Event::Content(Ok(content), blob),
                );
            let on = Next::Do(
                if k < diff.len() {
                    Step::Guard(k as usize)
                } else {
                    Step::Patch(Location::WorkTree)
                },
            );
            let stop = Next::Finish(Err(ApplyError::ChangedSinceCommit));
            &&& after(WorktreeContent::Blob(here), Some(here)) == on
            &&& after(WorktreeContent::Absent, None) == on
            &&& after(WorktreeContent::Blob(here), Some(other)) == stop
            &&& after(WorktreeContent::Blob(here), None) == stop
            &&& after(WorktreeContent::Absent, Some(here)) == stop
            &&& after(WorktreeContent::Other, None) == stop
            &&& after(WorktreeContent::Other, Some(here)) == stop
        }),
{
    law_guards_miss_no_file(diff, i + 1);
    let g = next_deleted(diff, i + 1);
    assert(g == k) by {
        if g < k {
            assert(diff[g].status != Delta::Deleted);
        }
    }
}

/// Binary files are looked at one after the other, then restored one after the other, each once.
pub proof fn law_binary_files_follow_one_another(
    req: ApplyRequest,
    ignore_ws: bool,
    diff: Seq<ActionDelta>,
    i: usize,
)
    requires
        i < diff.len() <= usize::MAX,
    ensures
        step_after(req, ignore_ws, diff, Step::Check(i), Event::Done(Ok(()))) == Next::Do(
            if i + 1 < diff.len() {
                Step::Check((i + 1) as usize)
            } else {
                Step::Restore(0)
            },
        ),
        step_after(req, ignore_ws, diff, Step::Restore(i), Event::Written(Ok(()))) == if i + 1
            < diff.len() {
            Next::Do(Step::Restore((i + 1) as usize))
        } else {
            Next::Finish(Ok(()))
        },
{
}

/// A file is taken for binary by a zero among its first eight thousand bytes, and by no other byte.
pub proof fn law_zero_byte_tells_binary(front: Seq<u8>, rest: Seq<u8>)
    requires
        !front.contains(0),
    ensures
        !looks_binary(front),
        front.len() < 8000 ==> looks_binary(front.push(0) + rest),
        front.len() >= 8000 ==> !looks_binary(front + rest),
{
    let s = front.push(0) + rest;
    assert(s[front.len() as int] == 0);
    if front.len() >= 8000 {
        assert forall|i: int| 0 <= i < (front + rest).len() && i < SNIFF_LEN implies #[trigger] (front
            + rest)[i] != 0 by {
            assert((front + rest)[i] == front[i]);
            assert(front.contains(front[i]));
        }
    }
    assert forall|i: int| 0 <= i < front.len() implies #[trigger] front[i] != 0 by {
        assert(front.contains(front[i]));
    }
}

/// An error ends the write, with that error.
pub proof fn law_error_ends_the_write(
    req: ApplyRequest,
    ignore_ws: bool,
    diff: Seq<ActionDelta>,
    last: Step,
    e: ApplyError,
    g: GitError,
    blob: Option<Oid>,
)
    ensures
        step_after(req, ignore_ws, diff, last, Event::Done(Err(e))) == Next::Finish(Err(e)),
        step_after(req, ignore_ws, diff, last, Event::Seen(Err(e))) == Next::Finish(Err(e)),
        step_after(req, ignore_ws, diff, last, Event::Head(Err(e))) == Next::Finish(Err(e)),
        step_after(req, ignore_ws, diff, last, Event::Content(Err(e), blob)) == Next::Finish(Err(e)),
        step_after(req, ignore_ws, diff, last, Event::Written(Err(g))) == Next::Finish(
            Err(ApplyError::Git(g)),
        ),
{
}

} // verus!
