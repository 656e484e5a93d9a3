//! Reverting a binary file: what the commit's parent has is put back in place of what the commit
//! has, step by step. First everything is looked at; only then is something written.

use vstd::prelude::*;

use crate::apply::request::{ApplyError, GitError};
use crate::apply::write::{
    content_matches, may_overwrite, safe_to_overwrite, same_content, WorktreeContent,
};
use crate::bytes::{opt_bytes, same_bytes};
use crate::diff::data::Delta;
use crate::oid::Oid;

verus! {

/// A changed binary file of a reversed diff: from what the commit has to what its parent has.
pub struct BinaryDelta {
    pub status: Delta,
    /// The path of the file in the commit.
    pub commit_path: Option<Vec<u8>>,
    /// The path of the file in the parent.
    pub parent_path: Option<Vec<u8>>,
    /// Whether the parent has a file at all.
    pub parent_has_file: bool,
    /// Whether the parent's file can be run as a program.
    pub executable: bool,
}

/// What is to be done next.
#[derive(Clone, Copy, Debug)]
pub enum RestoreStep {
    /// Find what stands at the commit's path, and the name of what the commit has there.
    LookAtCommitSide,
    /// Find the name of what the parent has.
    FindParentBlob,
    /// Find what stands at the parent's path.
    LookAtParentSide(Option<Oid>),
    /// Write the parent's file.
    WriteParentSide(Oid),
    /// Read the mode of the file just written.
    ReadMode,
    SetMode(u32),
    /// Remove the file at the commit's path, where there is one.
    RemoveCommitSide,
    /// Remove the file at the parent's path, where there is one.
    RemoveParentSide,
}

/// What came of a step.
pub enum RestoreEvent {
    Done(Result<(), GitError>),
    Content(Result<WorktreeContent, ApplyError>, Option<Oid>),
    Blob(Result<Oid, ApplyError>),
    Mode(Result<u32, GitError>),
}

/// What is to be done next, or how the restoring ended.
pub enum RestoreNext {
    Do(RestoreStep),
    /// Everything has been looked at, and nothing written; the writing begins with that step.
    Ready(RestoreStep),
    /// The file is not restored, and nothing has been written.
    Refused(ApplyError),
    /// The writing has ended.
    Finish(Result<(), GitError>),
}

/// Whether the event is one that can come of the step.
pub open spec fn answers(event: RestoreEvent, step: RestoreStep) -> bool {
    match step {
        RestoreStep::LookAtCommitSide | RestoreStep::LookAtParentSide(_) => event is Content,
        RestoreStep::FindParentBlob => event is Blob,
        RestoreStep::ReadMode => event is Mode,
        _ => event is Done,
    }
}

/// Whether the file has the same path in the commit and in its parent.
pub open spec fn stays_in_place(d: BinaryDelta) -> bool {
    d.commit_path matches Some(c) && d.parent_path matches Some(p) && c@ == p@
}

/// The writing begins by putting in place what the parent has, or taking away what it has not.
pub open spec fn put(blob: Option<Oid>) -> RestoreNext {
    RestoreNext::Ready(
        match blob {
            Some(oid) => RestoreStep::WriteParentSide(oid),
            None => RestoreStep::RemoveParentSide,
        },
    )
}

/// The step once the parent's file is known: another path than the commit's is looked at first.
pub open spec fn put_or_look(d: BinaryDelta, blob: Option<Oid>) -> RestoreNext {
    if stays_in_place(d) {
        put(blob)
    } else {
        RestoreNext::Do(RestoreStep::LookAtParentSide(blob))
    }
}

/// The mode with the right to be run as a program given or taken, and nothing else changed.
pub open spec fn mode_for(mode: u32, executable: bool) -> u32 {
    if executable {
        mode | 0o111
    } else {
        mode & !0o111u32
    }
}

/// What is to be done after a step.
pub open spec fn restore_after(d: BinaryDelta, last: RestoreStep, event: RestoreEvent) -> RestoreNext {
    match (last, event) {
        (_, RestoreEvent::Done(Err(e))) => RestoreNext::Finish(Err(e)),
        (_, RestoreEvent::Content(Err(e), _)) => RestoreNext::Refused(e),
        (_, RestoreEvent::Blob(Err(e))) => RestoreNext::Refused(e),
        (_, RestoreEvent::Mode(Err(e))) => RestoreNext::Finish(Err(e)),
        (RestoreStep::LookAtCommitSide, RestoreEvent::Content(Ok(content), blob)) => {
            if !same_content(content, blob) {
                RestoreNext::Refused(ApplyError::ChangedSinceCommit)
            } else if d.parent_path is None {
                RestoreNext::Refused(ApplyError::Unsupported)
            } else if d.parent_has_file {
                RestoreNext::Do(RestoreStep::FindParentBlob)
            } else {
                put_or_look(d, None)
            }
        },
        (RestoreStep::FindParentBlob, RestoreEvent::Blob(Ok(oid))) => put_or_look(d, Some(oid)),
        (RestoreStep::LookAtParentSide(blob), RestoreEvent::Content(Ok(content), _)) => {
            if may_overwrite(content, blob) {
                put(blob)
            } else {
                RestoreNext::Refused(ApplyError::ChangedSinceCommit)
            }
        },
        (RestoreStep::WriteParentSide(_), _) => RestoreNext::Do(RestoreStep::ReadMode),
        (RestoreStep::ReadMode, RestoreEvent::Mode(Ok(mode))) => RestoreNext::Do(
            RestoreStep::SetMode(mode_for(mode, d.executable)),
        ),
        (RestoreStep::SetMode(_), _) => if d.status == Delta::Renamed && d.commit_path is Some {
            RestoreNext::Do(RestoreStep::RemoveCommitSide)
        } else {
            RestoreNext::Finish(Ok(()))
        },
        (RestoreStep::RemoveCommitSide, _) => RestoreNext::Finish(Ok(())),
        (RestoreStep::RemoveParentSide, _) => RestoreNext::Finish(Ok(())),
        _ => RestoreNext::Refused(ApplyError::Unsupported),
    }
}

fn same_place(d: &BinaryDelta) -> (r: bool)
    ensures
        r == stays_in_place(*d),
{
    match (&d.commit_path, &d.parent_path) {
        (Some(c), Some(p)) => same_bytes(c, p),
        _ => false,
    }
}

fn put_step(blob: Option<Oid>) -> (next: RestoreNext)
    ensures
        next == put(blob),
{
    match blob {
        Some(oid) => RestoreNext::Ready(RestoreStep::WriteParentSide(oid)),
        None => RestoreNext::Ready(RestoreStep::RemoveParentSide),
    }
}

fn put_or_look_step(d: &BinaryDelta, blob: Option<Oid>) -> (next: RestoreNext)
    ensures
        next == put_or_look(*d, blob),
{
    if same_place(d) {
        put_step(blob)
    } else {
        RestoreNext::Do(RestoreStep::LookAtParentSide(blob))
    }
}

/// What is to be done after the step `last`, of which `event` came. The first step is
/// `LookAtCommitSide`.
pub fn restore_binary(d: &BinaryDelta, last: RestoreStep, event: RestoreEvent) -> (next: RestoreNext)
    requires
        answers(event, last),
    ensures
        next == restore_after(*d, last, event),
{
    match event {
        RestoreEvent::Done(Err(e)) => RestoreNext::Finish(Err(e)),
        RestoreEvent::Content(Err(e), _) => RestoreNext::Refused(e),
        RestoreEvent::Blob(Err(e)) => RestoreNext::Refused(e),
        RestoreEvent::Mode(Err(e)) => RestoreNext::Finish(Err(e)),
        RestoreEvent::Content(Ok(content), blob) => match last {
            RestoreStep::LookAtCommitSide => {
                if !content_matches(&content, blob) {
                    RestoreNext::Refused(ApplyError::ChangedSinceCommit)
                } else if d.parent_path.is_none() {
                    RestoreNext::Refused(ApplyError::Unsupported)
                } else if d.parent_has_file {
                    RestoreNext::Do(RestoreStep::FindParentBlob)
                } else {
                    put_or_look_step(d, None)
                }
            },
            RestoreStep::LookAtParentSide(parent) => {
                if safe_to_overwrite(&content, parent) {
                    put_step(parent)
                } else {
                    RestoreNext::Refused(ApplyError::ChangedSinceCommit)
                }
            },
            _ => RestoreNext::Refused(ApplyError::Unsupported),
        },
        RestoreEvent::Blob(Ok(oid)) => put_or_look_step(d, Some(oid)),
        RestoreEvent::Mode(Ok(mode)) => RestoreNext::Do(
            RestoreStep::SetMode(
                if d.executable {
                    mode | 0o111
                } else {
                    mode & !0o111u32
                },
            ),
        ),
        RestoreEvent::Done(Ok(())) => match last {
            RestoreStep::WriteParentSide(_) => RestoreNext::Do(RestoreStep::ReadMode),
            RestoreStep::SetMode(_) => {
                if d.status == Delta::Renamed && d.commit_path.is_some() {
                    RestoreNext::Do(RestoreStep::RemoveCommitSide)
                } else {
                    RestoreNext::Finish(Ok(()))
                }
            },
            RestoreStep::RemoveCommitSide | RestoreStep::RemoveParentSide => RestoreNext::Finish(
                Ok(()),
            ),
            _ => RestoreNext::Refused(ApplyError::Unsupported),
        },
    }
}

/// The path whose file goes when the binary file is restored: its own, where the parent has none, and
/// the one that it was renamed to.
pub open spec fn taken_away(d: BinaryDelta) -> Option<Seq<u8>> {
    if !d.parent_has_file {
        opt_bytes(d.parent_path)
    } else if d.status == Delta::Renamed {
        opt_bytes(d.commit_path)
    } else {
        None
    }
}

/// Whether a path lies below another.
pub open spec fn lies_below(path: Seq<u8>, dir: Seq<u8>) -> bool {
    dir.push(0x2f).is_prefix_of(path)
}

/// Whether restoring the files takes away one below which the path lies.
pub open spec fn room_is_made(earlier: Seq<BinaryDelta>, path: Seq<u8>) -> bool {
    exists|i: int|
        0 <= i < earlier.len() && (taken_away(#[trigger] earlier[i]) matches Some(dir) && lies_below(
            path,
            dir,
        ))
}

fn is_below(path: &[u8], dir: &[u8]) -> (r: bool)
    ensures
        r == lies_below(path@, dir@),
{
    let n: usize = dir.len();
    if path.len() <= n || path[n] != 0x2f {
        assert(dir@.push(0x2f)[n as int] == 0x2f);
        if path.len() > n {
            assert(path@.subrange(0, n + 1)[n as int] == path@[n as int]);
        }
        return false;
    }
    let front = vstd::slice::slice_subrange(path, 0, n);
    let r = same_bytes(front, dir);
    proof {
        let whole = path@.subrange(0, n + 1);
        assert(whole.drop_last() =~= front@);
        assert(dir@.push(0x2f).drop_last() =~= dir@);
        if r {
            assert(dir@.push(0x2f) =~= whole);
        }
    }
    r
}

/// Whether restoring the files that come before takes away one below which the path lies, so that it
/// is not in the way when the path's own file is restored.
pub fn makes_room(earlier: &[BinaryDelta], path: &[u8]) -> (r: bool)
    ensures
        r == room_is_made(earlier@, path@),
{
    let mut i: usize = 0;
    while i < earlier.len()
        invariant
            i <= earlier@.len(),
            forall|k: int|
                0 <= k < i ==> !(taken_away(#[trigger] earlier@[k]) matches Some(dir) && lies_below(
                    path@,
                    dir,
                )),
        decreases earlier.len() - i,
    {
        let d = &earlier[i];
        let dir = if !d.parent_has_file {
            &d.parent_path
        } else {
            match d.status {
                Delta::Renamed => &d.commit_path,
                _ => &None,
            }
        };
        if let Some(dir) = dir {
            if is_below(path, dir) {
                return true;
            }
        }
        i += 1;
    }
    false
}

/// What is counted on to go does go: where the parent has no file, the writing begins by removing the
/// one that is there, and a renamed file is removed once its old path has been written.
pub proof fn law_room_is_made(d: BinaryDelta, last: RestoreStep, event: RestoreEvent)
    requires
        answers(event, last),
    ensures
        !d.parent_has_file && (last is LookAtCommitSide || last == RestoreStep::LookAtParentSide(
            None,
        )) ==> (restore_after(d, last, event) matches RestoreNext::Ready(step)
            ==> step is RemoveParentSide),
        last is SetMode && d.status == Delta::Renamed && d.commit_path is Some && (
        event matches RestoreEvent::Done(done) && done is Ok) ==> restore_after(d, last, event)
            == RestoreNext::Do(RestoreStep::RemoveCommitSide),
{
}

/// Whether the step changes the working tree.
pub open spec fn writes(step: RestoreStep) -> bool {
    match step {
        RestoreStep::WriteParentSide(_) | RestoreStep::SetMode(_) | RestoreStep::RemoveCommitSide
        | RestoreStep::RemoveParentSide => true,
        _ => false,
    }
}

/// The writing begins only where everything that it replaces was looked at: the file at the commit's
/// path holds what the commit has, and another path for the parent's file is free or holds that file
/// already.
pub proof fn law_restore_looks_first(
    d: BinaryDelta,
    last: RestoreStep,
    event: RestoreEvent,
    step: RestoreStep,
)
    requires
        answers(event, last),
        restore_after(d, last, event) == RestoreNext::Ready(step),
    ensures
        writes(step),
        match last {
            RestoreStep::LookAtCommitSide => event matches RestoreEvent::Content(Ok(content), blob)
                && same_content(content, blob) && stays_in_place(d) && !d.parent_has_file,
            RestoreStep::FindParentBlob => stays_in_place(d),
            RestoreStep::LookAtParentSide(blob) => event matches RestoreEvent::Content(Ok(content), _)
                && may_overwrite(content, blob),
            _ => false,
        },
{
}

/// While the file is looked at, nothing is written; and once the writing has begun, it goes on to its
/// end, without a refusal and without another look.
pub proof fn law_refusal_precedes_writing(d: BinaryDelta, last: RestoreStep, event: RestoreEvent)
    requires
        answers(event, last),
    ensures
        ({
            let next = restore_after(d, last, event);
            if writes(last) || last is ReadMode {
                next is Finish || (next matches RestoreNext::Do(step) && (writes(step)
                    || step is ReadMode))
            } else {
                next is Refused || next is Ready || (next matches RestoreNext::Do(step) && !writes(
                    step,
                ) && step !is ReadMode)
            }
        }),
{
}

/// The parent's file is looked for, and its path looked at, only where the file at the commit's path
/// holds what the commit has.
pub proof fn law_commit_side_comes_first(
    d: BinaryDelta,
    last: RestoreStep,
    event: RestoreEvent,
    step: RestoreStep,
)
    requires
        answers(event, last),
        restore_after(d, last, event) == RestoreNext::Do(step),
        step is FindParentBlob || step is LookAtParentSide && last !is FindParentBlob,
    ensures
        last is LookAtCommitSide,
        event matches RestoreEvent::Content(Ok(content), blob) && same_content(content, blob),
{
}

/// The file at the commit's path is removed for a rename alone: what a copy was made from stays.
pub proof fn law_copy_source_stays(d: BinaryDelta, last: RestoreStep, event: RestoreEvent)
    requires
        answers(event, last),
        restore_after(d, last, event) matches RestoreNext::Do(step) && step is RemoveCommitSide,
    ensures
        d.status == Delta::Renamed,
        last is SetMode,
{
}

/// Giving or taking the right to be run changes none of the other rights.
pub proof fn law_mode_keeps_other_rights(mode: u32, executable: bool)
    ensures
        mode_for(mode, executable) & !0o111u32 == mode & !0o111u32,
        mode_for(mode, executable) & 0o111 == if executable {
            0o111u32
        } else {
            0u32
        },
{
    assert((mode | 0o111) & !0o111u32 == mode & !0o111u32) by (bit_vector);
    assert((mode & !0o111u32) & !0o111u32 == mode & !0o111u32) by (bit_vector);
    assert((mode | 0o111) & 0o111 == 0o111u32) by (bit_vector);
    assert((mode & !0o111u32) & 0o111 == 0u32) by (bit_vector);
}

/// Restoring goes through where it can: a file that is what the commit left, or gone as the commit left
/// it, goes on to the parent's file, whose place is free or holds that file; and anything else stops
/// it before something is written.
pub proof fn law_restore_goes_through(
    d: BinaryDelta,
    commit: Vec<u8>,
    parent: Vec<u8>,
    here: Oid,
    other: Oid,
    found: Oid,
)
    requires
        d.commit_path == Some(commit),
        d.parent_path == Some(parent),
        here != other,
    ensures
        ({
            let same = commit@ == parent@;
            let gone = |next: RestoreNext|
                if same {
                    next == RestoreNext::Ready(RestoreStep::RemoveParentSide)
                } else {
                    next == RestoreNext::Do(RestoreStep::LookAtParentSide(None))
                };
            let kept = restore_after(
                d,
                RestoreStep::LookAtCommitSide,
                RestoreEvent::Content(Ok(WorktreeContent::Blob(here)), Some(here)),
            );
            let absent = restore_after(
                d,
                RestoreStep::LookAtCommitSide,
                RestoreEvent::Content(Ok(WorktreeContent::Absent), None),
            );
            &&& d.parent_has_file ==> kept == RestoreNext::Do(RestoreStep::FindParentBlob) && absent
                == RestoreNext::Do(RestoreStep::FindParentBlob)
            &&& !d.parent_has_file ==> gone(kept) && gone(absent)
            &&& restore_after(
                d,
                RestoreStep::FindParentBlob,
                RestoreEvent::Blob(Ok(found)),
            ) == if same {
                RestoreNext::Ready(RestoreStep::WriteParentSide(found))
            } else {
                RestoreNext::Do(RestoreStep::LookAtParentSide(Some(found)))
            }
        }),
        forall|content: WorktreeContent, blob: Option<Oid>|
            (content is Other || (content is Absent && blob is Some) || (content is Blob
                && blob is None) || (content == WorktreeContent::Blob(here) && blob == Some(other)))
                ==> #[trigger] restore_after(
                d,
                RestoreStep::LookAtCommitSide,
                RestoreEvent::Content(Ok(content), blob),
            ) == RestoreNext::Refused(ApplyError::ChangedSinceCommit),
{
}

/// The parent's file is put where nothing stands, or where it stands already, and nowhere else; where
/// the parent has none, nothing may stand there.
pub proof fn law_parent_side_is_free_or_the_same(
    d: BinaryDelta,
    blob: Option<Oid>,
    content: WorktreeContent,
    seen: Option<Oid>,
)
    ensures
        ({
            let next = restore_after(
                d,
                RestoreStep::LookAtParentSide(blob),
                RestoreEvent::Content(Ok(content), seen),
            );
            if content is Absent || (content matches WorktreeContent::Blob(x) && blob == Some(x)) {
                match blob {
                    Some(oid) => next == RestoreNext::Ready(RestoreStep::WriteParentSide(oid)),
                    None => next == RestoreNext::Ready(RestoreStep::RemoveParentSide),
                }
            } else {
                next == RestoreNext::Refused(ApplyError::ChangedSinceCommit)
            }
        }),
{
}

/// Once the parent's file is written its mode is read and set, with the right to be run as the parent
/// has it; then the commit's path is cleared for a rename, and for nothing else; and that is the end.
pub proof fn law_writing_runs_to_its_end(d: BinaryDelta, oid: Oid, mode: u32)
    ensures
        restore_after(d, RestoreStep::WriteParentSide(oid), RestoreEvent::Done(Ok(())))
            == RestoreNext::Do(RestoreStep::ReadMode),
        restore_after(d, RestoreStep::ReadMode, RestoreEvent::Mode(Ok(mode))) matches RestoreNext::Do(
            step,
        ) && (step matches RestoreStep::SetMode(set) && set == if d.executable {
            mode | 0o111
        } else {
            mode & !0o111u32
        }),
        restore_after(d, RestoreStep::SetMode(mode), RestoreEvent::Done(Ok(()))) == if d.status
            == Delta::Renamed && d.commit_path is Some {
            RestoreNext::Do(RestoreStep::RemoveCommitSide)
        } else {
            RestoreNext::Finish(Ok(()))
        },
        restore_after(d, RestoreStep::RemoveCommitSide, RestoreEvent::Done(Ok(())))
            == RestoreNext::Finish(Ok(())),
        restore_after(d, RestoreStep::RemoveParentSide, RestoreEvent::Done(Ok(())))
            == RestoreNext::Finish(Ok(())),
{
}

/// A file is in the way of the paths below it, and of no others: room is made for a path exactly where
/// a file goes whose path and a slash the path starts with. That is the file of a path that the parent
/// does not have, and the one to which a file was renamed.
pub proof fn law_room_is_made_below_what_goes(earlier: Seq<BinaryDelta>, path: Seq<u8>)
    ensures
        room_is_made(earlier, path) <==> exists|i: int, dir: Vec<u8>|
            #![trigger earlier[i], dir@]
            0 <= i < earlier.len() && (if earlier[i].parent_has_file {
                earlier[i].status == Delta::Renamed && earlier[i].commit_path == Some(dir)
            } else {
                earlier[i].parent_path == Some(dir)
            }) && dir@.len() < path.len() && path[dir@.len() as int] == 0x2f && path.take(
                dir@.len() as int,
            ) == dir@,
{
    if room_is_made(earlier, path) {
        let i = choose|i: int|
            0 <= i < earlier.len() && (taken_away(#[trigger] earlier[i]) matches Some(dir)
                && lies_below(path, dir));
        let dir = if earlier[i].parent_has_file {
            earlier[i].commit_path->0
        } else {
            earlier[i].parent_path->0
        };
        let n = dir@.len() as int;
        let front = dir@.push(0x2f);
        assert(path.subrange(0, front.len() as int)[n] == front[n]);
        assert(path.take(n) =~= dir@) by {
            assert(path.subrange(0, front.len() as int).take(n) =~= path.take(n));
            assert(front.take(n) =~= dir@);
        }
        assert(0 <= i < earlier.len() && dir@.len() < path.len());
    }
    if exists|i: int, dir: Vec<u8>|
        #![trigger earlier[i], dir@]
        0 <= i < earlier.len() && (if earlier[i].parent_has_file {
            earlier[i].status == Delta::Renamed && earlier[i].commit_path == Some(dir)
        } else {
            earlier[i].parent_path == Some(dir)
        }) && dir@.len() < path.len() && path[dir@.len() as int] == 0x2f && path.take(
            dir@.len() as int,
        ) == dir@ {
        let (i, dir) = choose|i: int, dir: Vec<u8>|
            #![trigger earlier[i], dir@]
            0 <= i < earlier.len() && (if earlier[i].parent_has_file {
                earlier[i].status == Delta::Renamed && earlier[i].commit_path == Some(dir)
            } else {
                earlier[i].parent_path == Some(dir)
            }) && dir@.len() < path.len() && path[dir@.len() as int] == 0x2f && path.take(
                dir@.len() as int,
            ) == dir@;
        let n = dir@.len() as int;
        assert(path.subrange(0, n + 1) =~= path.take(n).push(path[n]));
        assert(taken_away(earlier[i]) == Some(dir@));
        assert(lies_below(path, dir@));
    }
}

} // verus!
