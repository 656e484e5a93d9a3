//! The steps of a write, for events that are given.

use gitkay::apply::request::{ApplyError, ApplyRequest, GitCode, GitError};
use gitkay::apply::restore::{
    makes_room, restore_binary, BinaryDelta, RestoreEvent, RestoreNext, RestoreStep,
};
use gitkay::apply::write::{
    action_diff_opts, apply_request, best_hunk_fit, bypasses_hunk_callback,
    content_before_restore, content_matches, delta_is_binary, delta_is_target, entry_mode,
    first_step, hashed_content, head_tree_for_write, refuse_unwritable_modes, safe_to_overwrite,
    stage_file, stands_there, takes_delta, takes_hunk, unstage_file, worktree_content, ActionDelta, Event,
    FileMode, HeadEntry, IndexChange, Location, Next, PathStat, Side, Step, WorktreeContent,
    SNIFF_LEN,
};
use gitkay::apply::fit::HunkFit;
use gitkay::diff::data::{Delta, DiffSettings};
use gitkay::diff::hunk::HunkRange;
use gitkay::diff::row::{oid_staged, oid_uncommitted};
use gitkay::oid::Oid;

fn oid(b: u8) -> Oid {
    Oid::from_bytes([b; 20])
}

fn request(row: Oid, status: Delta, old: Option<&str>, hunk: Option<HunkRange>) -> ApplyRequest {
    ApplyRequest {
        oid: row,
        path: b"new".to_vec(),
        old_path: old.map(|p| p.as_bytes().to_vec()),
        status,
        hunk,
    }
}

fn hunk(start: u32, lines: u32) -> HunkRange {
    HunkRange { old_start: start, old_lines: lines, new_start: start, new_lines: lines }
}

fn delta(status: Delta, old: Option<&str>, new: Option<&str>, hunks: Vec<HunkRange>) -> ActionDelta {
    ActionDelta {
        status,
        old_path: old.map(|p| p.as_bytes().to_vec()),
        new_path: new.map(|p| p.as_bytes().to_vec()),
        old_mode: FileMode::File,
        new_mode: FileMode::File,
        is_binary: false,
        hunks,
    }
}

/// Runs a write; `event` says what comes of each step.
fn run(
    req: &ApplyRequest,
    ignore_ws: bool,
    diff: &[ActionDelta],
    event: &dyn Fn(Step) -> Event,
) -> (Vec<Step>, Result<(), ApplyError>) {
    let mut steps = Vec::new();
    let mut step = first_step(req);
    loop {
        steps.push(step);
        match apply_request(req, ignore_ws, diff, step, event(step)) {
            Next::Do(next) => step = next,
            Next::Finish(end) => return (steps, end),
        }
    }
}

#[test]
fn a_rename_is_staged_at_both_paths_before_the_index_is_written() {
    let req = request(oid_uncommitted(), Delta::Renamed, Some("old"), None);
    let (steps, end) = run(&req, false, &[], &|step| match step {
        Step::LookAt(side) => Event::Seen(Ok(side == Side::New)),
        Step::WriteIndex => Event::Written(Ok(())),
        _ => Event::Done(Ok(())),
    });
    assert_eq!(
        steps,
        vec![
            Step::OpenIndex,
            Step::LookAt(Side::Old),
            Step::Change(Side::Old, IndexChange::Remove),
            Step::LookAt(Side::New),
            Step::Change(Side::New, IndexChange::Add),
            Step::WriteIndex,
        ]
    );
    assert!(end.is_ok());
}

#[test]
fn a_copy_is_staged_without_what_it_was_copied_from() {
    let req = request(oid_uncommitted(), Delta::Copied, Some("old"), None);
    assert!(req.rename_source().is_none());
    let (steps, end) = run(&req, false, &[], &|step| match step {
        Step::LookAt(_) => Event::Seen(Ok(true)),
        Step::WriteIndex => Event::Written(Ok(())),
        _ => Event::Done(Ok(())),
    });
    assert_eq!(
        steps,
        vec![
            Step::OpenIndex,
            Step::LookAt(Side::New),
            Step::Change(Side::New, IndexChange::Add),
            Step::WriteIndex,
        ]
    );
    assert!(end.is_ok());
}

#[test]
fn what_the_index_refuses_is_never_written() {
    let req = request(oid_staged(), Delta::Renamed, Some("old"), None);
    let (steps, end) = run(&req, false, &[], &|step| match step {
        Step::LookUpHead(Side::Old) => Event::Head(Ok(HeadEntry::Blob)),
        Step::LookUpHead(Side::New) => Event::Head(Ok(HeadEntry::Other)),
        _ => Event::Done(Ok(())),
    });
    assert_eq!(
        steps,
        vec![
            Step::OpenIndex,
            Step::LookUpHead(Side::Old),
            Step::Change(Side::Old, IndexChange::Restore),
            Step::LookUpHead(Side::New),
        ]
    );
    assert!(matches!(end, Err(ApplyError::Unsupported)));
}

#[test]
fn an_error_ends_the_write() {
    let req = request(oid_uncommitted(), Delta::Modified, None, None);
    let failed = || {
        ApplyError::Git(GitError { code: GitCode::Other, message: "no".to_owned() })
    };
    let (steps, end) = run(&req, false, &[], &|step| match step {
        Step::LookAt(_) => Event::Seen(Err(failed())),
        _ => Event::Done(Ok(())),
    });
    assert_eq!(steps, vec![Step::OpenIndex, Step::LookAt(Side::New)]);
    assert!(matches!(end, Err(ApplyError::Git(_))));
}

#[test]
fn every_file_that_goes_is_looked_at_before_a_revert() {
    let req = request(oid(1), Delta::Modified, None, None);
    let diff = [
        delta(Delta::Deleted, Some("a"), None, vec![]),
        delta(Delta::Modified, Some("b"), Some("b"), vec![]),
        delta(Delta::Deleted, Some("c"), None, vec![]),
    ];
    let look = |second: WorktreeContent| {
        run(&req, false, &diff, &|step| match step {
            Step::Guard(0) => Event::Content(Ok(WorktreeContent::Blob(oid(7))), Some(oid(7))),
            Step::Guard(_) => Event::Content(Ok(second), Some(oid(8))),
            Step::Patch(_) => Event::Patched(Ok(()), 0),
            _ => Event::Done(Ok(())),
        })
    };
    let (steps, end) = look(WorktreeContent::Blob(oid(8)));
    assert_eq!(
        steps,
        vec![
            Step::MakeDiff { ignore_ws: false },
            Step::Guard(0),
            Step::Guard(2),
            Step::Patch(Location::WorkTree),
        ]
    );
    assert!(end.is_ok());
    let (steps, end) = look(WorktreeContent::Blob(oid(9)));
    assert_eq!(*steps.last().unwrap(), Step::Guard(2));
    assert!(matches!(end, Err(ApplyError::ChangedSinceCommit)));
}

#[test]
fn a_revert_takes_text_or_binary_files_and_no_mixture() {
    let req = request(oid(1), Delta::Modified, None, None);
    let text = || delta(Delta::Modified, Some("a"), Some("a"), vec![]);
    let binary = || ActionDelta { is_binary: true, ..text() };
    let done = |step| match step {
        Step::Patch(_) => Event::Patched(Ok(()), 0),
        Step::Restore(_) => Event::Written(Ok(())),
        _ => Event::Done(Ok(())),
    };
    let (steps, end) = run(&req, false, &[binary(), binary()], &done);
    assert_eq!(
        steps[1..],
        [Step::Check(0), Step::Check(1), Step::Restore(0), Step::Restore(1)]
    );
    assert!(end.is_ok());
    // The second file is refused before the first is restored.
    let (steps, end) = run(&req, false, &[binary(), binary()], &|step| match step {
        Step::Check(1) => Event::Done(Err(ApplyError::ChangedSinceCommit)),
        other => done(other),
    });
    assert_eq!(steps[1..], [Step::Check(0), Step::Check(1)]);
    assert!(matches!(end, Err(ApplyError::ChangedSinceCommit)));
    let (steps, end) = run(&req, false, &[binary(), text()], &done);
    assert_eq!(steps.len(), 1);
    assert!(matches!(end, Err(ApplyError::Unsupported)));
    let (_, end) = run(&req, false, &[], &done);
    assert!(matches!(end, Err(ApplyError::Stale)));
    let link = ActionDelta { new_mode: FileMode::Link, ..text() };
    let (_, end) = run(&req, false, &[link], &done);
    assert!(matches!(end, Err(ApplyError::Unsupported)));
    let pathless = delta(Delta::Deleted, None, None, vec![]);
    let (_, end) = run(&req, false, &[pathless], &done);
    assert!(matches!(end, Err(ApplyError::Unsupported)));
}

#[test]
fn a_hunk_beyond_the_click_is_blamed_on_what_hid_it() {
    let req = request(oid_uncommitted(), Delta::Modified, None, Some(hunk(7, 7)));
    let wide = [delta(Delta::Modified, Some("new"), Some("new"), vec![hunk(7, 19)])];
    let (steps, end) = run(&req, false, &wide, &|_| Event::Done(Ok(())));
    assert_eq!(steps.len(), 1);
    assert!(matches!(end, Err(ApplyError::Stale)));
    // With white space ignored the diff is made as it was shown.
    let next = apply_request(
        &req,
        true,
        &wide,
        Step::MakeDiff { ignore_ws: false },
        Event::Done(Ok(())),
    );
    assert!(matches!(next, Next::Do(Step::MakeDiff { ignore_ws: true })));
    let shown = [delta(Delta::Modified, Some("new"), Some("new"), vec![hunk(7, 7)])];
    let again = Step::MakeDiff { ignore_ws: true };
    assert!(matches!(
        apply_request(&req, true, &shown, again, Event::Done(Ok(()))),
        Next::Finish(Err(ApplyError::HiddenByWhitespace))
    ));
    assert!(matches!(
        apply_request(&req, true, &wide, again, Event::Done(Ok(()))),
        Next::Finish(Err(ApplyError::Stale))
    ));
}

#[test]
fn a_click_that_took_no_hunk_did_nothing() {
    let req = request(oid_uncommitted(), Delta::Modified, None, Some(hunk(7, 7)));
    let diff = [delta(Delta::Modified, Some("new"), Some("new"), vec![hunk(7, 7)])];
    let patched = |outcome: Result<(), GitError>, taken: usize| {
        let patch = Step::Patch(Location::Index);
        apply_request(&req, false, &diff, patch, Event::Patched(outcome, taken))
    };
    let error = |code| Err(GitError { code, message: String::new() });
    assert!(matches!(patched(Ok(()), 1), Next::Finish(Ok(()))));
    assert!(matches!(patched(Ok(()), 0), Next::Finish(Err(ApplyError::Stale))));
    assert!(matches!(
        patched(error(GitCode::ApplyFail), 0),
        Next::Finish(Err(ApplyError::Stale))
    ));
    assert!(matches!(
        patched(error(GitCode::Other), 0),
        Next::Finish(Err(ApplyError::Git(_)))
    ));
    // A deleted file is applied without its hunks being asked for.
    let gone = [delta(Delta::Deleted, Some("new"), None, vec![hunk(7, 7)])];
    assert!(bypasses_hunk_callback(&gone, b"new"));
    assert!(!bypasses_hunk_callback(&gone, b"other"));
    assert!(matches!(
        apply_request(
            &req,
            false,
            &gone,
            Step::Patch(Location::Index),
            Event::Patched(Ok(()), 0)
        ),
        Next::Finish(Ok(()))
    ));
}

#[test]
fn a_hunk_of_a_file_that_comes_from_another_is_refused() {
    for now in [Delta::Renamed, Delta::Copied] {
        let diff = [delta(now, Some("old"), Some("new"), vec![hunk(7, 7)])];
        for shown in [Delta::Modified, Delta::Renamed, Delta::Copied] {
            let req = request(oid_uncommitted(), shown, Some("old"), Some(hunk(7, 7)));
            let (steps, end) = run(&req, false, &diff, &|_| Event::Done(Ok(())));
            assert_eq!(steps.len(), 1);
            assert!(matches!(end, Err(ApplyError::RenameNeedsWholeFile)));
        }
    }
}

#[test]
fn a_hunk_is_staged_in_the_index_and_reverted_in_the_working_tree() {
    let diff = [delta(Delta::Modified, Some("new"), Some("new"), vec![hunk(7, 7)])];
    for (row, place) in [
        (oid_uncommitted(), Location::Index),
        (oid_staged(), Location::Index),
        (oid(1), Location::WorkTree),
    ] {
        let req = request(row, Delta::Modified, None, Some(hunk(7, 7)));
        let (steps, end) = run(&req, false, &diff, &|step| match step {
            Step::Patch(_) => Event::Patched(Ok(()), 1),
            _ => Event::Done(Ok(())),
        });
        assert_eq!(steps[1..], [Step::Patch(place)]);
        assert!(end.is_ok());
        assert!(takes_delta(&req, &diff[0]));
        assert!(!takes_delta(&req, &delta(Delta::Modified, Some("x"), Some("x"), vec![])));
        assert!(takes_hunk(&req, &hunk(7, 7)));
        assert!(!takes_hunk(&req, &hunk(7, 8)));
        let whole = request(row, Delta::Modified, None, None);
        assert!(takes_hunk(&whole, &hunk(7, 8)));
    }
}

#[test]
fn the_best_hunk_of_the_clicked_file_counts() {
    let diff = [
        delta(Delta::Modified, Some("other"), Some("other"), vec![hunk(7, 7)]),
        delta(Delta::Renamed, Some("old"), Some("new"), vec![hunk(1, 2), hunk(7, 19)]),
    ];
    assert!(delta_is_target(&diff[1], b"new") && delta_is_target(&diff[1], b"old"));
    assert_eq!(best_hunk_fit(&diff, &hunk(7, 7), false, b"new"), HunkFit::Exceeds);
    assert_eq!(best_hunk_fit(&diff, &hunk(1, 2), false, b"new"), HunkFit::Within);
    assert_eq!(best_hunk_fit(&diff, &hunk(90, 2), false, b"new"), HunkFit::Disjoint);
    assert_eq!(best_hunk_fit(&diff, &hunk(7, 7), false, b"nowhere"), HunkFit::Disjoint);
    assert!(refuse_unwritable_modes(&diff).is_ok());
}

#[test]
fn what_is_asked_for_has_to_be_what_was_shown() {
    assert!(matches!(stage_file(true, false), Ok(IndexChange::Add)));
    assert!(matches!(stage_file(false, true), Ok(IndexChange::Remove)));
    assert!(matches!(stage_file(true, true), Err(ApplyError::Stale)));
    assert!(matches!(stage_file(false, false), Err(ApplyError::Stale)));
    assert!(matches!(unstage_file(HeadEntry::Blob), Ok(IndexChange::Restore)));
    assert!(matches!(unstage_file(HeadEntry::Nothing), Ok(IndexChange::Remove)));
    assert!(matches!(unstage_file(HeadEntry::Other), Err(ApplyError::Unsupported)));
}

#[test]
fn content_is_the_same_file_or_none() {
    let here = WorktreeContent::Blob(oid(1));
    assert!(content_matches(&here, Some(oid(1))));
    assert!(!content_matches(&here, Some(oid(2))));
    assert!(!content_matches(&here, None));
    assert!(content_matches(&WorktreeContent::Absent, None));
    assert!(!content_matches(&WorktreeContent::Other, None));
    assert!(safe_to_overwrite(&WorktreeContent::Absent, Some(oid(1))));
    assert!(safe_to_overwrite(&here, Some(oid(1))));
    assert!(!safe_to_overwrite(&here, None));
    assert!(!safe_to_overwrite(&WorktreeContent::Other, Some(oid(1))));
}

#[test]
fn a_zero_byte_near_the_front_makes_a_file_binary() {
    let mut late = vec![b'x'; SNIFF_LEN];
    late.push(0);
    assert!(!delta_is_binary(false, Some(&late), None));
    late[SNIFF_LEN - 1] = 0;
    assert!(delta_is_binary(false, Some(&late), None));
    assert!(delta_is_binary(false, Some(b"text"), Some(b"\0")));
    assert!(delta_is_binary(true, None, None));
    assert!(!delta_is_binary(false, None, None));
}

#[test]
fn only_an_unborn_branch_has_no_tree() {
    let error = |code| GitError { code, message: "m".to_owned() };
    assert!(matches!(head_tree_for_write(Ok(())), Ok(true)));
    assert!(matches!(head_tree_for_write(Err(error(GitCode::UnbornBranch))), Ok(false)));
    assert!(matches!(
        head_tree_for_write(Err(error(GitCode::NotFound))),
        Err(ApplyError::Git(_))
    ));
    assert!(matches!(worktree_content(PathStat::Missing), Ok(Some(WorktreeContent::Absent))));
    assert!(matches!(worktree_content(PathStat::Other), Ok(Some(WorktreeContent::Other))));
    assert!(matches!(worktree_content(PathStat::File), Ok(None)));
    assert!(worktree_content(PathStat::Failed(error(GitCode::Other))).is_err());
    assert!(worktree_content(PathStat::Blocked(error(GitCode::Other))).is_err());
    assert!(matches!(
        content_before_restore(PathStat::Blocked(error(GitCode::Other)), true),
        Ok(Some(WorktreeContent::Absent))
    ));
    assert!(matches!(
        content_before_restore(PathStat::Blocked(error(GitCode::Other)), false),
        Err(ApplyError::Git(_))
    ));
    assert!(matches!(content_before_restore(PathStat::File, true), Ok(None)));
    assert!(content_before_restore(PathStat::Failed(error(GitCode::Other)), true).is_err());
    assert!(matches!(stands_there(PathStat::Missing), Ok(false)));
    assert!(matches!(stands_there(PathStat::File), Ok(true)));
    assert!(matches!(stands_there(PathStat::Other), Ok(true)));
    assert!(stands_there(PathStat::Blocked(error(GitCode::Other))).is_err());
    assert!(stands_there(PathStat::Failed(error(GitCode::Other))).is_err());
    assert!(matches!(hashed_content(Ok(oid(3))), Ok(WorktreeContent::Blob(o)) if o == oid(3)));
    assert!(matches!(
        hashed_content(Err(error(GitCode::NotFound))),
        Ok(WorktreeContent::Absent)
    ));
    assert!(hashed_content(Err(error(GitCode::Other))).is_err());
    assert_eq!(entry_mode(0o100_755), 0o100_755);
    assert_eq!(entry_mode(-1), 0o100_644);
}

#[test]
fn the_diff_to_apply_names_its_paths_literally() {
    let settings = DiffSettings {
        context: 5,
        ignore_ws: true,
        show_stats: true,
        detect_renames: true,
        detect_copies: true,
    };
    let stage = request(oid_uncommitted(), Delta::Renamed, Some("old"), None);
    let opts = action_diff_opts(&stage, settings, false);
    assert_eq!(opts.context_lines, Some(5));
    assert!(!opts.ignore_whitespace && !opts.reverse && opts.literal_paths);
    assert_eq!(opts.pathspecs, vec![b"new".to_vec(), b"old".to_vec()]);
    let revert = request(oid(1), Delta::Copied, Some("old"), None);
    let opts = action_diff_opts(&revert, settings, true);
    assert!(opts.ignore_whitespace && opts.reverse);
    assert_eq!(opts.pathspecs, vec![b"new".to_vec()]);
}

/// Runs the restoring of a binary file.
fn restore(
    d: &BinaryDelta,
    event: &dyn Fn(RestoreStep) -> RestoreEvent,
) -> (Vec<String>, Result<(), ApplyError>) {
    let mut steps = Vec::new();
    let mut step = RestoreStep::LookAtCommitSide;
    loop {
        steps.push(match step {
            RestoreStep::SetMode(m) => format!("SetMode({m:o})"),
            RestoreStep::LookAtCommitSide => "LookAtCommitSide".to_owned(),
            RestoreStep::FindParentBlob => "FindParentBlob".to_owned(),
            RestoreStep::LookAtParentSide(b) => format!("LookAtParentSide({})", b.is_some()),
            RestoreStep::WriteParentSide(_) => "WriteParentSide".to_owned(),
            RestoreStep::ReadMode => "ReadMode".to_owned(),
            RestoreStep::RemoveCommitSide => "RemoveCommitSide".to_owned(),
            RestoreStep::RemoveParentSide => "RemoveParentSide".to_owned(),
        });
        match restore_binary(d, step, event(step)) {
            RestoreNext::Do(next) | RestoreNext::Ready(next) => step = next,
            RestoreNext::Refused(e) => return (steps, Err(e)),
            RestoreNext::Finish(end) => return (steps, end.map_err(ApplyError::Git)),
        }
    }
}

fn binary(status: Delta, commit: &str, parent: Option<&str>, has_file: bool) -> BinaryDelta {
    BinaryDelta {
        status,
        commit_path: Some(commit.as_bytes().to_vec()),
        parent_path: parent.map(|p| p.as_bytes().to_vec()),
        parent_has_file: has_file,
        executable: true,
    }
}

fn at_ease(step: RestoreStep) -> RestoreEvent {
    match step {
        RestoreStep::LookAtCommitSide => {
            RestoreEvent::Content(Ok(WorktreeContent::Blob(oid(1))), Some(oid(1)))
        }
        RestoreStep::LookAtParentSide(_) => RestoreEvent::Content(Ok(WorktreeContent::Absent), None),
        RestoreStep::FindParentBlob => RestoreEvent::Blob(Ok(oid(2))),
        RestoreStep::ReadMode => RestoreEvent::Mode(Ok(0o100_640)),
        _ => RestoreEvent::Done(Ok(())),
    }
}

#[test]
fn a_binary_rename_is_undone_path_by_path() {
    let d = binary(Delta::Renamed, "b", Some("a"), true);
    let (steps, end) = restore(&d, &at_ease);
    assert_eq!(
        steps,
        vec![
            "LookAtCommitSide",
            "FindParentBlob",
            "LookAtParentSide(true)",
            "WriteParentSide",
            "ReadMode",
            "SetMode(100751)",
            "RemoveCommitSide",
        ]
    );
    assert!(end.is_ok());
    // What a copy was made from stays.
    let d = binary(Delta::Copied, "b", Some("a"), true);
    let (steps, _) = restore(&d, &at_ease);
    assert_eq!(*steps.last().unwrap(), "SetMode(100751)");
}

#[test]
fn room_is_made_by_files_that_go_before() {
    let goes = binary(Delta::Deleted, "d", Some("d"), false);
    assert!(makes_room(&[goes], b"d/x"));
    let goes = binary(Delta::Deleted, "d", Some("d"), false);
    assert!(!makes_room(&[goes], b"dd/x"));
    assert!(!makes_room(&[binary(Delta::Deleted, "d", Some("d"), false)], b"d"));
    assert!(!makes_room(&[binary(Delta::Modified, "d", Some("d"), true)], b"d/x"));
    assert!(makes_room(&[binary(Delta::Renamed, "d", Some("e"), true)], b"d/x"));
    assert!(!makes_room(&[binary(Delta::Renamed, "d", Some("e"), true)], b"e/x"));
    assert!(!makes_room(&[], b"d/x"));
}

#[test]
fn a_binary_file_in_place_is_written_over_and_an_added_one_removed() {
    let d = BinaryDelta { executable: false, ..binary(Delta::Modified, "a", Some("a"), true) };
    let (steps, end) = restore(&d, &at_ease);
    assert_eq!(
        steps,
        vec!["LookAtCommitSide", "FindParentBlob", "WriteParentSide", "ReadMode", "SetMode(100640)"]
    );
    assert!(end.is_ok());
    let d = binary(Delta::Deleted, "a", Some("a"), false);
    let (steps, end) = restore(&d, &at_ease);
    assert_eq!(steps, vec!["LookAtCommitSide", "RemoveParentSide"]);
    assert!(end.is_ok());
}

#[test]
fn a_binary_file_that_changed_is_left_alone() {
    let d = binary(Delta::Modified, "a", Some("a"), true);
    let (steps, end) = restore(&d, &|_| {
        RestoreEvent::Content(Ok(WorktreeContent::Blob(oid(9))), Some(oid(1)))
    });
    assert_eq!(steps.len(), 1);
    assert!(matches!(end, Err(ApplyError::ChangedSinceCommit)));
    // Another file in the way of the parent's.
    let d = binary(Delta::Renamed, "b", Some("a"), true);
    let (steps, end) = restore(&d, &|step| match step {
        RestoreStep::LookAtParentSide(_) => {
            RestoreEvent::Content(Ok(WorktreeContent::Blob(oid(9))), None)
        }
        other => at_ease(other),
    });
    assert_eq!(*steps.last().unwrap(), "LookAtParentSide(true)");
    assert!(matches!(end, Err(ApplyError::ChangedSinceCommit)));
    let d = binary(Delta::Modified, "a", None, true);
    let (_, end) = restore(&d, &at_ease);
    assert!(matches!(end, Err(ApplyError::Unsupported)));
}
