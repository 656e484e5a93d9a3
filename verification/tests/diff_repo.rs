//! The diffs of a repository, as they are shown.

use std::io::Write;
use std::path::{Path, PathBuf};

use git2::Repository;
use gitkay::diff::anchor::{anchor_hint, capture_anchor, resolve_anchor, DiffAnchor};
use gitkay::diff::content::{
    commit_stats as stats_of, get_diff_data as shown, CommitInfo, DiffCounts, GitDiff, RowContent,
};
use gitkay::diff::data::{Delta, DiffData, DiffSettings};
use gitkay::diff::files::file_line_ranges;
use gitkay::diff::line::{AnchorSide, DiffLine, LineKind, LineNo};
use gitkay::diff::options::{detect_similar, scoped_diff_opts, DiffOptions};
use gitkay::diff::patch::{delta_path_bytes, DeltaInfo, PatchLine};
use gitkay::diff::row::{CommitStats, DiffSource, RangeEnds, RowScope, StatsWant};
use gitkay::diff_store::key::{attrs_id, config_id, StoreContext};
use gitkay::diff_store::store::{DiffStore, Loaded};
use gitkay::oid::Oid;

fn temp_repo() -> (tempfile::TempDir, Repository) {
    let dir = tempfile::tempdir().unwrap();
    let repo = Repository::init(dir.path()).unwrap();
    let mut cfg = repo.config().unwrap();
    cfg.set_str("user.name", "t").unwrap();
    cfg.set_str("user.email", "t@example.com").unwrap();
    // What the tests rely on, whatever the settings of the machine.
    cfg.set_bool("core.autocrlf", false).unwrap();
    cfg.set_bool("core.fileMode", true).unwrap();
    cfg.set_bool("core.symlinks", true).unwrap();
    (dir, repo)
}

/// Write the (already-staged) `index`, commit its tree onto HEAD, and return
/// the new commit's oid.
fn commit_index(repo: &Repository, index: &mut git2::Index, msg: &str) -> git2::Oid {
    index.write().unwrap();
    let tree = repo.find_tree(index.write_tree().unwrap()).unwrap();
    let sig = repo.signature().unwrap();
    let parent = repo.head().ok().and_then(|h| h.peel_to_commit().ok());
    let parents: Vec<&git2::Commit> = parent.iter().collect();
    repo.commit(Some("HEAD"), &sig, &sig, msg, &tree, &parents)
        .unwrap()
}

/// Put a file in place, by way of a temporary one beside it.
fn put(path: &Path, bytes: &[u8]) {
    let mut file = tempfile::NamedTempFile::new_in(path.parent().unwrap()).unwrap();
    file.write_all(bytes).unwrap();
    file.persist(path).unwrap();
}

fn in_worktree(repo: &Repository, path: &str) -> PathBuf {
    repo.workdir().unwrap().join(path)
}

/// Write `content` into the worktree without staging it.
fn write_file(repo: &Repository, path: &str, content: &str) {
    put(&in_worktree(repo, path), content.as_bytes());
}

fn write_bytes(repo: &Repository, path: &str, bytes: &[u8]) {
    put(&in_worktree(repo, path), bytes);
}

fn remove_file(repo: &Repository, path: &str) {
    take_away(&in_worktree(repo, path));
}

fn take_away(path: &Path) {
    tempfile::TempPath::try_from_path(path).unwrap().close().unwrap();
}

fn rename_file(repo: &Repository, old: &str, new: &str) {
    tempfile::TempPath::try_from_path(in_worktree(repo, old))
        .unwrap()
        .persist(in_worktree(repo, new))
        .unwrap();
}

/// Have git put a file of a mode in place.
fn checkout(repo: &Repository, path: &str, bytes: &[u8], mode: git2::FileMode) {
    let blob = repo.blob(bytes).unwrap();
    let empty = repo.treebuilder(None).unwrap().write().unwrap();
    let tree = git2::build::TreeUpdateBuilder::new()
        .upsert(path, blob, mode)
        .create_updated(repo, &repo.find_tree(empty).unwrap())
        .unwrap();
    let object = repo.find_object(tree, None).unwrap();
    let mut opts = git2::build::CheckoutBuilder::new();
    opts.force()
        .update_index(false)
        .disable_pathspec_match(true)
        .path(path);
    repo.checkout_tree(&object, Some(&mut opts)).unwrap();
}

/// Stage the current worktree content of `path`.
fn stage(repo: &Repository, path: &str) {
    let mut index = repo.index().unwrap();
    index.add_path(Path::new(path)).unwrap();
    index.write().unwrap();
}

fn commit_file(repo: &Repository, path: &str, content: &str, msg: &str) -> git2::Oid {
    commit_bytes(repo, path, content.as_bytes(), msg)
}

fn commit_bytes(repo: &Repository, path: &str, content: &[u8], msg: &str) -> git2::Oid {
    write_bytes(repo, path, content);
    let mut index = repo.index().unwrap();
    index.add_path(Path::new(path)).unwrap();
    commit_index(repo, &mut index, msg)
}

/// Stage a rename `old` -> `new` (the file is already moved on disk) and commit.
fn commit_rename(repo: &Repository, old: &str, new: &str, msg: &str) -> git2::Oid {
    let mut index = repo.index().unwrap();
    index.remove_path(Path::new(old)).unwrap();
    index.add_path(Path::new(new)).unwrap();
    commit_index(repo, &mut index, msg)
}

fn from_git(oid: git2::Oid) -> Oid {
    let mut bytes = [0u8; 20];
    bytes.copy_from_slice(oid.as_bytes());
    Oid::from_bytes(bytes)
}

fn to_git(oid: Oid) -> Result<git2::Oid, git2::Error> {
    git2::Oid::from_bytes(&oid.bytes)
}

fn status_of(status: git2::Delta) -> Delta {
    match status {
        git2::Delta::Unmodified => Delta::Unmodified,
        git2::Delta::Added => Delta::Added,
        git2::Delta::Deleted => Delta::Deleted,
        git2::Delta::Modified => Delta::Modified,
        git2::Delta::Renamed => Delta::Renamed,
        git2::Delta::Copied => Delta::Copied,
        git2::Delta::Ignored => Delta::Ignored,
        git2::Delta::Untracked => Delta::Untracked,
        git2::Delta::Typechange => Delta::Typechange,
        git2::Delta::Unreadable => Delta::Unreadable,
        git2::Delta::Conflicted => Delta::Conflicted,
    }
}

fn to_options(opts: &DiffOptions) -> git2::DiffOptions {
    let mut out = git2::DiffOptions::new();
    if let Some(lines) = opts.context_lines {
        out.context_lines(lines);
    }
    out.ignore_whitespace(opts.ignore_whitespace)
        .reverse(opts.reverse)
        .disable_pathspec_match(opts.literal_paths);
    for spec in &opts.pathspecs {
        out.pathspec(spec.as_slice());
    }
    out
}

/// Joins what was renamed or copied. An error leaves the diff as it was.
fn find_similar(diff: &mut git2::Diff<'_>, settings: DiffSettings) {
    if let Some(find) = detect_similar(settings) {
        let mut opts = git2::DiffFindOptions::new();
        opts.renames(find.renames);
        opts.copies(find.copies);
        diff.find_similar(Some(&mut opts)).unwrap();
    }
}

fn delta_info(delta: &git2::DiffDelta<'_>) -> DeltaInfo {
    DeltaInfo {
        status: status_of(delta.status()),
        new_path: delta.new_file().path_bytes().map(<[u8]>::to_vec),
        old_path: delta.old_file().path_bytes().map(<[u8]>::to_vec),
        is_binary: delta.old_file().is_binary() || delta.new_file().is_binary(),
    }
}

fn gather(diff: &git2::Diff<'_>, show_stats: bool) -> GitDiff {
    let deltas = diff.deltas().map(|d| delta_info(&d)).collect();
    let stats = if show_stats {
        diff.stats()
            .and_then(|s| s.to_buf(git2::DiffStatsFormat::FULL, 80))
            .ok()
            .map(|b| b.as_str().unwrap_or("").to_owned())
    } else {
        None
    };
    let mut patch = Vec::new();
    diff.print(git2::DiffFormat::Patch, |delta, _hunk, line| {
        patch.push(PatchLine {
            path: delta_path_bytes(&delta_info(&delta)),
            origin: line.origin(),
            old_lineno: line.old_lineno(),
            new_lineno: line.new_lineno(),
            content: line.content().to_vec(),
        });
        true
    })
    .unwrap();
    GitDiff {
        deltas,
        stats,
        patch,
    }
}

/// The tree of the last commit, where it can be read.
fn head_tree(repo: &Repository) -> Option<git2::Tree<'_>> {
    repo.head()
        .ok()
        .and_then(|h| h.peel_to_commit().ok())
        .and_then(|c| c.tree().ok())
}

fn worktree_git_diff<'r>(
    repo: &'r Repository,
    opts: &mut git2::DiffOptions,
) -> Result<git2::Diff<'r>, git2::Error> {
    repo.diff_index_to_workdir(None, Some(opts))
}

fn staged_git_diff<'r>(
    repo: &'r Repository,
    opts: &mut git2::DiffOptions,
) -> Result<git2::Diff<'r>, git2::Error> {
    repo.diff_tree_to_index(head_tree(repo).as_ref(), None, Some(opts))
}

fn commit_parent_diff<'r>(
    repo: &'r Repository,
    commit: &git2::Commit<'_>,
    opts: &mut git2::DiffOptions,
) -> Result<git2::Diff<'r>, git2::Error> {
    let parent_tree = commit.parent(0).ok().and_then(|p| p.tree().ok());
    let tree = commit.tree()?;
    repo.diff_tree_to_tree(parent_tree.as_ref(), Some(&tree), Some(opts))
}

fn range_git_diff<'r>(
    repo: &'r Repository,
    ends: RangeEnds,
    opts: &mut git2::DiffOptions,
) -> Result<git2::Diff<'r>, git2::Error> {
    let base = repo.find_commit(to_git(ends.base)?)?.tree()?;
    let head = repo.find_commit(to_git(ends.head)?)?.tree()?;
    repo.diff_tree_to_tree(Some(&base), Some(&head), Some(opts))
}

/// The diff of a row, with what was renamed or copied joined.
fn scoped_diff<'r>(
    repo: &'r Repository,
    scope: &RowScope,
    settings: DiffSettings,
) -> Result<git2::Diff<'r>, git2::Error> {
    let mut opts = to_options(&scoped_diff_opts(settings, &scope.paths));
    let mut diff = match scope.source {
        DiffSource::Uncommitted => worktree_git_diff(repo, &mut opts)?,
        DiffSource::Staged => staged_git_diff(repo, &mut opts)?,
        DiffSource::Range(ends) => range_git_diff(repo, ends, &mut opts)?,
        DiffSource::Commit(oid) => {
            let commit = repo.find_commit(to_git(oid)?)?;
            commit_parent_diff(repo, &commit, &mut opts)?
        }
    };
    find_similar(&mut diff, settings);
    Ok(diff)
}

fn commit_info(repo: &Repository, oid: Oid) -> Result<CommitInfo, git2::Error> {
    let commit = repo.find_commit(to_git(oid)?)?;
    let author = commit.author();
    let when = author.when();
    Ok(CommitInfo {
        oid,
        author: author.to_string(),
        secs: when.seconds(),
        tz_offset_min: when.offset_minutes(),
        message: commit.message_bytes().to_vec(),
    })
}

fn subject(repo: &Repository, oid: Oid) -> Option<Vec<u8>> {
    repo.find_commit(to_git(oid).ok()?)
        .ok()
        .and_then(|c| c.summary_bytes().map(<[u8]>::to_vec))
}

/// What git says of a row.
fn row_content(repo: &Repository, scope: &RowScope, settings: DiffSettings) -> RowContent {
    let diff = scoped_diff(repo, scope, settings)
        .ok()
        .map(|d| gather(&d, settings.show_stats));
    match scope.source {
        DiffSource::Uncommitted => RowContent::Uncommitted(diff),
        DiffSource::Staged => RowContent::Staged(diff),
        DiffSource::Range(ends) => RowContent::Range(
            ends,
            subject(repo, ends.base),
            subject(repo, ends.head),
            diff,
        ),
        DiffSource::Commit(oid) => {
            RowContent::Commit(commit_info(repo, oid).ok(), diff)
        }
    }
}

/// The diff of a row, as it is shown.
fn get_diff_data(repo: &Repository, scope: &RowScope, settings: DiffSettings) -> DiffData {
    shown(&row_content(repo, scope, settings), settings)
}


/// The change counts of a row.
fn commit_stats(
    repo: &Repository,
    scope: &RowScope,
    settings: DiffSettings,
    want: StatsWant,
) -> Result<CommitStats, git2::Error> {
    let diff = scoped_diff(repo, scope, settings)?;
    let counts = match want {
        StatsWant::FilesOnly => DiffCounts::Files(diff.deltas().len()),
        StatsWant::FilesAndLines => {
            let stats = diff.stats()?;
            DiffCounts::Lines {
                files: stats.files_changed(),
                insertions: stats.insertions(),
                deletions: stats.deletions(),
            }
        }
    };
    Ok(stats_of(counts))
}

fn ends(base: git2::Oid, head: git2::Oid) -> RangeEnds {
    RangeEnds {
        base: from_git(base),
        head: from_git(head),
    }
}

fn range_diff(repo: &Repository, base: git2::Oid, head: git2::Oid) -> DiffData {
    let scope = RowScope::new(DiffSource::Range(ends(base, head)));
    get_diff_data(repo, &scope, base_settings())
}

fn everything_repo() -> (tempfile::TempDir, Repository, git2::Oid) {
    let (d, repo) = temp_repo();
    write_file(&repo, "text.txt", "one\ntwo\nthree\n");
    write_bytes(&repo, "bin.dat", &[0u8, 1, 2, 3]);
    write_file(&repo, "old.txt", "move me\nsecond line\nthird line\n");
    write_file(&repo, "gone.txt", "delete me\n");
    write_file(&repo, "mode.sh", "#!/bin/sh\necho hi\n");
    for p in ["text.txt", "bin.dat", "old.txt", "gone.txt", "mode.sh"] {
        stage(&repo, p);
    }
    {
        let mut index = repo.index().unwrap();
        commit_index(&repo, &mut index, "base");
    }

    write_file(&repo, "text.txt", "one\nTWO\nthree\nfour\n");
    write_bytes(&repo, "bin.dat", &[0u8, 9, 9, 9, 9]);
    rename_file(&repo, "old.txt", "new.txt");
    remove_file(&repo, "gone.txt");
    checkout(&repo, "mode.sh", b"#!/bin/sh\necho hi\n", git2::FileMode::BlobExecutable);
    write_file(&repo, "added.txt", "brand new\n");
    let oid = {
        let mut index = repo.index().unwrap();
        index.remove_path(Path::new("old.txt")).unwrap();
        index.remove_path(Path::new("gone.txt")).unwrap();
        for p in ["text.txt", "bin.dat", "new.txt", "mode.sh", "added.txt"] {
            index.add_path(Path::new(p)).unwrap();
        }
        commit_index(&repo, &mut index, "everything at once")
    };
    (d, repo, oid)
}

fn base_settings() -> DiffSettings {
    DiffSettings {
        context: 3,
        ignore_ws: false,
        show_stats: false,
        detect_renames: false,
        detect_copies: false,
    }
}

fn stats_settings(detect_renames: bool) -> DiffSettings {
    DiffSettings {
        detect_renames,
        ..base_settings()
    }
}

#[test]
fn range_diff_collapses_two_edits_to_one_file() {
    let (_d, repo) = temp_repo();
    let base = commit_file(&repo, "f.txt", "a\nb\nc\n", "base");
    commit_file(&repo, "f.txt", "a\nB\nc\n", "second");
    let head = commit_file(&repo, "f.txt", "a\nB\nC\n", "third");

    let data = range_diff(&repo, base, head);

    assert_eq!(
        data.files.len(),
        1,
        "two commits touched one file; the range shows it once"
    );
    assert_eq!(data.files[0].path, "f.txt");
    assert_eq!((data.files[0].additions, data.files[0].deletions), (2, 2));
}

#[test]
fn range_diff_omits_a_file_added_and_deleted_inside_the_range() {
    let (_d, repo) = temp_repo();
    let base = commit_file(&repo, "keep.txt", "k\n", "base");
    commit_file(&repo, "temp.txt", "t\n", "add temp");
    remove_file(&repo, "temp.txt");
    let head = {
        let mut index = repo.index().unwrap();
        index.remove_path(Path::new("temp.txt")).unwrap();
        commit_index(&repo, &mut index, "drop temp")
    };

    let data = range_diff(&repo, base, head);

    assert!(
        data.files.is_empty(),
        "added and deleted inside the range cancels out, got {:?}",
        data.files.iter().map(|f| &f.path).collect::<Vec<_>>()
    );
}

#[test]
fn range_diff_shows_an_added_then_modified_file_once_with_final_content() {
    let (_d, repo) = temp_repo();
    let base = commit_file(&repo, "keep.txt", "k\n", "base");
    commit_file(&repo, "new.txt", "one\n", "add");
    let head = commit_file(&repo, "new.txt", "one\ntwo\n", "extend");

    let data = range_diff(&repo, base, head);

    assert_eq!(data.files.len(), 1);
    assert_eq!(data.files[0].path, "new.txt");
    assert_eq!(data.files[0].status, Delta::Added);
    assert_eq!((data.files[0].additions, data.files[0].deletions), (2, 0));
}

#[test]
fn get_diff_data_dispatches_the_range_kind() {
    let (_d, repo) = temp_repo();
    let base = commit_file(&repo, "f.txt", "a\n", "base");
    let head = commit_file(&repo, "f.txt", "a\nb\n", "more");

    let data = get_diff_data(
        &repo,
        &RowScope::new(DiffSource::Range(ends(base, head))),
        base_settings(),
    );
    assert_eq!(data.files.len(), 1);
    assert_eq!(data.files[0].path, "f.txt");
}

#[test]
fn commit_stats_counts_a_range() {
    let (_d, repo) = temp_repo();
    let base = commit_file(&repo, "f.txt", "a\n", "base");
    commit_file(&repo, "f.txt", "a\nb\n", "second");
    let head = commit_file(&repo, "g.txt", "g\n", "third");

    let s = commit_stats(
        &repo,
        &RowScope::new(DiffSource::Range(ends(base, head))),
        base_settings(),
        StatsWant::FilesAndLines,
    )
    .unwrap();
    assert_eq!(s.files, 2);
    assert_eq!(s.lines, Some((2, 0)));
}

#[test]
fn patch_rows_carry_gits_line_numbers() {
    let (_d, repo) = temp_repo();
    commit_file(&repo, "f.txt", "one\ntwo\nthree\n", "base");
    let oid = commit_file(&repo, "f.txt", "one\nTWO\nthree\n", "edit");
    let data = get_diff_data(
        &repo,
        &RowScope::new(DiffSource::Commit(from_git(oid))),
        base_settings(),
    );

    let row = |text: &str| -> &DiffLine {
        data.lines
            .iter()
            .find(|l| l.text.as_str() == text)
            .unwrap_or_else(|| panic!("no {text:?} row in the patch"))
    };
    let n = LineNo::new;

    assert_eq!(row("one").kind, LineKind::Context);
    assert_eq!((row("one").old_lineno, row("one").new_lineno), (n(1), n(1)));
    assert_eq!(row("-two").kind, LineKind::Del);
    assert_eq!(
        (row("-two").old_lineno, row("-two").new_lineno),
        (n(2), None)
    );
    assert_eq!(row("+TWO").kind, LineKind::Add);
    assert_eq!(
        (row("+TWO").old_lineno, row("+TWO").new_lineno),
        (None, n(2))
    );

    for l in data.lines.iter().filter(|l| !l.kind.is_code()) {
        assert_eq!(
            (l.old_lineno, l.new_lineno),
            (None, None),
            "structural row {:?} must claim no line number",
            l.text
        );
    }
}

#[test]
fn eof_and_binary_marker_rows_carry_no_line_number() {
    let (_d, repo) = temp_repo();
    commit_file(&repo, "f.txt", "one\ntwo\n", "base");
    let oid = commit_file(&repo, "f.txt", "one\ntwo\nthree", "no trailing newline");
    let data = get_diff_data(
        &repo,
        &RowScope::new(DiffSource::Commit(from_git(oid))),
        base_settings(),
    );
    let marker = data
        .lines
        .iter()
        .find(|l| l.text.contains("No newline at end of file"))
        .expect("the EOF marker row is in the patch");
    assert_eq!((marker.old_lineno, marker.new_lineno), (None, None));

    let (_d2, repo2) = temp_repo();
    commit_bytes(&repo2, "b.dat", &[0, 1, 2, 3], "base");
    let oid2 = commit_bytes(&repo2, "b.dat", &[0, 9, 9, 9], "edit");
    let data2 = get_diff_data(
        &repo2,
        &RowScope::new(DiffSource::Commit(from_git(oid2))),
        base_settings(),
    );
    let bin = data2
        .lines
        .iter()
        .find(|l| l.text.starts_with("Binary files"))
        .expect("the binary marker row is in the patch");
    assert_eq!((bin.old_lineno, bin.new_lineno), (None, None));
}

#[test]
fn commit_stats_agrees_with_the_panes_own_per_file_counts() {
    let (_d, repo, oid) = everything_repo();
    for detect_renames in [false, true] {
        let s = stats_settings(detect_renames);
        let got = commit_stats(
            &repo,
            &RowScope::new(DiffSource::Commit(from_git(oid))),
            s,
            StatsWant::FilesAndLines,
        )
        .unwrap();

        let data = get_diff_data(&repo, &RowScope::new(DiffSource::Commit(from_git(oid))), s);
        let want = CommitStats {
            files: data.files.len(),
            lines: Some((
                data.files.iter().map(|f| f.additions).sum(),
                data.files.iter().map(|f| f.deletions).sum(),
            )),
        };
        assert_eq!(got, want, "detect_renames = {detect_renames}");
    }
}

#[test]
fn files_only_matches_the_full_file_count_and_omits_lines() {
    let (_d, repo, oid) = everything_repo();
    for detect_renames in [false, true] {
        let s = stats_settings(detect_renames);
        let full = commit_stats(
            &repo,
            &RowScope::new(DiffSource::Commit(from_git(oid))),
            s,
            StatsWant::FilesAndLines,
        )
        .unwrap();
        let fast = commit_stats(
            &repo,
            &RowScope::new(DiffSource::Commit(from_git(oid))),
            s,
            StatsWant::FilesOnly,
        )
        .unwrap();
        assert_eq!(fast.files, full.files, "detect_renames = {detect_renames}");
        assert_eq!(fast.lines, None, "FilesOnly must not report line counts");
    }
}

#[test]
fn commit_stats_counts_a_rename_as_one_file_when_detection_is_on() {
    let (_d, repo, oid) = everything_repo();
    let off = commit_stats(
        &repo,
        &RowScope::new(DiffSource::Commit(from_git(oid))),
        stats_settings(false),
        StatsWant::FilesAndLines,
    )
    .unwrap();
    let on = commit_stats(
        &repo,
        &RowScope::new(DiffSource::Commit(from_git(oid))),
        stats_settings(true),
        StatsWant::FilesAndLines,
    )
    .unwrap();
    assert_eq!(
        off.files,
        on.files + 1,
        "detection removes exactly one entry"
    );
}

#[test]
fn commit_stats_counts_a_root_commit_as_all_added() {
    let (_d, repo) = temp_repo();
    let root = commit_file(&repo, "f.txt", "one\ntwo\n", "root");
    let got = commit_stats(
        &repo,
        &RowScope::new(DiffSource::Commit(from_git(root))),
        stats_settings(true),
        StatsWant::FilesAndLines,
    )
    .unwrap();
    assert_eq!(
        got,
        CommitStats {
            files: 1,
            lines: Some((2, 0))
        }
    );
}

#[test]
fn commit_stats_covers_the_virtual_rows() {
    let (_d, repo) = temp_repo();
    commit_file(&repo, "f.txt", "one\n", "base");
    write_file(&repo, "f.txt", "one\ntwo\nthree\n");
    stage(&repo, "f.txt");
    write_file(&repo, "f.txt", "one\ntwo\nthree\nfour\n");

    let s = stats_settings(true);
    let staged_full = commit_stats(
        &repo,
        &RowScope::new(DiffSource::Staged),
        s,
        StatsWant::FilesAndLines,
    )
    .unwrap();
    assert_eq!(
        staged_full,
        CommitStats {
            files: 1,
            lines: Some((2, 0))
        }
    );
    let uncommitted_full = commit_stats(
        &repo,
        &RowScope::new(DiffSource::Uncommitted),
        s,
        StatsWant::FilesAndLines,
    )
    .unwrap();
    assert_eq!(
        uncommitted_full,
        CommitStats {
            files: 1,
            lines: Some((1, 0))
        }
    );

    let staged_fast = commit_stats(
        &repo,
        &RowScope::new(DiffSource::Staged),
        s,
        StatsWant::FilesOnly,
    )
    .unwrap();
    assert_eq!(staged_fast.files, staged_full.files);
    assert_eq!(staged_fast.lines, None);
    let uncommitted_fast = commit_stats(
        &repo,
        &RowScope::new(DiffSource::Uncommitted),
        s,
        StatsWant::FilesOnly,
    )
    .unwrap();
    assert_eq!(uncommitted_fast.files, uncommitted_full.files);
    assert_eq!(uncommitted_fast.lines, None);
}

#[test]
fn capture_anchor_skips_unnumbered_rows_and_records_the_offset() {
    let (_d, repo) = temp_repo();
    commit_file(&repo, "f.txt", "one\ntwo\nthree\n", "base");
    let oid = commit_file(&repo, "f.txt", "one\nTWO\nthree\n", "edit");
    let data = get_diff_data(
        &repo,
        &RowScope::new(DiffSource::Commit(from_git(oid))),
        DiffSettings {
            show_stats: true,
            ..base_settings()
        },
    );

    let first = data
        .lines
        .iter()
        .position(|l| l.new_lineno.is_some() || l.old_lineno.is_some())
        .expect("the patch has numbered rows");
    assert!(
        first > 0,
        "the fixture must have header rows above the patch"
    );

    let got = capture_anchor(&data.lines, &data.files, 0, 0).expect("an anchor");
    assert_eq!(got.path, b"f.txt".to_vec());
    assert_eq!(got.side, AnchorSide::New);
    assert_eq!(got.lineno, LineNo::new(1).unwrap());
    assert_eq!(got.delta, first, "delta is rows below the viewport top");

    let on_it = capture_anchor(&data.lines, &data.files, first, 0).expect("an anchor");
    assert_eq!(on_it.delta, 0);
    assert_eq!(on_it.lineno, got.lineno);
}

#[test]
fn capture_anchor_prefers_the_new_side_and_falls_back_to_the_old() {
    let (_d, repo) = temp_repo();
    commit_file(&repo, "f.txt", "one\ntwo\nthree\n", "base");
    let oid = commit_file(&repo, "f.txt", "one\nthree\n", "drop line two");
    let data = get_diff_data(
        &repo,
        &RowScope::new(DiffSource::Commit(from_git(oid))),
        base_settings(),
    );

    let del = data
        .lines
        .iter()
        .position(|l| l.kind == LineKind::Del)
        .expect("the patch has a deletion");
    let got = capture_anchor(&data.lines, &data.files, del, 0).expect("an anchor");
    assert_eq!(got.side, AnchorSide::Old);
    assert_eq!(got.lineno, LineNo::new(2).unwrap());

    let ctx = data
        .lines
        .iter()
        .position(|l| l.kind == LineKind::Context && l.new_lineno.is_some())
        .expect("the patch has context");
    assert_eq!(
        capture_anchor(&data.lines, &data.files, ctx, 0)
            .unwrap()
            .side,
        AnchorSide::New
    );
}

#[test]
fn capture_anchor_falls_back_to_the_last_numbered_row_above() {
    let (_d, repo) = temp_repo();
    commit_file(&repo, "f.txt", "one\ntwo\n", "base");
    let oid = commit_file(&repo, "f.txt", "one\ntwo\nthree", "no trailing newline");
    let data = get_diff_data(
        &repo,
        &RowScope::new(DiffSource::Commit(from_git(oid))),
        base_settings(),
    );

    let last = data.lines.len() - 1;
    assert!(
        data.lines[last].new_lineno.is_none() && data.lines[last].old_lineno.is_none(),
        "fixture must end on an unnumbered marker row"
    );
    let got = capture_anchor(&data.lines, &data.files, last, 0).expect("an anchor");
    assert_eq!(got.delta, 0);
    assert_eq!(got.lineno, LineNo::new(3).unwrap());
    assert_eq!(got.side, AnchorSide::New);

    assert_eq!(
        capture_anchor(&data.lines, &data.files, data.lines.len() + 99, 0),
        Some(got)
    );
}

#[test]
fn capture_anchor_is_none_without_a_numbered_row() {
    assert_eq!(capture_anchor(&[], &[], 0, 0), None);

    let (_d, repo) = temp_repo();
    commit_bytes(&repo, "b.dat", &[0, 1, 2, 3], "base");
    let oid = commit_bytes(&repo, "b.dat", &[0, 9, 9, 9], "edit");
    let data = get_diff_data(
        &repo,
        &RowScope::new(DiffSource::Commit(from_git(oid))),
        base_settings(),
    );
    assert!(
        !data.lines.is_empty(),
        "a binary diff still has header rows"
    );
    assert_eq!(capture_anchor(&data.lines, &data.files, 0, 0), None);
}

#[test]
fn capture_anchor_takes_its_bearing_from_the_viewport_centre() {
    let (_d, repo, oid) = two_hunk_repo();
    let data = diff_at(&repo, oid, base_settings());
    let hdr = (0..data.lines.len())
        .filter(|&r| data.lines[r].kind == LineKind::Hunk)
        .nth(1)
        .expect("two hunks");
    assert!(
        data.lines[hdr].anchor_point().is_none(),
        "header is unnumbered"
    );

    let top_edge = capture_anchor(&data.lines, &data.files, hdr, 0).expect("an anchor");
    let centred = capture_anchor(&data.lines, &data.files, hdr, 20).expect("an anchor");

    assert!(
        centred.lineno.get() > top_edge.lineno.get(),
        "the centre must anchor further down than the top edge: {} vs {}",
        centred.lineno.get(),
        top_edge.lineno.get()
    );
    assert!(
        centred.delta > top_edge.delta,
        "delta grows with the anchor's distance below the top"
    );
    assert_eq!(
        resolve_anchor(&centred, &data.lines, &data.files),
        hdr,
        "resolving against unchanged content must restore the original top row"
    );
}

#[test]
fn capture_anchor_without_a_viewport_height_anchors_at_the_top() {
    let (_d, repo, oid) = two_hunk_repo();
    let data = diff_at(&repo, oid, base_settings());
    let hdr = (0..data.lines.len())
        .filter(|&r| data.lines[r].kind == LineKind::Hunk)
        .nth(1)
        .expect("two hunks");
    let got = capture_anchor(&data.lines, &data.files, hdr, 0).expect("an anchor");

    let first_below = (hdr..data.lines.len())
        .find(|&r| data.lines[r].anchor_point().is_some())
        .expect("a numbered row below the header");
    assert_eq!(got.delta, first_below - hdr);
    assert_eq!(
        Some((got.side, got.lineno)),
        data.lines[first_below].anchor_point()
    );
}

#[test]
fn capture_anchor_clamps_a_centre_past_the_end_of_the_diff() {
    let (_d, repo, oid) = two_hunk_repo();
    let data = diff_at(&repo, oid, base_settings());
    let got = capture_anchor(&data.lines, &data.files, 0, 100_000).expect("an anchor");
    assert_eq!(
        resolve_anchor(&got, &data.lines, &data.files),
        0,
        "a clamped centre still restores the top row it was captured from"
    );
}

fn two_hunk_repo() -> (tempfile::TempDir, Repository, git2::Oid) {
    let (d, repo) = temp_repo();
    let base: String = (1..=80).fold(String::new(), |mut acc, i| {
        acc.push_str(&format!("line {i}\n"));
        acc
    });
    commit_file(&repo, "f.txt", &base, "base");
    let edited: String = (1..=80)
        .map(|i| match i {
            10 | 70 => format!("line {i} CHANGED\n"),
            _ => format!("line {i}\n"),
        })
        .collect();
    let oid = commit_file(&repo, "f.txt", &edited, "edit two spots");
    (d, repo, oid)
}

fn ws_only_repo() -> (tempfile::TempDir, Repository, git2::Oid) {
    let (d, repo) = temp_repo();
    commit_file(&repo, "a.txt", "aaa\n", "base a");
    commit_file(&repo, "b.txt", "x\ny\nz\n", "base b");
    write_file(&repo, "a.txt", "aaa\nbbb\n");
    write_file(&repo, "b.txt", "x\ny   \nz\n");
    stage(&repo, "a.txt");
    stage(&repo, "b.txt");
    let oid = {
        let mut index = repo.index().unwrap();
        commit_index(&repo, &mut index, "real change + whitespace change")
    };
    (d, repo, oid)
}

fn diff_at(repo: &Repository, oid: git2::Oid, settings: DiffSettings) -> DiffData {
    get_diff_data(repo, &RowScope::new(DiffSource::Commit(from_git(oid))), settings)
}

fn row_of(data: &DiffData, path: &str, side: AnchorSide, n: u32) -> usize {
    let (_, start, end) = file_line_ranges(&data.files, data.lines.len())
        .into_iter()
        .find(|&(i, _, _)| data.files[i].path == path)
        .unwrap_or_else(|| panic!("{path} has no patch body"));
    (start..end)
        .find(|&r| data.lines[r].lineno_on(side) == LineNo::new(n))
        .unwrap_or_else(|| panic!("no row for {path} {side:?} line {n}"))
}

#[test]
fn widening_context_keeps_the_anchored_line_and_moves_it_down() {
    let (_d, repo, oid) = two_hunk_repo();
    let narrow = diff_at(
        &repo,
        oid,
        DiffSettings {
            context: 1,
            ..base_settings()
        },
    );
    let wide = diff_at(
        &repo,
        oid,
        DiffSettings {
            context: 6,
            ..base_settings()
        },
    );

    let row = row_of(&narrow, "f.txt", AnchorSide::New, 70);
    let anchor = capture_anchor(&narrow.lines, &narrow.files, row, 0).expect("an anchor");
    assert_eq!(anchor.lineno.get(), 70);
    assert_eq!(anchor.delta, 0);

    let got = resolve_anchor(&anchor, &wide.lines, &wide.files);
    assert_eq!(got, row_of(&wide, "f.txt", AnchorSide::New, 70), "rung 1");
    assert!(got > row, "widening inserts rows above it: {got} vs {row}");

    let offset = DiffAnchor { delta: 5, ..anchor };
    assert_eq!(resolve_anchor(&offset, &wide.lines, &wide.files), got - 5);
}

#[test]
fn narrowing_context_lands_on_the_next_surviving_line() {
    let (_d, repo, oid) = two_hunk_repo();
    let wide = diff_at(
        &repo,
        oid,
        DiffSettings {
            context: 6,
            ..base_settings()
        },
    );
    let narrow = diff_at(
        &repo,
        oid,
        DiffSettings {
            context: 1,
            ..base_settings()
        },
    );

    let row = row_of(&wide, "f.txt", AnchorSide::New, 64);
    let anchor = capture_anchor(&wide.lines, &wide.files, row, 0).expect("an anchor");
    assert_eq!(anchor.lineno.get(), 64);

    let got = resolve_anchor(&anchor, &narrow.lines, &narrow.files);
    assert_eq!(
        narrow.lines[got].new_lineno,
        LineNo::new(69),
        "rung 2: the first surviving line at or after 64"
    );
    assert_eq!(got, row_of(&narrow, "f.txt", AnchorSide::New, 69));
}

#[test]
fn a_shrunk_trailing_hunk_falls_to_its_own_files_header() {
    let (_d, repo, oid) = two_hunk_repo();
    let wide = diff_at(
        &repo,
        oid,
        DiffSettings {
            context: 6,
            ..base_settings()
        },
    );
    let narrow = diff_at(
        &repo,
        oid,
        DiffSettings {
            context: 1,
            ..base_settings()
        },
    );

    let row = row_of(&wide, "f.txt", AnchorSide::New, 76);
    let captured = capture_anchor(&wide.lines, &wide.files, row, 0).expect("an anchor");
    assert_eq!(captured.lineno.get(), 76);
    let anchor = DiffAnchor {
        delta: 4,
        ..captured
    };

    let header = narrow.files[0]
        .diff_line_idx
        .expect("f.txt kept its body at 1 column of context");
    assert_eq!(
        resolve_anchor(&anchor, &narrow.lines, &narrow.files),
        header,
        "rung 3: the file survived but nothing in it reaches line 76 anymore"
    );
}

#[test]
fn a_file_without_a_patch_body_falls_to_the_previous_header() {
    let (_d, repo, oid) = ws_only_repo();
    let shown = diff_at(&repo, oid, base_settings());
    let hidden = diff_at(
        &repo,
        oid,
        DiffSettings {
            ignore_ws: true,
            ..base_settings()
        },
    );

    let b = hidden
        .files
        .iter()
        .find(|f| f.path == "b.txt")
        .expect("b.txt is still listed");
    assert_eq!(
        b.diff_line_idx, None,
        "a whitespace-only change leaves no patch body"
    );

    let row = row_of(&shown, "b.txt", AnchorSide::New, 2);
    let captured = capture_anchor(&shown.lines, &shown.files, row, 0).expect("an anchor");
    assert_eq!(captured.path, b"b.txt".to_vec());
    let anchor = DiffAnchor {
        delta: 3,
        ..captured
    };

    let a_header = hidden
        .files
        .iter()
        .find(|f| f.path == "a.txt")
        .unwrap()
        .diff_line_idx
        .expect("a.txt kept its body");
    assert_eq!(
        resolve_anchor(&anchor, &hidden.lines, &hidden.files),
        a_header,
        "rung 4: the previous surviving file's header, delta not applied"
    );
}

fn ws_only_repo_leading() -> (tempfile::TempDir, Repository, git2::Oid) {
    let (d, repo) = temp_repo();
    commit_file(&repo, "a.txt", "x\ny\nz\n", "base a");
    commit_file(&repo, "b.txt", "aaa\n", "base b");
    write_file(&repo, "a.txt", "x\ny   \nz\n");
    write_file(&repo, "b.txt", "aaa\nbbb\n");
    stage(&repo, "a.txt");
    stage(&repo, "b.txt");
    let oid = {
        let mut index = repo.index().unwrap();
        commit_index(&repo, &mut index, "whitespace change + real change")
    };
    (d, repo, oid)
}

#[test]
fn a_leading_file_without_a_patch_body_falls_to_the_next_header() {
    let (_d, repo, oid) = ws_only_repo_leading();
    let shown = diff_at(&repo, oid, base_settings());
    let hidden = diff_at(
        &repo,
        oid,
        DiffSettings {
            ignore_ws: true,
            ..base_settings()
        },
    );

    assert_eq!(
        hidden.files[0].path, "a.txt",
        "the bodyless file must sort first, or this doesn't test rung 4's forward half"
    );
    assert_eq!(
        hidden.files[0].diff_line_idx, None,
        "a whitespace-only change leaves no patch body"
    );

    let row = row_of(&shown, "a.txt", AnchorSide::New, 2);
    let captured = capture_anchor(&shown.lines, &shown.files, row, 0).expect("an anchor");
    assert_eq!(captured.path, b"a.txt".to_vec());
    let anchor = DiffAnchor {
        delta: 2,
        ..captured
    };

    let b_header = hidden
        .files
        .iter()
        .find(|f| f.path == "b.txt")
        .unwrap()
        .diff_line_idx
        .expect("b.txt kept its body");
    assert_eq!(
        resolve_anchor(&anchor, &hidden.lines, &hidden.files),
        b_header,
        "rung 4: no previous survivor, falls forward to the next file's header"
    );
}

#[test]
fn an_anchor_with_no_surviving_file_falls_to_the_top() {
    let (_d, repo) = temp_repo();
    commit_file(&repo, "b.txt", "x\ny\nz\n", "base");
    let oid = commit_file(&repo, "b.txt", "x\ny   \nz\n", "whitespace only");
    let shown = diff_at(&repo, oid, base_settings());
    let hidden = diff_at(
        &repo,
        oid,
        DiffSettings {
            ignore_ws: true,
            ..base_settings()
        },
    );

    let row = row_of(&shown, "b.txt", AnchorSide::New, 2);
    let anchor = capture_anchor(&shown.lines, &shown.files, row, 0).expect("an anchor");
    assert_eq!(resolve_anchor(&anchor, &hidden.lines, &hidden.files), 0);
    assert_eq!(
        resolve_anchor(&anchor, &[], &[]),
        0,
        "an empty diff has nowhere to land"
    );
}

#[test]
fn a_rename_toggle_matches_the_anchor_on_either_path() {
    let (_d, repo) = temp_repo();
    commit_file(&repo, "m.txt", "1\n2\n3\n4\n5\n6\n7\n8\n", "base");
    rename_file(&repo, "m.txt", "z.txt");
    write_file(&repo, "z.txt", "1\n2\n3\nFOUR\n5\n6\n7\n8\n");
    let oid = commit_rename(&repo, "m.txt", "z.txt", "rename and edit");

    let off = diff_at(&repo, oid, base_settings());
    let on = diff_at(
        &repo,
        oid,
        DiffSettings {
            detect_renames: true,
            ..base_settings()
        },
    );
    assert_eq!(on.files.len(), 1, "detection collapses the pair");
    assert_eq!(on.files[0].old_path_bytes.as_deref(), Some(&b"m.txt"[..]));

    let on_row = row_of(&on, "z.txt", AnchorSide::New, 4);
    let a = capture_anchor(&on.lines, &on.files, on_row, 0).expect("an anchor");
    assert_eq!(a.path, b"z.txt".to_vec());
    assert_eq!(a.side, AnchorSide::New);
    assert_eq!(
        resolve_anchor(&a, &off.lines, &off.files),
        row_of(&off, "z.txt", AnchorSide::New, 4)
    );

    let off_row = row_of(&off, "m.txt", AnchorSide::Old, 4);
    let b = capture_anchor(&off.lines, &off.files, off_row, 0).expect("an anchor");
    assert_eq!(b.path, b"m.txt".to_vec());
    assert_eq!(b.side, AnchorSide::Old);
    assert_eq!(
        resolve_anchor(&b, &on.lines, &on.files),
        row_of(&on, "z.txt", AnchorSide::Old, 4),
        "matched through the rename entry's old path"
    );
}

#[test]
fn a_copy_source_does_not_steal_an_anchor_meant_for_itself() {
    let (_d, repo) = temp_repo();
    let base = "aaa\nbbb\nccc\nddd\neee\n";
    commit_file(&repo, "z.txt", base, "base");
    write_file(&repo, "a.txt", base);
    write_file(&repo, "z.txt", "aaa\nbbb\nCCC\nddd\neee\n");
    stage(&repo, "a.txt");
    stage(&repo, "z.txt");
    let oid = {
        let mut index = repo.index().unwrap();
        commit_index(&repo, &mut index, "copy z.txt to a.txt and edit z.txt")
    };

    let data = diff_at(
        &repo,
        oid,
        DiffSettings {
            detect_copies: true,
            ..base_settings()
        },
    );
    assert_eq!(data.files.len(), 2, "the copy pairs off, nothing extra");
    assert_eq!(data.files[0].path, "a.txt", "the target sorts first");
    assert_eq!(data.files[0].status, Delta::Copied);
    assert_eq!(data.files[0].old_path_bytes.as_deref(), Some(&b"z.txt"[..]));
    assert_eq!(data.files[1].path, "z.txt");

    let row = row_of(&data, "z.txt", AnchorSide::New, 3);
    let anchor = capture_anchor(&data.lines, &data.files, row, 0).expect("an anchor");
    assert_eq!(anchor.path, b"z.txt".to_vec());

    let (_, z_start, z_end) = file_line_ranges(&data.files, data.lines.len())
        .into_iter()
        .find(|&(i, _, _)| data.files[i].path == "z.txt")
        .expect("z.txt has a patch body");
    let got = resolve_anchor(&anchor, &data.lines, &data.files);
    assert_eq!(got, row, "rung 1: the anchored line in z.txt itself");
    assert!(
        (z_start..z_end).contains(&got),
        "resolved into z.txt's own row range, not the copy's"
    );
}

#[test]
fn a_lossy_path_collision_resolves_to_the_right_file() {
    let (_d, repo) = temp_repo();
    let names: [&[u8]; 2] = [b"\xfe.txt", b"\xff.txt"];
    let add_all = |content: &str, msg: &str| {
        let mut index = repo.index().unwrap();
        for raw in names {
            let entry = git2::IndexEntry {
                ctime: git2::IndexTime::new(0, 0),
                mtime: git2::IndexTime::new(0, 0),
                dev: 0,
                ino: 0,
                mode: 0o100_644,
                uid: 0,
                gid: 0,
                file_size: 0,
                id: git2::Oid::zero(),
                flags: 0,
                flags_extended: 0,
                path: raw.to_vec(),
            };
            index.add_frombuffer(&entry, content.as_bytes()).unwrap();
        }
        commit_index(&repo, &mut index, msg)
    };
    add_all("1\n2\n3\n", "base");
    let oid = add_all("1\nEDIT\n3\n", "edit both");

    let data = diff_at(&repo, oid, base_settings());
    assert_eq!(data.files.len(), 2);
    assert_eq!(
        data.files[0].path, data.files[1].path,
        "the fixture must actually collide, or this proves nothing"
    );
    assert_ne!(data.files[0].path_bytes, data.files[1].path_bytes);

    let (fi, start, end) = file_line_ranges(&data.files, data.lines.len())[1];
    let row = (start..end)
        .find(|&r| data.lines[r].new_lineno == LineNo::new(2))
        .expect("the second file's changed line");
    let anchor = capture_anchor(&data.lines, &data.files, row, 0).expect("an anchor");
    assert_eq!(anchor.path, data.files[fi].path_bytes);

    let got = resolve_anchor(&anchor, &data.lines, &data.files);
    assert_eq!(got, row);
    assert!(
        (start..end).contains(&got),
        "resolved into the anchored file, not its lossy twin"
    );
}

#[test]
fn a_deleted_copy_source_consumed_by_a_rename_keeps_its_anchor_out_of_the_copy() {
    let (_d, repo) = temp_repo();
    let numbered_lines = |prefix: &str, n: u32| -> String {
        (1..=n).fold(String::new(), |mut acc, i| {
            acc.push_str(&format!("{prefix}{i}\n"));
            acc
        })
    };
    let mmm_base = numbered_lines("m", 100);
    let sss_base = numbered_lines("c", 100);
    write_file(&repo, "mmm.txt", &mmm_base);
    write_file(&repo, "sss.txt", &sss_base);
    stage(&repo, "mmm.txt");
    stage(&repo, "sss.txt");
    {
        let mut index = repo.index().unwrap();
        commit_index(&repo, &mut index, "base");
    }

    let mut m_next: Vec<String> = (1..=100).map(|i| format!("m{i}")).collect();
    m_next[49] = "m50-edited".to_string();
    let mmm_next = m_next.join("\n") + "\n";
    write_file(&repo, "mmm.txt", &mmm_next);
    remove_file(&repo, "sss.txt");
    write_file(&repo, "zz.txt", &sss_base);
    let mut aa_lines: Vec<String> = (1..=15).map(|i| format!("m{i}")).collect();
    aa_lines.extend((16..=100).map(|i| format!("c{i}")));
    let aa_content = aa_lines.join("\n") + "\n";
    write_file(&repo, "aa.txt", &aa_content);
    let oid = {
        let mut index = repo.index().unwrap();
        index.add_path(Path::new("mmm.txt")).unwrap();
        index.remove_path(Path::new("sss.txt")).unwrap();
        index.add_path(Path::new("zz.txt")).unwrap();
        index.add_path(Path::new("aa.txt")).unwrap();
        commit_index(
            &repo,
            &mut index,
            "edit mmm.txt, delete sss.txt, add zz.txt + aa.txt",
        )
    };

    let off = diff_at(&repo, oid, base_settings());
    let off_row = row_of(&off, "sss.txt", AnchorSide::Old, 50);
    let anchor = capture_anchor(&off.lines, &off.files, off_row, 0).expect("an anchor");
    assert_eq!(anchor.path, b"sss.txt".to_vec());
    assert_eq!(anchor.side, AnchorSide::Old);

    let on = diff_at(
        &repo,
        oid,
        DiffSettings {
            detect_renames: true,
            detect_copies: true,
            ..base_settings()
        },
    );

    assert!(
        !on.files.iter().any(|f| f.path == "sss.txt"),
        "sss.txt must have no entry of its own — the rename consumed it"
    );
    let copy = on
        .files
        .iter()
        .find(|f| f.status == Delta::Copied)
        .expect("a Copied entry");
    assert_eq!(copy.path, "aa.txt");
    assert_eq!(copy.old_path_bytes.as_deref(), Some(&b"sss.txt"[..]));
    let rename = on
        .files
        .iter()
        .find(|f| f.status == Delta::Renamed)
        .expect("a Renamed entry");
    assert_eq!(rename.path, "zz.txt");
    assert_eq!(rename.old_path_bytes.as_deref(), Some(&b"sss.txt"[..]));

    let got = resolve_anchor(&anchor, &on.lines, &on.files);
    let (_, zz_start, zz_end) = file_line_ranges(&on.files, on.lines.len())
        .into_iter()
        .find(|&(i, _, _)| on.files[i].path == "zz.txt")
        .expect("zz.txt has an entry");
    let (_, aa_start, aa_end) = file_line_ranges(&on.files, on.lines.len())
        .into_iter()
        .find(|&(i, _, _)| on.files[i].path == "aa.txt")
        .expect("aa.txt has a patch body");
    assert!(
        (zz_start..zz_end).contains(&got),
        "must resolve into zz.txt's row range (the rename), got row {got}"
    );
    assert!(
        !(aa_start..aa_end).contains(&got),
        "must never resolve into aa.txt's row range (the copy), got row {got}"
    );
}

#[test]
fn anchor_hint_names_the_file_the_view_lands_in() {
    let (_d, repo, oid) = two_hunk_repo();
    let data = diff_at(&repo, oid, base_settings());
    let row = row_of(&data, "f.txt", AnchorSide::New, 70);
    let anchor = capture_anchor(&data.lines, &data.files, row, 0).expect("an anchor");

    let (fi, _) = anchor_hint(&anchor, &data.lines, &data.files).expect("a hint");
    assert_eq!(data.files[fi].path, "f.txt");
}

#[test]
fn anchor_hint_picks_the_anchored_file_not_the_first() {
    let (_d, repo, oid) = ws_only_repo();
    let data = diff_at(&repo, oid, base_settings());
    let row = row_of(&data, "b.txt", AnchorSide::New, 2);
    let anchor = capture_anchor(&data.lines, &data.files, row, 0).expect("an anchor");

    let (fi, _) = anchor_hint(&anchor, &data.lines, &data.files).expect("a hint");
    assert_eq!(data.files[fi].path, "b.txt");
    assert_ne!(
        fi, 0,
        "a.txt sorts first, so this would pass vacuously at 0"
    );
}

#[test]
fn anchor_hint_follows_the_ladder_when_the_file_has_no_body() {
    let (_d, repo, oid) = ws_only_repo();
    let shown = diff_at(&repo, oid, base_settings());
    let hidden = diff_at(
        &repo,
        oid,
        DiffSettings {
            ignore_ws: true,
            ..base_settings()
        },
    );
    let row = row_of(&shown, "b.txt", AnchorSide::New, 2);
    let anchor = capture_anchor(&shown.lines, &shown.files, row, 0).expect("an anchor");

    let (fi, _) = anchor_hint(&anchor, &hidden.lines, &hidden.files).expect("a hint");
    assert_eq!(
        hidden.files[fi].path, "a.txt",
        "rung 4 lands on a.txt's header, so a.txt is what to colour first"
    );
}

#[test]
fn anchor_hint_is_none_for_an_empty_diff() {
    let (_d, repo, oid) = two_hunk_repo();
    let data = diff_at(&repo, oid, base_settings());
    let row = row_of(&data, "f.txt", AnchorSide::New, 70);
    let anchor = capture_anchor(&data.lines, &data.files, row, 0).expect("an anchor");

    assert_eq!(anchor_hint(&anchor, &[], &[]), None);
}

/// A store for the repository.
fn temp_store(repo: &Repository) -> DiffStore {
    let path = repo.path().to_str().unwrap().as_bytes();
    let attrs = attrs_id(b"", b"", b"");
    let context = StoreContext::of(path, &attrs, &config_id(None), "1.0.0").expect("hashable");
    DiffStore::at(b"/nowhere".to_vec(), context, 0)
}

fn stored_settings() -> DiffSettings {
    DiffSettings {
        show_stats: true,
        detect_renames: true,
        ..base_settings()
    }
}

fn through_the_store(repo: &Repository, oid: git2::Oid, built: &DiffData) -> DiffData {
    let scope = RowScope::new(DiffSource::Commit(from_git(oid)));
    let entry = temp_store(repo).save(&scope, stored_settings(), built);
    let (_, bytes) = entry.expect("a commit is stored");
    match DiffStore::load(Some(&bytes)) {
        Loaded::Hit(data) => data,
        _ => panic!("hit"),
    }
}

#[test]
fn a_real_diff_survives_store_and_load() {
    let (_d, repo) = temp_repo();
    commit_file(&repo, "a.rs", "fn main() {}\n", "one");
    let oid = commit_file(&repo, "a.rs", "fn main() {\n    todo!()\n}\n", "two");

    let built = diff_at(&repo, oid, stored_settings());
    assert!(!built.lines.is_empty(), "control: the diff is not empty");

    let back = through_the_store(&repo, oid, &built);

    assert_eq!(back.max_chars, built.max_chars);
    assert_eq!(back.lines.len(), built.lines.len());
    for (a, b) in back.lines.iter().zip(&built.lines) {
        assert_eq!(
            (&a.text, a.kind, a.old_lineno, a.new_lineno),
            (&b.text, b.kind, b.old_lineno, b.new_lineno)
        );
    }
    assert_eq!(back.files.len(), built.files.len());
    for (a, b) in back.files.iter().zip(&built.files) {
        assert_eq!(a.path, b.path);
        assert_eq!(a.path_bytes, b.path_bytes);
        assert_eq!(a.old_path_bytes, b.old_path_bytes);
        assert_eq!(a.status, b.status);
        assert_eq!((a.additions, a.deletions), (b.additions, b.deletions));
        assert_eq!(a.diff_line_idx, b.diff_line_idx);
    }
}

#[test]
fn a_rename_and_a_bodyless_file_survive() {
    let (_d, repo) = temp_repo();
    commit_file(&repo, "old.txt", "a\nb\nc\n", "one");
    rename_file(&repo, "old.txt", "new.txt");
    let oid = commit_rename(&repo, "old.txt", "new.txt", "rename");

    let built = diff_at(&repo, oid, stored_settings());
    let back = through_the_store(&repo, oid, &built);

    let renamed = back.files.iter().find(|f| f.status == Delta::Renamed);
    let paths: Vec<&str> = back.files.iter().map(|f| f.path.as_str()).collect();
    assert!(renamed.is_some(), "the rename survived: {paths:?}");
    assert_eq!(renamed.unwrap().old_path.as_deref(), Some("old.txt"));
}

#[test]
fn a_commit_is_shown_under_its_header() {
    let (_d, repo) = temp_repo();
    let oid = commit_file(&repo, "f.txt", "one\n", "subject\n\nbody\n");
    let data = diff_at(&repo, oid, base_settings());
    let rows: Vec<&str> = data.lines.iter().map(|l| l.text.as_str()).collect();
    assert_eq!(rows[0], format!("commit {oid}"));
    assert_eq!(rows[1], "Author: t <t@example.com>");
    assert!(rows[2].starts_with("Date:   "));
    assert_eq!(rows[3..8], ["", "    subject", "    ", "    body", ""]);
    assert_eq!(rows[8], "diff --git a/f.txt b/f.txt");
    assert_eq!(*rows.last().unwrap(), "+one");
    // A commit that is not there shows nothing.
    let none = diff_at(&repo, git2::Oid::zero(), base_settings());
    assert!(none.lines.is_empty());
}
