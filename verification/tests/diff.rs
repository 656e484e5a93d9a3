use gitkay::diff::anchor::{anchor_hint, capture_anchor, resolve_anchor};
use gitkay::diff::content::{
    build_diff_data, commit_header, commit_stats, hash_diff_content, range_header, DiffCounts,
    GitDiff,
};
use gitkay::diff::data::{Delta, DiffData, DiffSettings, FileEntry};
use gitkay::diff::emphasis::{emphasize_rows, MAX_WORD_DIFF_LINE};
use gitkay::diff::files::{
    file_index_at_line, file_index_at_line_opt, file_line_ranges, file_line_starts, next_file_line,
};
use gitkay::diff::hunk::{hunk_at_line, parse_hunk_header, HunkRange};
use gitkay::diff::line::{AnchorSide, DiffLine, LineKind, LineNo};
use gitkay::diff::options::{detect_similar, pathspec_opts, scoped_diff_opts, FindOptions};
use gitkay::diff::patch::{append_diff_body, delta_path_bytes, DeltaInfo, PatchLine};
use gitkay::diff::row::{
    hash_range_ends, is_real_commit, oid_range, oid_staged, oid_uncommitted, CommitKind,
    CommitStats, DiffSource, RangeEnds, RowScope,
};
use gitkay::diff::time::{format_commit_time, local_tz_offset_min, whole_minutes};
use gitkay::oid::Oid;

/// A `FileEntry` fixture: given path + patch start, no rename, zero counts.
fn fe(path: &str, diff_line_idx: Option<usize>) -> FileEntry {
    FileEntry {
        path: path.to_string(),
        old_path: None,
        path_bytes: path.as_bytes().to_vec(),
        old_path_bytes: None,
        status: Delta::Modified,
        is_binary: false,
        additions: 0,
        deletions: 0,
        diff_line_idx,
    }
}

#[test]
fn commit_kind_classifies_the_range_sentinel() {
    assert_eq!(CommitKind::of(oid_range()), CommitKind::Range);
    assert!(CommitKind::of(oid_range()).is_virtual());
    assert!(!is_real_commit(oid_range()));
    // The three sentinels stay distinct.
    assert_ne!(oid_range(), oid_staged());
    assert_ne!(oid_range(), oid_uncommitted());
}

/// The range row is the one kind where the two questions diverge, and collapsing
/// them back into one is the regression to catch. Virtual (its sentinel pins
/// nothing, so every eviction path must still watch it) but NOT hashed after the
/// fact (its endpoints pin it up front, so it can be looked up before it is built).
#[test]
fn virtual_ness_and_when_the_key_is_known_are_different_questions() {
    for kind in [CommitKind::Uncommitted, CommitKind::Staged] {
        assert!(kind.is_virtual());
        assert!(kind.content_hashed_after_diff());
    }
    assert!(CommitKind::Range.is_virtual());
    assert!(!CommitKind::Range.content_hashed_after_diff());

    assert!(!CommitKind::Real.is_virtual());
    assert!(!CommitKind::Real.content_hashed_after_diff());
}

#[test]
fn file_ranges_and_index_lookup() {
    // File "a" at line 2, a no-patch file (None, skipped), file "b" at 5.
    let files = vec![fe("a", Some(2)), fe("bin", None), fe("b", Some(5))];

    // Ranges: ordered by start, no-patch skipped, end = next start / total.
    assert_eq!(file_line_ranges(&files, 9), vec![(0, 2, 5), (2, 5, 9)]);

    // Line → containing file, via the per-diff search structure (header
    // region maps to 0).
    let starts = file_line_starts(&files);
    assert_eq!(file_index_at_line(&starts, 0), 0); // header, before any file
    assert_eq!(file_index_at_line(&starts, 2), 0); // inclusive left edge of "a"
    assert_eq!(file_index_at_line(&starts, 3), 0); // inside "a"
    assert_eq!(file_index_at_line(&starts, 5), 2); // first line of "b"
    assert_eq!(file_index_at_line(&starts, 8), 2); // inside "b"
    assert_eq!(file_index_at_line(&starts, 999), 2); // past the last file → last file

    // The _opt variant distinguishes the header region (no current file) from 0.
    assert_eq!(file_index_at_line_opt(&starts, 0), None); // header → no file
    assert_eq!(file_index_at_line_opt(&starts, 3), Some(0)); // inside "a"
    assert_eq!(file_index_at_line_opt(&starts, 8), Some(2)); // inside "b"

    // Out-of-order entries (with a bodyless file interleaved): the lookup
    // follows line order, not entry order.
    let ooo = file_line_starts(&[fe("x", Some(5)), fe("y", None), fe("z", Some(2))]);
    assert_eq!(file_index_at_line_opt(&ooo, 3), Some(2)); // inside "z"
    assert_eq!(file_index_at_line_opt(&ooo, 6), Some(0)); // inside "x"
}

#[test]
fn next_file_line_steps_between_files() {
    // File starts at lines 2 and 5 (a no-patch file in between is skipped).
    let starts = file_line_starts(&[fe("x", Some(2)), fe("x", None), fe("x", Some(5))]);
    let down = |top| next_file_line(&starts, top, true);
    let up = |top| next_file_line(&starts, top, false);

    // Down → the next file start strictly below `top`.
    assert_eq!(down(0), Some(2)); // header → first file
    assert_eq!(down(2), Some(5)); // at A's top → B
    assert_eq!(down(3), Some(5)); // inside A → B
    assert_eq!(down(5), None); // at/inside the last file → nothing below
    assert_eq!(down(7), None);

    // Up → the nearest file start strictly above `top`.
    assert_eq!(up(0), None); // header → nothing above
    assert_eq!(up(2), None); // at A's top → nothing above
    assert_eq!(up(3), Some(2)); // inside A → A's top
    assert_eq!(up(5), Some(2)); // at B's top → previous file A
    assert_eq!(up(7), Some(5)); // inside B → B's top
}

#[test]
fn unsorted_files_and_clamping() {
    // Input out of order: ranges must still come out start-ordered.
    let files = vec![fe("x", Some(5)), fe("x", Some(2))];
    assert_eq!(file_line_ranges(&files, 9), vec![(1, 2, 5), (0, 5, 9)]);
    // total_lines below a start clamps both ends to total.
    assert_eq!(file_line_ranges(&files, 3), vec![(1, 2, 3), (0, 3, 3)]);
}

#[test]
fn hash_diff_content_tracks_text_changes() {
    let mk = |texts: &[&str]| {
        DiffData::new(
            texts
                .iter()
                .map(|t| DiffLine::new(t, LineKind::Add))
                .collect(),
            Vec::new(),
        )
    };
    let a = mk(&["fn main() {}", "let x = 1;"]);
    assert_eq!(
        hash_diff_content(&a),
        hash_diff_content(&mk(&["fn main() {}", "let x = 1;"]))
    );
    assert_ne!(
        hash_diff_content(&a),
        hash_diff_content(&mk(&["fn main() {}", "let x = 2;"]))
    );
    assert_ne!(
        hash_diff_content(&a),
        hash_diff_content(&mk(&["fn main() {}"]))
    ); // length differs
}

#[test]
fn hash_diff_content_tracks_line_kind() {
    // Same text, different kind: body() strips the +/- marker per kind, so these
    // tokenize differently and must hash differently (else a cached virtual diff
    // would be highlighted from the wrong bodies).
    let one = |text: &str, kind| DiffData::new(vec![DiffLine::new(text, kind)], Vec::new());
    assert_ne!(
        hash_diff_content(&one("+foo", LineKind::Add)),
        hash_diff_content(&one("+foo", LineKind::Context)),
        "identical text but different kind ⇒ different fingerprint"
    );
}

/// True when the line's emphasis was computed AND found changed ranges.
fn emphasized(line: &DiffLine) -> bool {
    line.emphasis.as_ref().is_some_and(|e| !e.is_empty())
}

#[test]
fn word_emphasis_lazy_by_window_and_memoized() {
    // Two change blocks separated by context.
    let mut lines = vec![
        DiffLine::new("-foo bar", LineKind::Del),
        DiffLine::new("+foo baz", LineKind::Add),
        DiffLine::new(" ctx", LineKind::Context),
        DiffLine::new("-a b", LineKind::Del),
        DiffLine::new("+a c", LineKind::Add),
    ];
    // Nothing computes until a window asks for it.
    assert!(lines.iter().all(|l| l.emphasis.is_none()));
    // A window over the first block computes it and leaves the second alone.
    emphasize_rows(&mut lines, 0..2);
    assert!(emphasized(&lines[0]));
    assert!(emphasized(&lines[1]));
    assert!(lines[3].emphasis.is_none());
    assert!(lines[4].emphasis.is_none());
    // Idempotent: a second pass over the same window changes nothing; a
    // window over the rest completes the diff.
    let snapshot: Vec<_> = lines.iter().map(|l| l.emphasis.clone()).collect();
    emphasize_rows(&mut lines, 0..2);
    let after: Vec<_> = lines.iter().map(|l| l.emphasis.clone()).collect();
    assert_eq!(after, snapshot);
    emphasize_rows(&mut lines, 3..5);
    assert!(emphasized(&lines[3]));
    assert!(emphasized(&lines[4]));
}

#[test]
fn word_emphasis_window_extends_to_block_boundaries() {
    // The window covers only the Add half of a pair: the walk must still see
    // the full Del-run above it to pair correctly, and emphasizes both sides.
    let mut lines = vec![
        DiffLine::new(" ctx", LineKind::Context),
        DiffLine::new("-foo bar", LineKind::Del),
        DiffLine::new("+foo baz", LineKind::Add),
    ];
    emphasize_rows(&mut lines, 2..3);
    assert!(emphasized(&lines[1]));
    assert!(emphasized(&lines[2]));
}

#[test]
fn word_emphasis_pairs_equal_blocks_only() {
    // Unequal block (1 del, 2 add): no 1:1 pairing, nothing computes.
    let mut lines = vec![
        DiffLine::new("-x", LineKind::Del),
        DiffLine::new("+y", LineKind::Add),
        DiffLine::new("+z", LineKind::Add),
    ];
    emphasize_rows(&mut lines, 0..3);
    assert!(lines.iter().all(|l| l.emphasis.is_none()));
}

#[test]
fn word_emphasis_marks_overlong_pairs_computed() {
    // A pair over MAX_WORD_DIFF_LINE is skipped, but marked computed-empty so
    // the per-frame window doesn't re-consider it forever.
    let long = format!("-{}", "x".repeat(MAX_WORD_DIFF_LINE + 1));
    let mut lines = vec![
        DiffLine::new(&long, LineKind::Del),
        DiffLine::new("+short", LineKind::Add),
    ];
    emphasize_rows(&mut lines, 0..2);
    assert_eq!(lines[0].emphasis, Some(Vec::new()));
    assert_eq!(lines[1].emphasis, Some(Vec::new()));
}

#[test]
fn parse_hunk_header_reads_both_ranges() {
    assert_eq!(
        parse_hunk_header("@@ -8,6 +12,9 @@ fn context()"),
        Some(HunkRange {
            old_start: 8,
            old_lines: 6,
            new_start: 12,
            new_lines: 9
        })
    );
}

#[test]
fn parse_hunk_header_defaults_omitted_counts_to_one() {
    // git omits the count when it is 1: "@@ -1 +1 @@"
    assert_eq!(
        parse_hunk_header("@@ -1 +1 @@"),
        Some(HunkRange {
            old_start: 1,
            old_lines: 1,
            new_start: 1,
            new_lines: 1
        })
    );
    // A pure insertion has a zero-length old side, which IS spelled out.
    assert_eq!(
        parse_hunk_header("@@ -0,0 +1,3 @@"),
        Some(HunkRange {
            old_start: 0,
            old_lines: 0,
            new_start: 1,
            new_lines: 3
        })
    );
}

#[test]
fn parse_hunk_header_rejects_non_headers() {
    assert_eq!(parse_hunk_header("+ not a header"), None);
    assert_eq!(parse_hunk_header("@@ garbage @@"), None);
    assert_eq!(parse_hunk_header(""), None);
}

#[test]
fn hunk_at_line_finds_the_enclosing_hunk() {
    let lines = vec![
        DiffLine::new("commit abc", LineKind::Meta),
        DiffLine::new("diff --git a/f b/f", LineKind::FileMeta),
        DiffLine::new("--- a/f", LineKind::FileName),
        DiffLine::new("@@ -1,3 +1,3 @@", LineKind::Hunk),
        DiffLine::new(" ctx", LineKind::Context),
        DiffLine::new("+add", LineKind::Add),
        DiffLine::new("@@ -20,3 +20,4 @@", LineKind::Hunk),
        DiffLine::new("+second", LineKind::Add),
    ];
    // A body row resolves to the hunk above it.
    assert_eq!(hunk_at_line(&lines, 5).unwrap().old_start, 1);
    assert_eq!(hunk_at_line(&lines, 7).unwrap().old_start, 20);
    // The hunk header row itself resolves to its own hunk.
    assert_eq!(hunk_at_line(&lines, 6).unwrap().old_start, 20);
}

#[test]
fn hunk_at_line_stops_at_the_file_boundary() {
    let lines = vec![
        DiffLine::new("@@ -1,3 +1,3 @@", LineKind::Hunk),
        DiffLine::new(" ctx", LineKind::Context),
        DiffLine::new("diff --git a/g b/g", LineKind::FileMeta),
        DiffLine::new("--- a/g", LineKind::FileName),
        // Binary bodies print as Context ("Binary files ... differ") with no hunk.
        DiffLine::new("Binary files a/g and b/g differ", LineKind::Context),
    ];
    // Must NOT walk back past the file header into the previous file's hunk.
    assert_eq!(hunk_at_line(&lines, 4), None);
    assert_eq!(hunk_at_line(&lines, 2), None);
    // Header rows above any file have no hunk either.
    assert_eq!(hunk_at_line(&[], 0), None);
}

#[test]
fn parse_hunk_header_is_multibyte_safe() {
    // The trailing context text is never sliced: a multibyte tail is no matter.
    assert_eq!(
        parse_hunk_header("@@ -1,2 +1,2 @@ fn 日本語() {"),
        Some(HunkRange {
            old_start: 1,
            old_lines: 2,
            new_start: 1,
            new_lines: 2,
        })
    );
}

fn oid(b: u8) -> Oid {
    Oid::from_bytes([b; 20])
}

fn texts(lines: &[DiffLine]) -> Vec<&str> {
    lines.iter().map(|l| l.text.as_str()).collect()
}

#[test]
fn the_name_of_a_row_tells_its_kind() {
    let ends = RangeEnds { base: oid(1), head: oid(2) };
    for (source, kind) in [
        (DiffSource::Uncommitted, CommitKind::Uncommitted),
        (DiffSource::Staged, CommitKind::Staged),
        (DiffSource::Range(ends), CommitKind::Range),
        (DiffSource::Commit(oid(3)), CommitKind::Real),
    ] {
        assert_eq!(source.kind(), kind);
        assert_eq!(CommitKind::of(source.oid()), kind);
        assert_eq!(is_real_commit(source.oid()), kind == CommitKind::Real);
    }
    assert!(DiffSource::Staged.range().is_none());
    assert_eq!(DiffSource::Range(ends).range().unwrap().head, oid(2));
    assert!(RowScope::new(DiffSource::Staged).paths.is_empty());
}

#[test]
fn the_ends_of_a_range_are_told_apart() {
    let h = |a: u8, b: u8| hash_range_ends(RangeEnds { base: oid(a), head: oid(b) });
    assert_eq!(h(1, 2), h(1, 2));
    assert_ne!(h(1, 2), h(2, 1));
    assert_ne!(h(1, 2), h(1, 3));
}

#[test]
fn times_are_shown_in_their_own_offset() {
    assert_eq!(format_commit_time(0, 0, true), "1970-01-01 00:00:00");
    assert_eq!(format_commit_time(1_700_000_000, 60, false), "2023-11-14 23:13");
    assert_eq!(format_commit_time(1_700_000_000, -330, true), "2023-11-14 16:43:20");
    // No such time, no such offset.
    assert_eq!(format_commit_time(i64::MAX, 0, true), "");
    assert_eq!(format_commit_time(0, 24 * 60, true), "");
    assert_eq!(format_commit_time(0, i32::MAX, false), "");
    assert_eq!(format_commit_time(0, i32::MIN, false), "");
    assert_eq!(format_commit_time(0, 24 * 60 - 1, false), "1970-01-01 23:59");
}

#[test]
fn an_offset_is_cut_to_whole_minutes() {
    assert_eq!(whole_minutes(3_599), 59);
    assert_eq!(whole_minutes(-3_599), -59);
    assert_eq!(whole_minutes(-3_600), -60);
    assert!(local_tz_offset_min().abs() < 24 * 60);
}

#[test]
fn a_commit_is_headed_by_its_name_author_date_and_message() {
    let header = commit_header(oid(0xab), "A <a@b.c>", "2024-01-02 03:04:05", "one\r\n\ntwo\n");
    let name = format!("commit {}", "ab".repeat(20));
    assert_eq!(
        texts(&header),
        vec![
            name.as_str(),
            "Author: A <a@b.c>",
            "Date:   2024-01-02 03:04:05",
            "",
            "    one",
            "    ",
            "    two",
            "",
        ]
    );
    assert!(header[3].kind == LineKind::Blank && header[4].kind == LineKind::Meta);
    let undated = commit_header(oid(1), "A", "", "m");
    assert_eq!(texts(&undated)[1..], ["Author: A", "", "    m", ""]);
}

#[test]
fn a_range_is_headed_by_its_ends() {
    let ends = RangeEnds { base: oid(0x12), head: oid(0x34) };
    assert_eq!(
        texts(&range_header(ends, "from here", "to there")),
        vec![
            "Range 121212121212..343434343434",
            "  from  12121212  from here",
            "  to    34343434  to there",
            "",
        ]
    );
}

fn delta(status: Delta, old: Option<&str>, new: Option<&str>) -> DeltaInfo {
    DeltaInfo {
        status,
        new_path: new.map(|p| p.as_bytes().to_vec()),
        old_path: old.map(|p| p.as_bytes().to_vec()),
        is_binary: false,
    }
}

fn patch_line(path: &str, origin: char, old: u32, new: u32, content: &[u8]) -> PatchLine {
    let number = |n: u32| if n == 0 { None } else { Some(n) };
    PatchLine {
        path: path.as_bytes().to_vec(),
        origin,
        old_lineno: number(old),
        new_lineno: number(new),
        content: content.to_vec(),
    }
}

#[test]
fn the_path_of_a_change_is_the_new_one() {
    assert_eq!(delta_path_bytes(&delta(Delta::Renamed, Some("a"), Some("b"))), b"b".to_vec());
    assert_eq!(delta_path_bytes(&delta(Delta::Deleted, Some("a"), None)), b"a".to_vec());
    assert!(delta_path_bytes(&delta(Delta::Modified, None, None)).is_empty());
}

#[test]
fn a_patch_becomes_rows_and_counts() {
    let deltas = [
        delta(Delta::Modified, Some("a"), Some("a")),
        delta(Delta::Renamed, Some("o"), Some("b")),
        delta(Delta::Copied, Some("c"), Some("c")),
    ];
    let patch = [
        patch_line("a", 'F', 0, 0, b"diff --git a/a b/a\nindex 1..2\n--- a/a\n+++ b/a\n"),
        patch_line("a", 'H', 0, 0, b"@@ -1,2 +1,2 @@\n"),
        patch_line("a", ' ', 1, 1, b"same\n"),
        patch_line("a", '-', 2, 0, b"old\xff\n"),
        patch_line("a", '+', 0, 2, b"diff --git\n"),
        patch_line("a", '<', 2, 2, b"\\ No newline at end of file\n"),
        patch_line("b", 'F', 0, 0, b"diff --git a/o b/b\n"),
        patch_line("b", '+', 0, 1, b"x\n"),
        patch_line("b", '+', 0, 0, b"y\n"),
    ];
    let mut lines = vec![DiffLine::new("head", LineKind::Meta)];
    let mut files = Vec::new();
    append_diff_body(&mut lines, &mut files, &deltas, Some(" a | 2 +-\n 1 file\n"), &patch, true);
    let rows: Vec<(&str, LineKind)> = lines.iter().map(|l| (l.text.as_str(), l.kind)).collect();
    assert_eq!(
        rows,
        vec![
            ("head", LineKind::Meta),
            (" a | 2 +-", LineKind::Stat),
            (" 1 file", LineKind::Stat),
            ("", LineKind::Blank),
            ("diff --git a/a b/a", LineKind::FileMeta),
            ("index 1..2", LineKind::FileMeta),
            ("--- a/a", LineKind::FileName),
            ("+++ b/a", LineKind::FileName),
            ("@@ -1,2 +1,2 @@", LineKind::Hunk),
            ("same", LineKind::Context),
            ("-old\u{fffd}", LineKind::Del),
            ("+diff --git", LineKind::Add),
            ("\\ No newline at end of file", LineKind::Context),
            ("diff --git a/o b/b", LineKind::FileMeta),
            ("+x", LineKind::Add),
            ("+y", LineKind::Add),
        ]
    );
    let numbers: Vec<(Option<u32>, Option<u32>)> = lines[9..]
        .iter()
        .map(|l| (l.old_lineno.map(LineNo::get), l.new_lineno.map(LineNo::get)))
        .collect();
    assert_eq!(
        numbers,
        vec![
            (Some(1), Some(1)),
            (Some(2), None),
            (None, Some(2)),
            (None, None),
            (None, None),
            (None, Some(1)),
            (None, None),
        ]
    );
    assert_eq!((files[0].additions, files[0].deletions), (1, 1));
    assert_eq!((files[1].additions, files[1].deletions), (2, 0));
    assert_eq!(files[0].diff_line_idx, Some(4));
    assert_eq!(files[1].diff_line_idx, Some(13));
    assert_eq!(files[2].diff_line_idx, None);
    // A rename keeps the path it comes from; one that names the same path has none.
    assert_eq!(files[1].old_path.as_deref(), Some("o"));
    assert_eq!(files[1].old_path_bytes, Some(b"o".to_vec()));
    assert_eq!(files[2].old_path, None);
}

#[test]
fn without_counts_the_block_is_left_out_with_its_blank() {
    let diff = Some(GitDiff {
        deltas: vec![delta(Delta::Modified, Some("a"), Some("a"))],
        stats: Some("never shown\n".to_owned()),
        patch: vec![patch_line("a", '+', 0, 1, b"x\n")],
    });
    let settings = DiffSettings {
        context: 3,
        ignore_ws: false,
        show_stats: false,
        detect_renames: false,
        detect_copies: false,
    };
    let head = || vec![DiffLine::new("head", LineKind::Meta)];
    let hidden = build_diff_data(head(), &diff, settings);
    assert_eq!(texts(&hidden.lines), vec!["head", "+x"]);
    assert_eq!(hidden.max_chars, 4);
    let shown = build_diff_data(head(), &diff, DiffSettings { show_stats: true, ..settings });
    assert_eq!(texts(&shown.lines), vec!["head", "never shown", "", "+x"]);
    // A diff that could not be made shows nothing at all.
    let failed = build_diff_data(head(), &None, settings);
    assert!(failed.lines.is_empty() && failed.files.is_empty() && failed.max_chars == 0);
}

#[test]
fn counts_of_lines_are_there_only_where_asked_for() {
    assert_eq!(commit_stats(DiffCounts::Files(3)), CommitStats { files: 3, lines: None });
    assert_eq!(
        commit_stats(DiffCounts::Lines { files: 2, insertions: 5, deletions: 7 }),
        CommitStats { files: 2, lines: Some((5, 7)) }
    );
}

#[test]
fn options_carry_the_settings_and_paths() {
    let settings = DiffSettings {
        context: 7,
        ignore_ws: true,
        show_stats: false,
        detect_renames: true,
        detect_copies: false,
    };
    let paths = vec!["src".to_owned(), "*.rs".to_owned()];
    let opts = scoped_diff_opts(settings, &paths);
    assert_eq!(opts.context_lines, Some(7));
    assert!(opts.ignore_whitespace && !opts.reverse && !opts.literal_paths);
    assert_eq!(opts.pathspecs, vec![b"src".to_vec(), b"*.rs".to_vec()]);
    let probe = pathspec_opts(&paths);
    assert_eq!(probe.context_lines, None);
    assert!(!probe.ignore_whitespace);
    assert_eq!(probe.pathspecs.len(), 2);
    assert_eq!(
        detect_similar(settings),
        Some(FindOptions { renames: true, copies: false })
    );
    let off = DiffSettings { detect_renames: false, ..settings };
    assert_eq!(detect_similar(off), None);
}

/// Two files, `a` with the lines 1 to 3 changed and `b` with the lines 10 and 11.
fn shown() -> DiffData {
    let row = |text: &str, kind, old: u32, new: u32| {
        DiffLine::with_linenos(text, kind, LineNo::new(old), LineNo::new(new))
    };
    let lines = vec![
        DiffLine::new("commit", LineKind::Meta),
        DiffLine::new("diff a", LineKind::FileMeta),
        DiffLine::new("@@ -1,2 +1,2 @@", LineKind::Hunk),
        row("ctx", LineKind::Context, 1, 1),
        row("-x", LineKind::Del, 2, 0),
        row("+y", LineKind::Add, 0, 2),
        DiffLine::new("diff b", LineKind::FileMeta),
        DiffLine::new("@@ -10,1 +10,2 @@", LineKind::Hunk),
        row("ctx", LineKind::Context, 10, 10),
        row("+z", LineKind::Add, 0, 11),
    ];
    DiffData::new(lines, vec![fe("a", Some(1)), fe("b", Some(6))])
}

#[test]
fn an_anchor_leads_back_to_where_it_was_taken() {
    let data = shown();
    for top in 0..data.lines.len() {
        let anchor = capture_anchor(&data.lines, &data.files, top, 4).expect("an anchor");
        let back = resolve_anchor(&anchor, &data.lines, &data.files);
        // Past the last numbered row the view ends up on that row.
        assert_eq!(back, top.min(9), "from row {top}");
        // The file that the view lands in; above the first file there is none.
        let hint = anchor_hint(&anchor, &data.lines, &data.files);
        assert_eq!(hint.map(|h| h.0), if top < 1 { None } else { Some(usize::from(top >= 6)) });
    }
    let deleted = capture_anchor(&data.lines, &data.files, 4, 0).expect("an anchor");
    assert_eq!((deleted.side, deleted.lineno.get(), deleted.delta), (AnchorSide::Old, 2, 0));
    assert_eq!(deleted.path, b"a".to_vec());
}

#[test]
fn line_numbers_start_at_one() {
    assert!(LineNo::new(0).is_none());
    assert_eq!(LineNo::new(1).map(LineNo::get), Some(1));
    let data = shown();
    assert_eq!(data.lines[3].lineno_on(AnchorSide::Old), LineNo::new(1));
    assert_eq!(data.lines[4].lineno_on(AnchorSide::New), None);
    assert_eq!(data.lines[4].body(), "x");
    assert_eq!(data.lines[2].body(), "@@ -1,2 +1,2 @@");
    assert!(data.lines[3].kind.is_code() && !data.lines[2].kind.is_code());
}

#[test]
fn the_widest_line_is_counted_in_characters() {
    let data = DiffData::new(
        vec![
            DiffLine::new("ééé", LineKind::Meta),
            DiffLine::new("four", LineKind::Meta),
        ],
        Vec::new(),
    );
    assert_eq!(data.max_chars, 4);
    assert_eq!(DiffData::empty().max_chars, 0);
}

#[test]
fn emphasis_changes_nothing_else() {
    let mut data = shown();
    let before: Vec<String> = texts(&data.lines).iter().map(|t| t.to_string()).collect();
    let rows = 0..data.lines.len();
    emphasize_rows(&mut data.lines, rows);
    assert_eq!(texts(&data.lines), before);
    assert_eq!(data.lines[4].emphasis, Some(vec![0..1]));
    assert_eq!(data.lines[5].emphasis, Some(vec![0..1]));
    assert_eq!(data.lines[3].emphasis, None);
    assert!(data.lines.iter().all(|l| l.spans.is_none()));
}

#[test]
fn ranges_of_files_tile_the_patch() {
    let files = [fe("a", Some(1)), fe("none", None), fe("b", Some(6))];
    let ranges = file_line_ranges(&files, 10);
    assert_eq!(ranges, vec![(0, 1, 6), (2, 6, 10)]);
    let starts = file_line_starts(&files);
    assert_eq!(starts, vec![(1, 0), (6, 2)]);
    assert_eq!(file_index_at_line(&[], 4), 0);
    assert_eq!(file_index_at_line_opt(&starts, 6), Some(2));
    assert_eq!(next_file_line(&starts, 6, false), Some(1));
}

#[test]
fn hunk_headers_with_numbers_out_of_range_are_none() {
    assert_eq!(parse_hunk_header("@@ -4294967296,1 +1,1 @@"), None);
    assert_eq!(parse_hunk_header("@@ -1,1 1,1 @@"), None);
    assert_eq!(parse_hunk_header("@@ -1,2,3 +4,5 @@"), None);
    assert_eq!(parse_hunk_header("@@ -+1,2 +4,5 @@"), None);
    assert_eq!(parse_hunk_header("@@ -1,2 +4,+5 @@"), None);
    assert_eq!(parse_hunk_header("@@ -1,2 +4,5 more @@"), None);
    assert_eq!(parse_hunk_header("@@ -1,2  +4,5 @@"), None);
    assert_eq!(
        parse_hunk_header("@@ -4294967295,0 +7 @@").map(|h| (h.old_start, h.old_lines, h.new_lines)),
        Some((u32::MAX, 0, 1))
    );
}
