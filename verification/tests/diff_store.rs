use std::sync::Arc;

use gitkay::diff::data::{Delta, DiffData, DiffSettings, FileEntry};
use gitkay::diff::line::{DiffLine, LineKind, LineNo};
use gitkay::diff::row::{DiffSource, RangeEnds, RowScope};
use gitkay::diff_store::codec::{
    decode, delta_from_tag, delta_tag, encode, kind_from_tag, kind_tag, put_bytes, put_opt_bytes,
    Reader, FILE_MIN_BYTES, LINE_MIN_BYTES, MAGIC,
};
use gitkay::diff_store::key::{
    attrs_id, config_id, context_digest, context_digest_from, diff_keys, entry_key,
    global_attr_file, join_path, xdg_config_home, StoreContext,
};
use gitkay::diff_store::prune::{file_fate, FileFate, Pruner, StoredFile, TEMP_MAX_AGE};
use gitkay::diff_store::store::{
    temp_name, write_atomic, DiffStore, IoError, Loaded, WriteNext, WriteStep, TEMP_NAMES,
};
use gitkay::oid::Oid;

/// A `FileEntry` fixture: given path + patch start, no rename, zero counts.
fn file_entry(path: &str, diff_line_idx: Option<usize>) -> FileEntry {
    FileEntry {
        path: path.to_string(),
        old_path: None,
        path_bytes: path.as_bytes().to_vec(),
        old_path_bytes: None,
        status: Delta::Modified,
        is_binary: false,
        additions: 0,
        deletions: 0,
        diff_line_idx,
    }
}

fn line(text: &str, kind: LineKind, old: u32, new: u32) -> DiffLine {
    DiffLine {
        text: Arc::new(text.to_string()),
        kind,
        spans: None,
        emphasis: None,
        old_lineno: LineNo::new(old),
        new_lineno: LineNo::new(new),
    }
}

/// emphasis are deliberately NOT carried — they load as `None`, which is the
/// `DiffOnly` state the rest of the app already handles.
#[test]
fn a_diff_round_trips_through_the_codec() {
    let data = DiffData::with_max_chars(
        vec![
            line("diff --git a/x.rs b/x.rs", LineKind::FileMeta, 0, 0),
            line("@@ -1,2 +1,2 @@", LineKind::Hunk, 0, 0),
            line("-old", LineKind::Del, 1, 0),
            line("+new", LineKind::Add, 0, 1),
            line(" ctx", LineKind::Context, 2, 2),
        ],
        vec![FileEntry {
            path: "x.rs".to_string(),
            old_path: Some("y.rs".to_string()),
            path_bytes: b"x.rs".to_vec(),
            old_path_bytes: Some(b"y.rs".to_vec()),
            status: Delta::Renamed,
            is_binary: false,
            additions: 1,
            deletions: 1,
            diff_line_idx: Some(0),
        }],
        77,
    );

    let back = decode(&encode(&data)).expect("decodes");

    assert_eq!(back.max_chars, 77);
    assert_eq!(back.lines.len(), data.lines.len());
    for (a, b) in back.lines.iter().zip(&data.lines) {
        assert_eq!(a.text, b.text);
        assert_eq!(a.kind, b.kind);
        assert_eq!(a.old_lineno, b.old_lineno);
        assert_eq!(a.new_lineno, b.new_lineno);
        assert!(a.spans.is_none() && a.emphasis.is_none());
    }
    assert_eq!(back.files.len(), 1);
    let f = &back.files[0];
    assert_eq!(f.path, "x.rs");
    assert_eq!(f.old_path.as_deref(), Some("y.rs"));
    assert_eq!(f.path_bytes, b"x.rs");
    assert_eq!(f.old_path_bytes.as_deref(), Some(&b"y.rs"[..]));
    assert_eq!(f.status, Delta::Renamed);
    assert_eq!((f.additions, f.deletions), (1, 1));
    assert_eq!(f.diff_line_idx, Some(0));
}

/// A non-UTF-8 filename is legal in git and on Linux. `path_bytes` is the
/// file's real identity — the display `path` already went through
/// `from_utf8_lossy` — so the bytes must survive exactly. A lossy round trip
/// here would confuse two files.
#[test]
fn a_non_utf8_path_survives_as_bytes() {
    let raw = vec![0x66, 0x6f, 0xff, 0x6f]; // "fo\xffo"
    let data = DiffData::with_max_chars(
        vec![],
        vec![FileEntry {
            path: String::from_utf8_lossy(&raw).into_owned(),
            old_path: None,
            path_bytes: raw.clone(),
            old_path_bytes: None,
            status: Delta::Added,
            is_binary: false,
            additions: 0,
            deletions: 0,
            diff_line_idx: None,
        }],
        0,
    );
    let back = decode(&encode(&data)).expect("decodes");
    assert_eq!(back.files[0].path_bytes, raw);
    assert_eq!(back.files[0].diff_line_idx, None);
}

/// Every `LineKind` and every `Delta` has a tag of its own.
#[test]
fn every_kind_and_status_tag_round_trips() {
    for k in [
        LineKind::Context,
        LineKind::Add,
        LineKind::Del,
        LineKind::Hunk,
        LineKind::Meta,
        LineKind::FileMeta,
        LineKind::FileName,
        LineKind::Stat,
        LineKind::Blank,
    ] {
        assert_eq!(kind_from_tag(kind_tag(k)), Some(k), "{k:?}");
    }
    for d in [
        Delta::Unmodified,
        Delta::Added,
        Delta::Deleted,
        Delta::Modified,
        Delta::Renamed,
        Delta::Copied,
        Delta::Ignored,
        Delta::Untracked,
        Delta::Typechange,
        Delta::Unreadable,
        Delta::Conflicted,
    ] {
        assert_eq!(delta_from_tag(delta_tag(d)), Some(d), "{d:?}");
    }
}

/// Garbage never panics and never half-decodes: a truncated, wrong-magic or
/// wrong-version payload is simply not an entry.
#[test]
fn a_corrupt_payload_decodes_to_none() {
    let good = encode(&DiffData::with_max_chars(vec![], vec![], 0));
    assert!(decode(&good).is_some(), "control");

    assert!(decode(b"").is_none(), "empty");
    assert!(decode(b"not-gitkay-at-all").is_none(), "wrong magic");
    for cut in 1..good.len() {
        assert!(decode(&good[..cut]).is_none(), "truncated at {cut}");
    }
    let mut wrong_version = good;
    wrong_version[MAGIC.len()] = wrong_version[MAGIC.len()].wrapping_add(1);
    assert!(decode(&wrong_version).is_none(), "wrong version");
}

#[test]
fn bytes_with_more_behind_them_or_another_front_decode_to_none() {
    let data = DiffData::with_max_chars(vec![], vec![file_entry("a", Some(3))], 0);
    let good = encode(&data);
    let mut longer = good.clone();
    longer.push(0);
    assert!(decode(&longer).is_none());
    for i in 0..MAGIC.len() + 2 {
        let mut other = good.clone();
        other[i] ^= 1;
        assert!(decode(&other).is_none(), "another front at {i}");
    }
}

#[test]
fn any_byte_but_zero_marks_a_binary_file() {
    let good = encode(&DiffData::with_max_chars(vec![], vec![file_entry("a", Some(3))], 0));
    // The mark of a binary file stands before three numbers of eight bytes.
    let mark = good.len() - 25;
    assert_eq!(good[mark], 0);
    for byte in [0, 1, 2, 255] {
        let mut bytes = good.clone();
        bytes[mark] = byte;
        assert_eq!(decode(&bytes).unwrap().files[0].is_binary, byte != 0);
    }
}

/// A corrupt COUNT must be refused against what the remaining bytes could
/// actually DESCRIBE, not merely against their number.
///
/// Tested on `count` directly rather than through `decode`, deliberately: a
/// too-large count makes `decode` return `None` either way — it simply runs
/// out of data — so a round-trip assertion passes with or without the bound
/// while the oversized `Vec::with_capacity` still happened. The reserve is
/// not observable from outside, so the bound itself is what gets pinned.
#[test]
fn a_count_is_bounded_by_what_the_remaining_bytes_could_describe() {
    // 24 bytes left, elements costing 8 each: 3 fit, 4 cannot.
    let bytes = |n: u64| {
        let mut v = n.to_le_bytes().to_vec();
        v.extend_from_slice(&[0u8; 24]);
        v
    };
    assert_eq!(Reader::new(&bytes(3)).count(8), Some(3), "3 × 8 = 24, fits");
    assert_eq!(Reader::new(&bytes(4)).count(8), None, "4 × 8 = 32, cannot");
    // The count is not held against the BYTES remaining.
    assert_eq!(Reader::new(&bytes(24)).count(8), None, "24 × 8, cannot");
    // No overflow panic on a huge count, and no wrap into a small number.
    assert_eq!(Reader::new(&bytes(u64::MAX)).count(8), None, "saturates");
}

/// The floors `count` divides by must be the encoder's ACTUAL minimum. Too
/// high silently rejects a legitimately dense entry as corrupt (rebuilt and
/// rewritten every launch); too low weakens the bound it exists to provide.
/// Measured against the encoder, so a field added to either record moves the
/// floor here rather than leaving a hand-copied number behind.
#[test]
fn the_minimum_element_sizes_match_the_encoder() {
    let base = encode(&DiffData::with_max_chars(vec![], vec![], 0)).len();
    let one_line = encode(&DiffData::with_max_chars(
        vec![line("", LineKind::Context, 0, 0)],
        vec![],
        0,
    ))
    .len();
    assert_eq!(one_line - base, LINE_MIN_BYTES, "line floor");

    let one_file = encode(&DiffData::with_max_chars(
        vec![],
        vec![file_entry("", None)],
        0,
    ))
    .len();
    assert_eq!(one_file - base, FILE_MIN_BYTES, "file floor");
}

/// The bound must still admit a legitimately dense entry, or a real diff
/// would be rejected as corrupt and rebuilt on every launch. Empty-text
/// context lines are the densest a diff gets: nothing but the fixed fields.
#[test]
fn the_count_bound_admits_a_real_dense_diff() {
    let lines: Vec<DiffLine> = (0..500)
        .map(|_| line("", LineKind::Context, 1, 1))
        .collect();
    let data = DiffData::with_max_chars(lines, vec![], 0);
    assert_eq!(decode(&encode(&data)).expect("decodes").lines.len(), 500);

    // And the file side, whose minimum is larger (two paths plus two
    // optional-path tags).
    let files: Vec<FileEntry> = (0..200)
        .map(|_| file_entry("", None))
        .collect();
    let data = DiffData::with_max_chars(vec![], files, 0);
    assert_eq!(decode(&encode(&data)).expect("decodes").files.len(), 200);
}

/// The on-disk width of every integer is fixed by the format, never by the
/// host's `usize`. A store on a shared home read by the other word size would
/// otherwise decode as corrupt, so every entry is deleted and rebuilt every
/// launch — a silent, permanent cache miss rather than a visible failure.
#[test]
fn the_format_uses_no_native_width_integers() {
    let data = DiffData::with_max_chars(
        vec![line("x", LineKind::Add, 0, 7)],
        vec![file_entry("f", Some(0))],
        9,
    );
    let mut want: Vec<u8> = Vec::new();
    want.extend_from_slice(&MAGIC);
    want.extend_from_slice(&3u16.to_le_bytes());
    want.extend_from_slice(&9u64.to_le_bytes()); // max_chars
    want.extend_from_slice(&1u64.to_le_bytes()); // lines
    want.push(1);
    want.extend_from_slice(&1u64.to_le_bytes());
    want.push(b'x');
    want.extend_from_slice(&0u32.to_le_bytes());
    want.extend_from_slice(&7u32.to_le_bytes());
    want.extend_from_slice(&1u64.to_le_bytes()); // files
    want.extend_from_slice(&1u64.to_le_bytes());
    want.push(b'f');
    want.push(0);
    want.extend_from_slice(&1u64.to_le_bytes());
    want.push(b'f');
    want.push(0);
    want.push(3);
    want.push(0);
    want.extend_from_slice(&0u64.to_le_bytes());
    want.extend_from_slice(&0u64.to_le_bytes());
    want.extend_from_slice(&1u64.to_le_bytes()); // diff_line_idx
    assert_eq!(encode(&data), want);
}

/// Whatever else a file holds, bytes behind the last entry make it none.
#[test]
fn bytes_behind_the_end_decode_to_none() {
    let mut bytes = encode(&DiffData::with_max_chars(vec![], vec![file_entry("f", None)], 1));
    assert!(decode(&bytes).is_some());
    bytes.push(0);
    assert!(decode(&bytes).is_none());
}

/// Colours and emphasis are not stored: diffs that differ in them alone spell the same bytes.
#[test]
fn colours_are_not_stored() {
    let plain = DiffData::with_max_chars(vec![line("+x", LineKind::Add, 0, 1)], vec![], 2);
    let mut coloured = line("+x", LineKind::Add, 0, 1);
    coloured.spans = Some(vec![]);
    coloured.emphasis = Some(vec![0..1]);
    let coloured = DiffData::with_max_chars(vec![coloured], vec![], 2);
    assert_eq!(encode(&plain), encode(&coloured));
}

#[test]
fn runs_are_told_apart() {
    let two = |a: &[u8], b: &[u8]| {
        let mut out = Vec::new();
        put_bytes(&mut out, a);
        put_bytes(&mut out, b);
        out
    };
    assert_ne!(two(b"ab", b"c"), two(b"a", b"bc"));
    let opt = |b: Option<&[u8]>| {
        let mut out = Vec::new();
        put_opt_bytes(&mut out, b);
        out
    };
    assert_eq!(opt(None), vec![0]);
    assert_ne!(opt(None), opt(Some(b"")));
}

fn settings() -> DiffSettings {
    DiffSettings {
        context: 3,
        ignore_ws: false,
        show_stats: true,
        detect_renames: true,
        detect_copies: false,
    }
}

fn oid(b: u8) -> Oid {
    Oid::from_bytes([b; 20])
}

/// What a repository without attributes or settings of its own is known by.
fn repo_context(path: &str, attrs: &str, config: &[Option<String>]) -> StoreContext {
    StoreContext::of(
        path.as_bytes(),
        &attrs_id(attrs.as_bytes(), b"", b""),
        &config_id(Some(config)),
        "1.0.0",
    )
    .expect("hashable")
}

fn no_config() -> Vec<Option<String>> {
    diff_keys().iter().map(|_| None).collect()
}

fn temp_context() -> StoreContext {
    repo_context("/repo/.git/", "", &no_config())
}

fn key_for(ctx: &StoreContext, paths: &[&str], s: DiffSettings) -> Oid {
    let owned: Vec<String> = paths.iter().map(|p| (*p).to_string()).collect();
    entry_key(ctx, DiffSource::Commit(oid(1)), &owned, s).expect("a real commit is persistable")
}

#[test]
fn the_pathspec_is_part_of_the_key() {
    let ctx = temp_context();
    assert_ne!(
        key_for(&ctx, &[], settings()),
        key_for(&ctx, &["sub"], settings()),
        "an unscoped run must not be served a scoped entry"
    );
    assert_ne!(key_for(&ctx, &["ab", "c"], settings()), key_for(&ctx, &["a", "bc"], settings()));
}

#[test]
fn the_attribute_sources_are_part_of_the_key() {
    let before = key_for(&temp_context(), &[], settings());
    let changed = repo_context("/repo/.git/", "*.oml -diff\n", &no_config());
    let after = key_for(&changed, &[], settings());
    assert_ne!(before, after, "a changed .gitattributes must miss");
    // The same rule in another of the sources is another fingerprint.
    assert_ne!(attrs_id(b"x", b"", b""), attrs_id(b"", b"x", b""));
    assert_ne!(attrs_id(b"", b"x", b""), attrs_id(b"", b"", b"x"));
}

#[test]
fn two_repos_do_not_share_an_entry() {
    let a = repo_context("/a/.git/", "", &no_config());
    let b = repo_context("/b/.git/", "", &no_config());
    assert_ne!(
        key_for(&a, &[], settings()),
        key_for(&b, &[], settings()),
        "one repo's entry must never be served to another"
    );
}

#[test]
fn every_diff_setting_changes_the_key() {
    let ctx = temp_context();
    let base = key_for(&ctx, &[], settings());
    let variants = [
        ("context", DiffSettings { context: 9, ..settings() }),
        ("ignore_ws", DiffSettings { ignore_ws: true, ..settings() }),
        ("show_stats", DiffSettings { show_stats: false, ..settings() }),
        ("detect_renames", DiffSettings { detect_renames: false, ..settings() }),
        ("detect_copies", DiffSettings { detect_copies: true, ..settings() }),
    ];
    for (name, v) in variants {
        assert_ne!(base, key_for(&ctx, &[], v), "{name} left the key alone");
    }
}

#[test]
fn the_repo_config_is_part_of_the_key() {
    let before = key_for(&temp_context(), &[], settings());
    let limit = diff_keys()
        .iter()
        .position(|k| *k == "diff.renamelimit")
        .expect("listed");
    let mut config = no_config();
    config[limit] = Some("1".to_owned());
    assert_ne!(
        before,
        key_for(&repo_context("/repo/.git/", "", &config), &[], settings()),
        "a changed diff.renameLimit must miss"
    );
    // Empty is not absent, and unreadable is neither.
    config[limit] = Some(String::new());
    assert_ne!(config_id(Some(&config)), config_id(Some(&no_config())));
    assert_ne!(config_id(None), config_id(Some(&no_config())));
}

#[test]
fn the_gitkay_version_is_part_of_the_key() {
    assert_ne!(
        context_digest(b"/repo", b"", b"", "1.0.0"),
        context_digest(b"/repo", b"", b"", "some-other-gitkay-version"),
        "a different build must not be served this build's entries"
    );
}

/// The key is git's own name for a blob of those bytes.
#[test]
fn a_digest_is_the_name_of_a_blob() {
    let mut bytes = Vec::new();
    for part in [&b"/repo"[..], b"attrs", b"config", b"1.0.0"] {
        put_bytes(&mut bytes, part);
    }
    let name = git2::Oid::hash_object(git2::ObjectType::Blob, &bytes).unwrap();
    let digest = context_digest(b"/repo", b"attrs", b"config", "1.0.0").expect("hashable");
    assert_eq!(&digest[..], name.as_bytes());
}

#[test]
fn the_global_attributes_file_falls_back_to_xdg() {
    let xdg = &b"/xdg"[..];
    assert_eq!(
        global_attr_file(None, Some(xdg)),
        Some(b"/xdg/git/attributes".to_vec()),
        "unset: XDG is the default"
    );
    assert_eq!(
        global_attr_file(Some(b"/set/attrs".to_vec()), Some(xdg)),
        Some(b"/set/attrs".to_vec()),
        "set: replaces the default, never read alongside it"
    );
    assert_eq!(global_attr_file(None, None), None, "no home, no file");
}

#[test]
fn the_home_directory_stands_in_for_a_relative_or_missing_one() {
    let xdg = |x: Option<&str>, h: Option<&str>| {
        xdg_config_home(x.map(|s| s.as_bytes().to_vec()), h.map(|s| s.as_bytes().to_vec()))
    };
    assert_eq!(xdg(Some("/x"), Some("/h")), Some(b"/x".to_vec()));
    assert_eq!(xdg(Some("x"), Some("/h")), Some(b"/h/.config".to_vec()));
    assert_eq!(xdg(None, Some("/h/")), Some(b"/h/.config".to_vec()));
    assert_eq!(xdg(None, None), None);
    assert_eq!(join_path(b"", "a"), b"a".to_vec());
}

#[test]
fn a_context_that_cannot_be_hashed_disables_the_store() {
    assert!(
        context_digest_from(&[], |_| Err(git2::Error::from_str("no odb"))).is_none(),
        "no digest rather than a zero one shared by every repo"
    );
    assert_eq!(context_digest_from(&[1], |_| Ok(oid(7))), Some([7u8; 20]));
}

#[test]
fn only_a_real_commit_gets_a_key() {
    let ctx = temp_context();
    assert!(entry_key(&ctx, DiffSource::Uncommitted, &[], settings()).is_none());
    assert!(entry_key(&ctx, DiffSource::Staged, &[], settings()).is_none());
    let ends = RangeEnds { base: oid(1), head: oid(2) };
    assert!(entry_key(&ctx, DiffSource::Range(ends), &[], settings()).is_none());
    assert!(entry_key(&ctx, DiffSource::Commit(oid(1)), &[], settings()).is_some());
}

fn temp_store() -> DiffStore {
    DiffStore::at(b"/cache/gitkay/diffs".to_vec(), temp_context(), 0)
}

fn scope_of(o: Oid) -> RowScope {
    RowScope::new(DiffSource::Commit(o))
}

#[test]
fn what_was_saved_is_what_is_loaded() {
    let store = temp_store();
    let data = DiffData::with_max_chars(
        vec![line("+x", LineKind::Add, 0, 1)],
        vec![file_entry("f", Some(0))],
        2,
    );
    let (key, bytes) = store.save(&scope_of(oid(1)), settings(), &data).expect("an entry");
    assert_eq!(store.key(&scope_of(oid(1)), settings()), Some(key));
    let Loaded::Hit(back) = DiffStore::load(Some(&bytes)) else {
        panic!("a hit");
    };
    assert_eq!(back.max_chars, 2);
    assert_eq!(back.lines[0].text, data.lines[0].text);
    assert_eq!(back.files[0].diff_line_idx, Some(0));
    let path = format!("/cache/gitkay/diffs/{}", key.to_hex(40));
    assert_eq!(store.entry_path(key), path.into_bytes());
}

#[test]
fn an_absent_entry_is_a_miss() {
    assert!(matches!(DiffStore::load(None), Loaded::Miss));
}

#[test]
fn a_corrupt_entry_is_a_miss_and_is_removed() {
    assert!(matches!(DiffStore::load(Some(b"garbage")), Loaded::Corrupt));
}

#[test]
fn a_virtual_row_is_never_written() {
    let store = temp_store();
    let data = DiffData::with_max_chars(vec![], vec![], 0);
    for source in [DiffSource::Uncommitted, DiffSource::Staged] {
        assert!(store.save(&RowScope::new(source), settings(), &data).is_none());
    }
}

#[test]
fn a_store_complains_once() {
    let mut store = temp_store();
    assert!(store.warn_once());
    assert!(!store.warn_once());
    assert_eq!(store.min_build(), 0);
    assert!(store.worth_storing(0));
    store.set_min_build(250);
    assert_eq!(store.min_build(), 250);
    assert!(store.worth_storing(250) && !store.worth_storing(249));
    assert_eq!(store.root(), &b"/cache/gitkay/diffs"[..]);
}

/// Runs a write, with the outcome of each step given by `outcome`; gives the steps and the end.
fn run_write(outcome: &dyn Fn(&WriteStep) -> Result<(), IoError>) -> (Vec<String>, bool) {
    let mut steps = Vec::new();
    let mut step = WriteStep::MakeDir;
    loop {
        steps.push(match &step {
            WriteStep::MakeDir => "make".to_owned(),
            WriteStep::Create(n) => format!("create {n}"),
            WriteStep::Write(n) => format!("write {n}"),
            WriteStep::Rename(n) => format!("rename {n}"),
            WriteStep::RemoveTemp(n, _) => format!("remove {n}"),
        });
        let came = outcome(&step);
        match write_atomic(step, came) {
            WriteNext::Do(next) => step = next,
            WriteNext::Finish(end) => return (steps, end.is_ok()),
        }
    }
}

fn io(already_exists: bool) -> Result<(), IoError> {
    Err(IoError { already_exists, message: "no".to_owned() })
}

#[test]
fn a_successful_write_leaves_only_the_entry() {
    let (steps, ok) = run_write(&|_| Ok(()));
    assert_eq!(steps, vec!["make", "create 0", "write 0", "rename 0"]);
    assert!(ok);
}

#[test]
fn a_name_that_is_taken_leads_to_the_next() {
    let (steps, ok) = run_write(&|s| match s {
        WriteStep::Create(n) if *n < 2 => io(true),
        _ => Ok(()),
    });
    assert_eq!(steps[1..4], ["create 0", "create 1", "create 2"]);
    assert!(ok);
    let (steps, ok) = run_write(&|s| match s {
        WriteStep::Create(_) => io(true),
        _ => Ok(()),
    });
    assert_eq!(steps.len(), 1 + TEMP_NAMES as usize);
    assert!(!ok, "no free name");
}

#[test]
fn a_failed_write_takes_its_temporary_file_away() {
    let (steps, ok) = run_write(&|s| match s {
        WriteStep::Write(_) => io(false),
        _ => Ok(()),
    });
    assert_eq!(steps, vec!["make", "create 0", "write 0", "remove 0"]);
    assert!(!ok);
    let (steps, ok) = run_write(&|s| match s {
        WriteStep::Create(_) => io(false),
        _ => Ok(()),
    });
    assert_eq!(steps, vec!["make", "create 0"]);
    assert!(!ok);
    let (steps, ok) = run_write(&|_| io(false));
    assert_eq!(steps, vec!["make"]);
    assert!(!ok);
}

#[test]
fn temporary_files_are_named_for_the_entry_and_the_writer() {
    assert_eq!(temp_name(oid(0xab), 12, 3), format!("{}.tmp.12.3", "ab".repeat(20)));
}

const SECOND: i128 = 1_000_000_000;

/// A store as it lies on disk: names, sizes and ages in seconds.
fn prune(files: &[(&str, u64, i128)], budget: u64) -> Vec<String> {
    let now: i128 = 1_000_000 * SECOND;
    let mut left: Vec<String> = Vec::new();
    let mut names: Vec<String> = Vec::new();
    let mut entries: Vec<(i128, u64)> = Vec::new();
    for (name, size, age) in files {
        let file = StoredFile {
            name: (*name).to_owned(),
            is_file: true,
            modified: now - age * SECOND,
            size: *size,
        };
        match file_fate(&file, now) {
            FileFate::Sweep => {}
            FileFate::Ignore | FileFate::Spare => left.push(file.name),
            FileFate::Entry => {
                entries.push((file.modified, file.size));
                names.push(file.name);
            }
        }
    }
    let mut gone = vec![false; names.len()];
    let mut pruner = Pruner::new(&entries, budget);
    while let Some(i) = pruner.next() {
        gone[i] = true;
        pruner.removed(true);
    }
    let kept: Vec<String> = (0..names.len())
        .filter(|i| !gone[*i])
        .map(|i| names[i].clone())
        .collect();
    assert_eq!(pruner.entries_kept(), kept.len());
    left.extend(kept);
    left
}

#[test]
fn the_pruner_evicts_oldest_first_until_under_budget() {
    let left = prune(&[("bbbb", 400, 200), ("aaaa", 400, 300), ("cccc", 400, 100)], 900);
    assert_eq!(left, vec!["bbbb", "cccc"]);
}

#[test]
fn the_pruner_leaves_a_store_under_budget_alone() {
    assert_eq!(prune(&[("aaaa", 100, 300), ("bbbb", 100, 100)], 10_000).len(), 2);
}

#[test]
fn the_pruner_sweeps_stale_temps_and_spares_fresh_ones() {
    let left = prune(
        &[("aaaa.tmp.1.0", 100, 60 * 60 * 24), ("bbbb.tmp.2.0", 100, 1), ("cccc", 100, 100)],
        u64::MAX,
    );
    assert_eq!(left, vec!["bbbb.tmp.2.0", "cccc"]);
}

#[test]
fn a_fresh_temp_is_not_budgeted_as_an_entry() {
    let left = prune(&[("bbbb.tmp.2.0", 10_000, 1), ("cccc", 100, 100)], 500);
    assert_eq!(left, vec!["bbbb.tmp.2.0", "cccc"]);
}

#[test]
fn a_temporary_file_is_stale_from_its_age_on() {
    let at = |modified: i128, now: i128| {
        let file = StoredFile { name: "k.tmp.1.0".to_owned(), is_file: true, modified, size: 0 };
        file_fate(&file, now)
    };
    assert_eq!(at(0, TEMP_MAX_AGE), FileFate::Sweep);
    assert_eq!(at(0, TEMP_MAX_AGE - 1), FileFate::Spare);
    assert_eq!(at(TEMP_MAX_AGE, 0), FileFate::Spare, "written in the future");
    let dir = StoredFile { name: "d".to_owned(), is_file: false, modified: 0, size: 9 };
    assert_eq!(file_fate(&dir, 0), FileFate::Ignore);
}

#[test]
fn an_entry_that_cannot_be_removed_still_counts() {
    let mut pruner = Pruner::new(&[(1, 50), (2, 60), (3, 70)], 100);
    assert_eq!(pruner.next(), Some(0));
    pruner.removed(false);
    assert_eq!((pruner.total_bytes(), pruner.entries_kept()), (180, 3));
    assert_eq!(pruner.next(), Some(1));
    pruner.removed(true);
    assert_eq!(pruner.next(), Some(2));
    pruner.removed(true);
    assert_eq!(pruner.next(), None);
    assert_eq!((pruner.total_bytes(), pruner.entries_kept()), (50, 1));
}

#[test]
fn the_pruner_tolerates_a_missing_directory() {
    let pruner = Pruner::new(&[], 100);
    assert_eq!(pruner.next(), None);
    assert_eq!(pruner.total_bytes(), 0);
}
