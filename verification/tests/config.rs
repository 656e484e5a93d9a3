use gitkay::config::fonts::{
    apply_family, build_fonts, family_source, load_cache, needs_cache, resolve_font_path,
    save_cache, FontCache,
};
use gitkay::config::template::default_template;
use gitkay::config::{
    role_default, BandSource, DiffSection, Family, FileListLayout, FontsSection, Role, TextSection,
    TextStyle,
};

const UNSET: TextStyle = TextStyle { font: None };

fn plain_text() -> TextSection {
    TextSection {
        diff: UNSET,
        commit_summary: UNSET,
        commit_meta: UNSET,
        refs: UNSET,
        file_list: UNSET,
        ui: UNSET,
    }
}

fn path(s: &str) -> Option<Vec<u8>> {
    Some(s.as_bytes().to_vec())
}

#[test]
fn default_font_ids_match_current_sizes() {
    assert_eq!(role_default(Role::Diff).0, 13);
    assert_eq!(role_default(Role::CommitMeta).0, 12);
    assert_eq!(role_default(Role::Refs).0, 11);
    assert_eq!(plain_text().family(Role::Ui), Family::Monospace);
}

#[test]
fn proportional_role_uses_proportional_family() {
    let mut text = plain_text();
    text.commit_summary.font = Some(Family::Proportional);
    assert_eq!(text.family(Role::CommitSummary), Family::Proportional);
    assert_eq!(text.family(Role::CommitMeta), Family::Monospace);
}

#[test]
fn every_role_maps_to_its_size_and_family() {
    let set = TextStyle { font: Some(Family::Proportional) };
    for (role, size) in [
        (Role::Diff, 13),
        (Role::CommitSummary, 13),
        (Role::CommitMeta, 12),
        (Role::Refs, 11),
        (Role::FileList, 12),
        (Role::Ui, 13),
    ] {
        let mut text = plain_text();
        match role {
            Role::Diff => text.diff = set,
            Role::CommitSummary => text.commit_summary = set,
            Role::CommitMeta => text.commit_meta = set,
            Role::Refs => text.refs = set,
            Role::FileList => text.file_list = set,
            Role::Ui => text.ui = set,
        }
        assert_eq!(role_default(role).0, size, "size for {role:?}");
        assert_eq!(text.style(role), set, "style for {role:?}");
        assert_eq!(text.family(role), Family::Proportional, "family for {role:?}");
    }
}

#[test]
fn unset_font_keeps_role_default_family() {
    // Where no font is set, whatever else is, the role's default family stays.
    let mut text = plain_text();
    text.diff = TextStyle { font: Some(Family::Proportional) };
    assert_eq!(text.family(Role::CommitSummary), Family::Monospace);
}

#[test]
fn missing_diff_section_uses_defaults() {
    let diff = DiffSection::default();
    assert_eq!(diff.theme, None);
    assert!(diff.syntax); // default on
    assert!(diff.show_stats); // default on
    assert_eq!(diff.file_list, FileListLayout::Grouped); // default
    assert_eq!(diff.bands.source, BandSource::Fixed);
    assert_eq!(diff.bands.added, None);
    assert!(diff.detect_renames); // default on (matches git -M)
    assert!(!diff.detect_copies); // default off (git -C, expensive)
}

#[test]
fn template_mentions_diff_show_stats() {
    let t = default_template();
    assert!(t.contains("[diff]"));
    assert!(t.contains("show_stats ="));
    assert!(t.contains("detect_renames ="));
    assert!(t.contains("detect_copies ="));
}

#[test]
fn template_mentions_diff_theme_and_bands() {
    let t = default_template();
    assert!(t.contains("[diff]"));
    assert!(t.contains("theme ="));
    assert!(t.contains("[diff.bands]"));
    assert!(t.contains("syntax ="));
}

#[test]
fn template_documents_real_default_values() {
    let t = default_template();
    // Per-role sizes appear inside the `{ size = N, font = ... }` inline tables.
    assert!(t.contains("size = 13"));
    assert!(t.contains("size = 12"));
    assert!(t.contains("size = 11"));
    assert!(t.contains("font = \"monospace\""));
}

#[test]
fn template_is_all_comments_and_sections() {
    let t = default_template();
    assert!(t.lines().all(|l| l.is_empty() || l.starts_with('#') || l.starts_with('[')));
    assert!(t.contains("\n# refs           = { size = 11, font = \"monospace\" }\n"));
    assert!(t.starts_with("# gitkay configuration — ~/.config/gitkay/config.toml\n"));
    assert!(t.ends_with("# deleted = \"#400c0e\"\n"));
}

#[test]
fn template_is_valid_toml_yielding_defaults() {
    // All values are commented out, so parsing yields sections without keys.
    let parsed: toml::Table = toml::from_str(&default_template()).unwrap();
    let names: Vec<&str> = parsed.keys().map(String::as_str).collect();
    assert_eq!(names.len(), 3);
    assert!(parsed["fonts"].as_table().unwrap().is_empty());
    assert!(parsed["text"].as_table().unwrap().is_empty());
    let diff = parsed["diff"].as_table().unwrap();
    assert_eq!(diff.len(), 1);
    assert!(diff["bands"].as_table().unwrap().is_empty());
}

#[test]
fn cache_hit_skips_scan() {
    let mut cache = FontCache::new();
    cache.insert("Fira", "/fonts/fira.ttf");
    let exists = |_: &str| true;
    let scanned = std::cell::Cell::new(false);
    let scan = |_: &str| {
        scanned.set(true);
        None
    };
    let got = resolve_font_path("Fira", &mut cache, &exists, &scan);
    assert_eq!(got, path("/fonts/fira.ttf"));
    assert!(!scanned.get(), "scan must not run on a valid cache hit");
}

#[test]
fn stale_cache_entry_triggers_rescan() {
    let mut cache = FontCache::new();
    cache.insert("Fira", "/gone.ttf");
    let exists = |_: &str| false; // cached path no longer exists
    let scan = |_: &str| path("/fonts/fira-new.ttf");
    let got = resolve_font_path("Fira", &mut cache, &exists, &scan);
    assert_eq!(got, path("/fonts/fira-new.ttf"));
    assert_eq!(
        cache.get("Fira").map(String::as_str),
        Some("/fonts/fira-new.ttf")
    );
}

#[test]
fn miss_scans_and_caches() {
    let mut cache = FontCache::new();
    let exists = |_: &str| true;
    let scan = |_: &str| path("/fonts/found.ttf");
    let got = resolve_font_path("Inter", &mut cache, &exists, &scan);
    assert_eq!(got, path("/fonts/found.ttf"));
    assert_eq!(
        cache.get("Inter").map(String::as_str),
        Some("/fonts/found.ttf")
    );
}

#[test]
fn miss_with_no_match_returns_none() {
    let mut cache = FontCache::new();
    let exists = |_: &str| true;
    let scan = |_: &str| None;
    assert_eq!(
        resolve_font_path("Nope", &mut cache, &exists, &scan),
        None
    );
    assert!(cache.is_empty());
}

#[test]
fn family_source_prefers_explicit_path() {
    let mut cache = FontCache::new();
    let exists = |_: &str| true;
    let scan = |_: &str| -> Option<Vec<u8>> { panic!("must not scan when path is set") };
    let got = family_source(
        &Some("Whatever".to_owned()),
        &Some("/explicit.ttf".to_owned()),
        &mut cache,
        &exists,
        &scan,
    );
    assert_eq!(got, path("/explicit.ttf"));
}

#[test]
fn stale_entry_evicted_when_rescan_fails() {
    let mut cache = FontCache::new();
    cache.insert("Fira", "/gone.ttf");
    let exists = |_: &str| false;
    let scan = |_: &str| None;
    assert_eq!(
        resolve_font_path("Fira", &mut cache, &exists, &scan),
        None
    );
    assert!(cache.get("Fira").is_none(), "stale entry should be evicted");
}

#[test]
fn apply_family_inserts_font_first() {
    let mut order = vec!["Hack".to_owned(), "Ubuntu-Light".to_owned()];
    apply_family(&mut order, "user_mono");
    assert_eq!(order.first(), Some(&"user_mono".to_owned()));
    assert_eq!(order[1..], ["Hack".to_owned(), "Ubuntu-Light".to_owned()]);
}

#[test]
fn build_fonts_default_adds_no_user_fonts() {
    let mut cache = FontCache::new();
    let fonts = FontsSection::default();
    assert!(!needs_cache(&fonts));
    let scan = |_: &str| -> Option<Vec<u8>> { panic!("no font is named") };
    assert!(build_fonts(&fonts, &mut cache, &|_| true, &scan).is_empty());
    assert!(cache.is_empty());
}

#[test]
fn family_source_name_set_but_scan_misses_returns_none() {
    let mut cache = FontCache::new();
    let exists = |_: &str| true;
    let scan = |_: &str| -> Option<Vec<u8>> { None };
    let got = family_source(
        &Some("UnknownFont".to_owned()),
        &None,
        &mut cache,
        &exists,
        &scan,
    );
    assert_eq!(got, None);
    assert!(cache.is_empty());
}

#[test]
fn both_families_share_the_cache() {
    let mut cache = FontCache::new();
    let fonts = FontsSection {
        monospace: Some("Inter".to_owned()),
        proportional: Some("Inter".to_owned()),
        ..FontsSection::default()
    };
    assert!(needs_cache(&fonts));
    let scans = std::cell::Cell::new(0);
    let scan = |_: &str| {
        scans.set(scans.get() + 1);
        path("/fonts/inter.ttf")
    };
    let got = build_fonts(&fonts, &mut cache, &|_| true, &scan);
    let loads: Vec<(&str, Family, Option<Vec<u8>>)> =
        got.iter().map(|l| (l.key, l.family, Some(l.file.clone()))).collect();
    assert_eq!(
        loads,
        vec![
            ("user_monospace", Family::Monospace, path("/fonts/inter.ttf")),
            ("user_proportional", Family::Proportional, path("/fonts/inter.ttf")),
        ]
    );
    assert_eq!(scans.get(), 1, "the second family takes what the first one found");
}

#[test]
fn a_found_path_that_is_no_text_is_given_back_as_it_is() {
    let mut cache = FontCache::new();
    let scan = |_: &str| Some(vec![b'/', 0xff, b'f']);
    let got = resolve_font_path("Odd", &mut cache, &|_| true, &scan);
    assert_eq!(got, Some(vec![b'/', 0xff, b'f']));
    assert_eq!(cache.get("Odd").map(String::as_str), Some("/\u{fffd}f"));
}

#[test]
fn a_saved_cache_is_loaded_again() {
    let mut cache = FontCache::new();
    let odd = [
        "",
        " ",
        "Fira Code",
        "a.b",
        "'",
        "\"",
        "'''\"\"\"\\",
        "\r\n",
        "\n",
        "\t\u{7f}\u{1}",
        "é→🦀",
        "#=[]",
    ];
    for (i, name) in odd.iter().enumerate() {
        cache.insert(name, odd[odd.len() - 1 - i]);
        cache.insert(&format!("{name}'\\"), &format!("\n{name}\"\""));
        cache.insert(&format!("{name}\n+"), &format!("{name}\\''"));
    }
    let text = save_cache(&cache).unwrap();
    let back = load_cache(Some(&text));
    for (i, name) in odd.iter().enumerate() {
        assert_eq!(back.get(name).map(String::as_str), Some(odd[odd.len() - 1 - i]));
        assert_eq!(back.get(&format!("{name}'\\")), Some(&format!("\n{name}\"\"")));
        assert_eq!(back.get(&format!("{name}\n+")), Some(&format!("{name}\\''")));
    }
    assert_eq!(save_cache(&back), Some(text));
}

#[test]
fn a_cache_that_cannot_be_read_is_empty() {
    assert!(load_cache(None).is_empty());
    assert!(load_cache(Some("")).is_empty());
    assert!(load_cache(Some("no document")).is_empty());
    assert!(load_cache(Some("Fira = 3\n")).is_empty());
    assert!(load_cache(Some("a = \"x\"\na = \"y\"\n")).is_empty());
    let cache = load_cache(Some("\"Fira Code\" = '/fonts/fira.ttf'\n"));
    assert_eq!(cache.get("Fira Code").map(String::as_str), Some("/fonts/fira.ttf"));
}

#[test]
fn the_cache_holds_each_name_once() {
    let mut cache = FontCache::new();
    cache.insert("a", "1");
    cache.insert("b", "2");
    cache.insert("a", "3");
    assert_eq!(save_cache(&cache).as_deref(), Some("a = \"3\"\nb = \"2\"\n"));
    assert_eq!(cache.get("a").map(String::as_str), Some("3"));
    cache.remove("b");
    cache.remove("c");
    assert!(cache.get("b").is_none());
    assert!(!cache.is_empty());
    cache.remove("a");
    assert!(cache.is_empty());
}
