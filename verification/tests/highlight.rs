use gitkay::highlight::highlighter::Highlighter;
use gitkay::highlight::palette::{palette_for, syn_to_egui, DiffBg, DiffPalette, SynColor};
use gitkay::highlight::theme::{
    resolve_theme, theme_for_slug, theme_slugs, themes, EmbeddedThemeName, DEFAULT_THEME,
    DEFAULT_THEME_SLUG,
};
use gitkay::highlight::{extension_of, parse_hex, spans_from, Color32, Token};

const FIXED_DEFAULT_BANDS: DiffBg = DiffBg::Fixed {
    added: None,
    deleted: None,
};

fn rgb(r: u8, g: u8, b: u8) -> Color32 {
    Color32 { r, g, b }
}

/// Relative luminance (0..1) of an opaque color.
fn luminance(c: Color32) -> f32 {
    (0.2126 * c.r as f32 + 0.7152 * c.g as f32 + 0.0722 * c.b as f32) / 255.0
}

fn mix(a: Color32, b: Color32, percent: u8) -> Color32 {
    let part = |x: u8, y: u8| {
        (x as f32 + (y as f32 - x as f32) * (percent as f32 / 100.0)).round() as u8
    };
    rgb(part(a.r, b.r), part(a.g, b.g), part(a.b, b.b))
}

fn palette(name: EmbeddedThemeName, bg: DiffBg) -> DiffPalette {
    palette_for(name, bg, &is_light, &mix).expect("the theme is there")
}

fn is_light(c: Color32) -> bool {
    luminance(c) > 0.5
}

fn highlighter(name: EmbeddedThemeName) -> Highlighter {
    Highlighter::new(name, FIXED_DEFAULT_BANDS, &is_light, &mix).expect("the theme is there")
}

fn test_highlighter() -> Highlighter {
    highlighter(DEFAULT_THEME)
}

#[test]
fn syn_color_maps_to_opaque_egui_color() {
    let c = syn_to_egui(SynColor {
        r: 10,
        g: 20,
        b: 30,
        a: 255,
    });
    assert_eq!(c, rgb(10, 20, 30));
}

#[test]
fn resolve_theme_validates_once() {
    // Unset ⇒ default, no warning.
    assert_eq!(resolve_theme(None), (DEFAULT_THEME, None));
    // Known slug ⇒ its theme, no warning.
    assert_eq!(
        resolve_theme(Some("dracula")),
        (EmbeddedThemeName::Dracula, None)
    );
    // Unknown slug ⇒ default plus the one warning naming it.
    let (theme, warn) = resolve_theme(Some("no-such-theme"));
    assert_eq!(theme, DEFAULT_THEME);
    assert!(warn.unwrap().contains("no-such-theme"));
}

#[test]
fn known_slug_resolves() {
    assert_eq!(
        theme_for_slug("catppuccin-mocha"),
        Some(EmbeddedThemeName::CatppuccinMocha)
    );
    assert_eq!(theme_for_slug("dracula"), Some(EmbeddedThemeName::Dracula));
}

#[test]
fn unknown_slug_is_none() {
    assert_eq!(theme_for_slug("no-such-theme"), None);
}

#[test]
fn default_slug_resolves() {
    assert!(theme_for_slug(DEFAULT_THEME_SLUG).is_some());
}

#[test]
fn tokenizes_rust_into_multiple_spans() {
    let hl = test_highlighter();
    let mut state = hl.new_file_state("x.rs");
    let code = "fn main() {}";
    let spans = hl.tokenize_line(&mut state, code, &mut String::new());
    assert!(spans.len() >= 2, "expected multiple tokens, got {spans:?}");
    // Reassembled ranges cover the input exactly (no chars dropped).
    let joined: String = spans.iter().map(|(_, r)| &code[r.start..r.end]).collect();
    assert_eq!(joined, code);
}

#[test]
fn unknown_extension_falls_back_to_plain_text() {
    let hl = test_highlighter();
    let mut state = hl.new_file_state("file.unknownext");
    let code = "just some text";
    let spans = hl.tokenize_line(&mut state, code, &mut String::new());
    let joined: String = spans.iter().map(|(_, r)| &code[r.start..r.end]).collect();
    assert_eq!(joined, code);
}

#[test]
fn tokenizes_multibyte_source_on_char_boundaries() {
    let hl = test_highlighter();
    let mut state = hl.new_file_state("x.rs");
    // Mixed multi-byte content: accented letters (2 bytes), an arrow (3),
    // a Greek letter (2), an emoji (4). Every produced range must land on a
    // UTF-8 char boundary, or the re-slice below panics mid-codepoint.
    let code = "let s = \"café→λ 🦀\"; // δ";
    let spans = hl.tokenize_line(&mut state, code, &mut String::new());
    let joined: String = spans.iter().map(|(_, r)| &code[r.start..r.end]).collect();
    assert_eq!(
        joined, code,
        "spans must reassemble the multibyte line exactly"
    );
    // The internally-appended '\n' must never leak into a span range.
    assert!(spans.iter().all(|(_, r)| r.end <= code.len()));
}

#[test]
fn tokenize_line_reuses_buffer_without_leaking() {
    // A long line followed by a short one through the SAME scratch buffer:
    // stale content must not leak into the short line's spans (pins the
    // buf.clear() the reuse depends on).
    let hl = test_highlighter();
    let mut state = hl.new_file_state("x.rs");
    let mut buf = String::new();
    let long = "let abcdefghijklmnop = 12345; // trailing comment";
    let _ = hl.tokenize_line(&mut state, long, &mut buf);
    let short = "x";
    let spans = hl.tokenize_line(&mut state, short, &mut buf);
    let joined: String = spans.iter().map(|(_, r)| &short[r.clone()]).collect();
    assert_eq!(joined, short);
    assert!(spans.iter().all(|(_, r)| r.end <= short.len()));
}

#[test]
fn empty_line_yields_no_spans() {
    let hl = test_highlighter();
    let mut state = hl.new_file_state("x.rs");
    // code_len == 0: every span's end clamps to 0, so the `start < end` guard
    // drops them all. Must yield no spans (and not panic), not a span for '\n'.
    let spans = hl.tokenize_line(&mut state, "", &mut String::new());
    assert!(
        spans.is_empty(),
        "empty line should yield no spans, got {spans:?}"
    );
}

#[test]
fn unknown_slug_warns_and_falls_back() {
    // The config boundary defaults + warns; a palette is still derived.
    let (theme, warn) = resolve_theme(Some("no-such-theme"));
    assert!(warn.is_some());
    let hl = highlighter(theme);
    assert!(luminance(hl.palette().background) < 0.5);
}

#[test]
fn mocha_palette_is_dark_with_distinct_diff_colors() {
    let theme = EmbeddedThemeName::CatppuccinMocha;
    let p = palette(theme, FIXED_DEFAULT_BANDS);
    // Catppuccin Mocha is a dark theme.
    assert!(luminance(p.background) < 0.5, "background should be dark");
    // It defines diff scopes, so added/deleted must differ from plain text.
    assert_ne!(p.added, p.foreground, "added should come from a diff scope");
    assert_ne!(
        p.deleted, p.foreground,
        "deleted should come from a diff scope"
    );
    assert_ne!(p.added, p.deleted, "added and deleted should differ");
}

#[test]
fn diff_bg_mode_controls_row_background() {
    let theme = EmbeddedThemeName::CatppuccinMocha;
    let fixed = palette(theme, FIXED_DEFAULT_BANDS);
    let derived = palette(theme, DiffBg::Theme);
    // Fixed mode (no explicit colors) uses gitkay's dark-green default;
    // theme mode pulls a different background from the theme.
    assert_eq!(fixed.added_bg, rgb(10, 48, 10));
    assert_ne!(derived.added_bg, fixed.added_bg);
}

#[test]
fn latte_palette_is_light_with_light_bands() {
    let theme = EmbeddedThemeName::CatppuccinLatte;
    let p = palette(theme, FIXED_DEFAULT_BANDS);
    // Catppuccin Latte is a light theme: the luminance branch must flip and
    // pick the light pastel bands (not the dark defaults).
    assert!(
        luminance(p.background) > 0.5,
        "latte background should be light"
    );
    assert_eq!(p.added_bg, rgb(202, 236, 202));
    assert_eq!(p.deleted_bg, rgb(252, 206, 206));
}

#[test]
fn with_theme_swaps_palette() {
    // Build on a dark theme, derive a light one — the palette background
    // must follow (dark → light).
    let hl = test_highlighter();
    assert!(luminance(hl.palette().background) < 0.5);
    let hl2 = hl
        .with_theme(
            EmbeddedThemeName::CatppuccinLatte,
            FIXED_DEFAULT_BANDS,
            &is_light,
            &mix,
        )
        .expect("the theme is there");
    assert!(luminance(hl2.palette().background) > 0.5);
    assert!(hl2.has_syntax("rs"));
}

#[test]
fn explicit_fixed_colors_win() {
    let theme = EmbeddedThemeName::CatppuccinMocha;
    let custom = rgb(1, 2, 3);
    let p = palette(
        theme,
        DiffBg::Fixed {
            added: Some(custom),
            deleted: None,
        },
    );
    assert_eq!(p.added_bg, custom);
    // deleted falls back to the built-in dark default.
    assert_eq!(p.deleted_bg, rgb(64, 12, 14));
}

#[test]
fn parse_hex_roundtrips() {
    assert_eq!(
        parse_hex("#0a300a"),
        Some(rgb(10, 48, 10))
    );
    assert_eq!(
        parse_hex("400c0e"),
        Some(rgb(64, 12, 14))
    );
    assert_eq!(parse_hex("#xyz"), None);
    assert_eq!(parse_hex("#12345"), None);
}

#[test]
fn warm_extension_compiles_and_still_tokenizes() {
    let hl = test_highlighter();
    hl.warm_extension("rs"); // must not panic
    assert_eq!(hl.warm_extension("rs").language(), Some("rs"));
    assert_eq!(hl.warm_extension("png").language(), None);
    // After warming, tokenizing Rust still works (keywords → multiple spans).
    let mut state = hl.new_file_state("after.rs");
    let spans = hl.tokenize_line(&mut state, "fn main() {}", &mut String::new());
    assert!(
        spans.len() >= 2,
        "rust line should tokenize into multiple spans"
    );
}

#[test]
fn parse_hex_multibyte_returns_none_not_panic() {
    // U+1F600 (😀) is 4 bytes; "#😀ab" is 7 bytes total, strip_prefix('#')
    // gives "😀ab" = 6 bytes but byte 2 is inside the 4-byte codepoint.
    // Must return None, not panic.
    assert_eq!(parse_hex("#\u{1F600}ab"), None);
    // 2-byte codepoints: 3 × U+00E9 (é) = 6 bytes, no panic either.
    assert_eq!(parse_hex("\u{00e9}\u{00e9}\u{00e9}"), None);
}

#[test]
fn every_theme_is_listed_once_and_is_there() {
    let all = themes();
    let slugs = theme_slugs();
    assert_eq!(all.len(), slugs.len());
    for (i, theme) in all.iter().enumerate() {
        assert_eq!(theme.slug(), slugs[i]);
        assert_eq!(theme_for_slug(slugs[i]), Some(*theme));
        assert!(!slugs[..i].contains(&slugs[i]));
        // The collection has it under its name.
        palette(*theme, DiffBg::Theme);
    }
}

#[test]
fn the_warning_quotes_the_unknown_slug() {
    let (_, warn) = resolve_theme(Some("a\"b\n"));
    assert_eq!(
        warn.as_deref(),
        Some("unknown syntax theme \"a\\\"b\\n\"; using catppuccin-mocha")
    );
}

#[test]
fn spans_are_cut_at_the_end_of_the_line() {
    let (x, y, z) = (rgb(1, 0, 0), rgb(2, 0, 0), rgb(3, 0, 0));
    let tokens: [Token; 4] = [(x, 3), (y, 0), (y, 2), (z, 4)];
    assert_eq!(
        spans_from(Some(&tokens), 6, rgb(9, 9, 9)),
        vec![(x, 0..3), (y, 3..5), (z, 5..6)]
    );
    assert_eq!(spans_from(None, 6, rgb(9, 9, 9)), vec![(rgb(9, 9, 9), 0..6)]);
    // Where the runs cannot be told, even an empty line is one run.
    assert_eq!(spans_from(None, 0, rgb(9, 9, 9)), vec![(rgb(9, 9, 9), 0..0)]);
}

#[test]
fn extensions_are_those_of_the_last_part() {
    assert_eq!(extension_of("src/main.rs").as_deref(), Some("rs"));
    assert_eq!(extension_of("a.tar.gz").as_deref(), Some("gz"));
    assert_eq!(extension_of("dir.d/file"), None);
    assert_eq!(extension_of(".bashrc"), None);
    assert_eq!(extension_of("x."), Some(String::new()));
    assert_eq!(extension_of("a.rs/"), Some("rs".to_owned()));
    assert_eq!(extension_of(".."), None);
    assert_eq!(extension_of(""), None);
}

#[test]
fn the_theme_fills_bands_in_its_own_colours() {
    let theme = EmbeddedThemeName::CatppuccinMocha;
    let p = palette(theme, DiffBg::Theme);
    // The colour of added text, three tenths of the way from the pane.
    assert_eq!(p.added_bg, mix(p.background, p.added, 30));
    assert_eq!(p.background, rgb(30, 30, 46));
    assert_eq!(p.foreground, rgb(205, 214, 244));
    assert_eq!(p.added, rgb(166, 227, 161));
    assert_eq!(p.deleted, rgb(243, 139, 168));
}

#[test]
fn hex_digits_take_both_cases_and_no_sign() {
    assert_eq!(parse_hex("#ABCdef"), Some(rgb(0xab, 0xcd, 0xef)));
    assert_eq!(parse_hex("+f+f+f"), None);
    assert_eq!(parse_hex("-a+b+c"), None);
    assert_eq!(parse_hex("##0a300a"), None);
}

#[test]
fn a_line_is_coloured_by_theme_language_and_the_lines_before_it() {
    let hl = test_highlighter();
    let coloured = |hl: &Highlighter, path: &str, lines: &[&str]| {
        let mut state = hl.new_file_state(path);
        let mut buf = String::new();
        lines.iter().map(|l| hl.tokenize_line(&mut state, l, &mut buf)).last().unwrap()
    };
    let plain = vec![(hl.palette().foreground, 0..11)];
    let alone = coloured(&hl, "a.rs", &["let x = 10;"]);
    assert!(alone.len() > 1);
    assert_eq!(alone, coloured(&hl, "b.rs", &["let x = 10;"]));
    // Plain text for an extension without a language.
    assert_eq!(coloured(&hl, "a.png", &["let x = 10;"]), plain);
    // Within a comment that an earlier line opens.
    assert_eq!(coloured(&hl, "a.rs", &["/* open", "let x = 10;"]).len(), 1);
    let bands = DiffBg::Fixed { added: None, deleted: None };
    let other = hl.with_theme(EmbeddedThemeName::GruvboxLight, bands, &is_light, &mix).unwrap();
    assert_ne!(coloured(&other, "a.rs", &["let x = 10;"]), alone);
}

#[test]
fn the_extension_tells_the_language() {
    let hl = test_highlighter();
    assert!(hl.has_syntax("rs") && hl.has_syntax("RS"));
    assert!(!hl.has_syntax("png") && !hl.has_syntax(""));
    assert_eq!(hl.new_file_state("src/a.rs").language(), Some("rs"));
    assert_eq!(hl.new_file_state("src/a.png").language(), None);
    assert_eq!(hl.new_file_state("src/rs").language(), None);
    let mut state = hl.new_file_state("a.rs");
    let mut buf = "stale".to_owned();
    hl.tokenize_line(&mut state, "let x;", &mut buf);
    assert_eq!(buf, "let x;\n");
    assert_eq!(state.language(), Some("rs"));
}

#[test]
fn what_a_line_leaves_open_carries_over() {
    let hl = test_highlighter();
    let mut buf = String::new();
    let mut state = hl.new_file_state("a.rs");
    hl.tokenize_line(&mut state, "/* open", &mut buf);
    let inside = hl.tokenize_line(&mut state, "let x = 1;", &mut buf);
    let outside = hl.tokenize_line(&mut hl.new_file_state("a.rs"), "let x = 1;", &mut buf);
    assert_eq!(inside.len(), 1, "one comment");
    assert_ne!(inside, outside);
}
