//! The colours of the diff pane, taken from a theme as far as it has them.

use vstd::prelude::*;
use vstd::string::*;

use crate::highlight::theme::EmbeddedThemeName;
use crate::highlight::Color32;

verus! {

/// A colour of a theme.
#[derive(Clone, Copy, PartialEq, Eq, Structural, Debug)]
pub struct SynColor {
    pub r: u8,
    pub g: u8,
    pub b: u8,
    pub a: u8,
}

/// The colour without its transparency.
pub open spec fn opaque(c: SynColor) -> Color32 {
    Color32 { r: c.r, g: c.g, b: c.b }
}

/// The colour without its transparency.
pub fn syn_to_egui(c: SynColor) -> (r: Color32)
    ensures
        r == opaque(c),
{
    Color32 { r: c.r, g: c.g, b: c.b }
}

/// The colours that a theme sets for the pane as a whole.
#[derive(Clone, Copy, PartialEq, Eq, Structural, Debug)]
pub struct ThemeSettings {
    pub foreground: Option<SynColor>,
    pub background: Option<SynColor>,
    pub gutter_foreground: Option<SynColor>,
}

/// The text and background colours for a scope.
#[derive(Clone, Copy, PartialEq, Eq, Structural, Debug)]
pub struct ScopeStyle {
    pub foreground: SynColor,
    pub background: SynColor,
}

/// The colours that a theme of the collection sets for the pane as a whole.
pub uninterp spec fn settings_of(theme: Seq<char>) -> Option<ThemeSettings>;

/// The colours of a theme of the collection for a scope.
pub uninterp spec fn style_of(theme: Seq<char>, scope: Seq<char>) -> Option<ScopeStyle>;

/// `two_face::theme::LazyThemeSet::get` gives the theme with that name in the collection that
/// `two_face::theme::extra` holds, and `None` for other names. Its settings are read as they are;
/// which colours they hold is left unsaid.
#[verifier::external_body]
fn theme_settings(theme: &str) -> (s: Option<ThemeSettings>)
    ensures
        s == settings_of(theme@),
{
    let set = two_face::theme::LazyThemeSet::from(two_face::theme::extra());
    let found = &set.get(theme)?.settings;
    let plain = |c: two_face::re_exports::syntect::highlighting::Color| SynColor {
        r: c.r,
        g: c.g,
        b: c.b,
        a: c.a,
    };
    Some(
        ThemeSettings {
            foreground: found.foreground.map(plain),
            background: found.background.map(plain),
            gutter_foreground: found.gutter_foreground.map(plain),
        },
    )
}

/// `syntect::highlighting::Highlighter::style_for_stack` gives the colours of the theme for the scope
/// that `Scope::new` makes of the text; `None` where there is no such theme or scope. Which colours
/// these are is left unsaid.
#[verifier::external_body]
fn scope_style(theme: &str, scope: &str) -> (s: Option<ScopeStyle>)
    ensures
        s == style_of(theme@, scope@),
{
    let set = two_face::theme::LazyThemeSet::from(two_face::theme::extra());
    let found = set.get(theme)?;
    let scope = two_face::re_exports::syntect::parsing::Scope::new(scope).ok()?;
    let style = two_face::re_exports::syntect::highlighting::Highlighter::new(
        found,
    ).style_for_stack(&[scope]);
    let (f, b) = (style.foreground, style.background);
    Some(
        ScopeStyle {
            foreground: SynColor { r: f.r, g: f.g, b: f.b, a: f.a },
            background: SynColor { r: b.r, g: b.g, b: b.b, a: b.a },
        },
    )
}

/// How the bands behind added and deleted lines are coloured.
#[derive(Clone, Copy, PartialEq, Eq, Structural, Debug)]
pub enum DiffBg {
    /// In the given colours, or in colours that suit a dark or a light theme.
    Fixed { added: Option<Color32>, deleted: Option<Color32> },
    /// In the colours of the theme.
    Theme,
}

/// The colours of the diff pane.
#[derive(Clone, Copy, PartialEq, Eq, Structural, Debug)]
pub struct DiffPalette {
    pub background: Color32,
    pub foreground: Color32,
    pub added: Color32,
    pub deleted: Color32,
    pub hunk: Color32,
    pub file_header: Color32,
    pub dim: Color32,
    pub marker: Color32,
    /// The band behind an added line.
    pub added_bg: Color32,
    /// The band behind a deleted line.
    pub deleted_bg: Color32,
}

/// The band behind an added line in a dark theme.
pub fn default_added_band_dark() -> (c: Color32)
    ensures
        c == rgb(10, 48, 10),
{
    Color32 { r: 10, g: 48, b: 10 }
}

/// The band behind a deleted line in a dark theme.
pub fn default_deleted_band_dark() -> (c: Color32)
    ensures
        c == rgb(64, 12, 14),
{
    Color32 { r: 64, g: 12, b: 14 }
}

/// The colour with those parts.
pub open spec fn rgb(r: u8, g: u8, b: u8) -> Color32 {
    Color32 { r, g, b }
}

/// The colour of a scope, text or background.
pub open spec fn part(style: ScopeStyle, background: bool) -> SynColor {
    if background {
        style.background
    } else {
        style.foreground
    }
}

/// The colour of the first scope for which the theme has one of its own.
pub open spec fn own_color(
    styles: spec_fn(Seq<char>) -> Option<ScopeStyle>,
    default: SynColor,
    scopes: Seq<Seq<char>>,
    background: bool,
) -> Option<Color32>
    decreases scopes.len(),
{
    if scopes.len() == 0 {
        None
    } else {
        match styles(scopes[0]) {
            Some(style) => if part(style, background) != default {
                Some(opaque(part(style, background)))
            } else {
                own_color(styles, default, scopes.drop_first(), background)
            },
            None => own_color(styles, default, scopes.drop_first(), background),
        }
    }
}

/// The first of two optional colours that is there, or else the third.
pub open spec fn or(a: Option<Color32>, c: Color32) -> Color32 {
    match a {
        Some(a) => a,
        None => c,
    }
}

/// The text colour of a theme: black where it sets none.
pub open spec fn default_foreground(s: ThemeSettings) -> SynColor {
    match s.foreground {
        Some(c) => c,
        None => SynColor { r: 0, g: 0, b: 0, a: 0xFF },
    }
}

/// The background colour of a theme: white where it sets none.
pub open spec fn default_background(s: ThemeSettings) -> SynColor {
    match s.background {
        Some(c) => c,
        None => SynColor { r: 0xFF, g: 0xFF, b: 0xFF, a: 0xFF },
    }
}

/// The scopes for added lines, and those for deleted lines.
pub open spec fn changed_scopes(added: bool) -> Seq<Seq<char>> {
    if added {
        seq!["markup.inserted.diff"@, "markup.inserted"@]
    } else {
        seq!["markup.deleted.diff"@, "markup.deleted"@]
    }
}

/// The colour of the text of a changed line: the theme's own, or one that suits it.
pub open spec fn changed_color(
    s: ThemeSettings,
    styles: spec_fn(Seq<char>) -> Option<ScopeStyle>,
    light: bool,
    added: bool,
) -> Color32 {
    or(
        own_color(styles, default_foreground(s), changed_scopes(added), false),
        if added {
            if light {
                rgb(35, 110, 45)
            } else {
                rgb(120, 200, 130)
            }
        } else {
            if light {
                rgb(150, 40, 50)
            } else {
                rgb(230, 130, 145)
            }
        },
    )
}

/// The band behind a changed line.
pub open spec fn band_color(
    s: ThemeSettings,
    styles: spec_fn(Seq<char>) -> Option<ScopeStyle>,
    light: bool,
    mix: spec_fn(Color32, Color32, u8) -> Color32,
    bg: DiffBg,
    added: bool,
) -> Color32 {
    match bg {
        DiffBg::Fixed { added: own_added, deleted: own_deleted } => if added {
            or(
                own_added,
                if light {
                    rgb(202, 236, 202)
                } else {
                    rgb(10, 48, 10)
                },
            )
        } else {
            or(
                own_deleted,
                if light {
                    rgb(252, 206, 206)
                } else {
                    rgb(64, 12, 14)
                },
            )
        },
        DiffBg::Theme => or(
            own_color(styles, default_background(s), changed_scopes(added), true),
            mix(opaque(default_background(s)), changed_color(s, styles, light, added), 30),
        ),
    }
}

/// The colours of the diff pane for a theme: `light` tells a light background from a dark one, and
/// `mix` gives the colour that lies the given percentage of the way from one to the other.
pub open spec fn palette_of(
    s: ThemeSettings,
    styles: spec_fn(Seq<char>) -> Option<ScopeStyle>,
    bg: DiffBg,
    light: spec_fn(Color32) -> bool,
    mix: spec_fn(Color32, Color32, u8) -> Color32,
) -> DiffPalette {
    let foreground = opaque(default_foreground(s));
    let background = opaque(default_background(s));
    let is_light = light(background);
    let gutter = match s.gutter_foreground {
        Some(c) => Some(opaque(c)),
        None => None,
    };
    DiffPalette {
        background,
        foreground,
        added: changed_color(s, styles, is_light, true),
        deleted: changed_color(s, styles, is_light, false),
        hunk: or(
            own_color(
                styles,
                default_foreground(s),
                seq!["meta.diff.range"@, "meta.diff"@],
                false,
            ),
            foreground,
        ),
        file_header: or(
            own_color(styles, default_foreground(s), seq!["meta.diff.header"@], false),
            foreground,
        ),
        dim: or(
            own_color(styles, default_foreground(s), seq!["comment"@], false),
            or(gutter, mix(foreground, background, 50)),
        ),
        marker: or(gutter, foreground),
        added_bg: band_color(s, styles, is_light, mix, bg, true),
        deleted_bg: band_color(s, styles, is_light, mix, bg, false),
    }
}

/// Whether the function gives the colours that `styles` says.
pub open spec fn gives_styles<L: Fn(&str) -> Option<ScopeStyle>>(
    lookup: L,
    styles: spec_fn(Seq<char>) -> Option<ScopeStyle>,
) -> bool {
    forall|s: &str, r: Option<ScopeStyle>| #[trigger]
        call_ensures(lookup, (s,), r) ==> r == styles(s@)
}

/// Whether the function tells light from dark as `light` says.
pub open spec fn tells_light<F: Fn(Color32) -> bool>(f: F, light: spec_fn(Color32) -> bool) -> bool {
    forall|c: Color32, r: bool| #[trigger] call_ensures(f, (c,), r) ==> r == light(c)
}

/// Whether the function mixes colours as `mix` says.
pub open spec fn mixes<M: Fn(Color32, Color32, u8) -> Color32>(
    f: M,
    mix: spec_fn(Color32, Color32, u8) -> Color32,
) -> bool {
    forall|a: Color32, b: Color32, p: u8, r: Color32| #[trigger]
        call_ensures(f, (a, b, p), r) ==> r == mix(a, b, p)
}

/// The views of the scopes.
pub open spec fn scope_views(scopes: Seq<&str>) -> Seq<Seq<char>> {
    scopes.map_values(|s: &str| s@)
}

/// The colour of the first scope for which the theme has one of its own.
fn scope_attr<L: Fn(&str) -> Option<ScopeStyle>>(
    lookup: &L,
    default: SynColor,
    scopes: &[&str],
    background: bool,
) -> (c: Option<Color32>)
    requires
        forall|s: &str| #[trigger] call_requires(*lookup, (s,)),
    ensures
        forall|styles: spec_fn(Seq<char>) -> Option<ScopeStyle>| #[trigger]
            gives_styles(*lookup, styles) ==> c == own_color(
                styles,
                default,
                scope_views(scopes@),
                background,
            ),
{
    let ghost all = scope_views(scopes@);
    let mut i: usize = 0;
    assert(all.skip(0) =~= all);
    while i < scopes.len()
        invariant
            i <= scopes@.len(),
            all == scope_views(scopes@),
            forall|s: &str| #[trigger] call_requires(*lookup, (s,)),
            forall|styles: spec_fn(Seq<char>) -> Option<ScopeStyle>| #[trigger]
                gives_styles(*lookup, styles) ==> own_color(styles, default, all, background)
                    == own_color(styles, default, all.skip(i as int), background),
        decreases scopes.len() - i,
    {
        assert(all.skip(i as int)[0] == scopes@[i as int]@);
        assert(all.skip(i as int).drop_first() =~= all.skip(i + 1));
        let found = lookup(scopes[i]);
        if let Some(style) = found {
            let c = if background {
                style.background
            } else {
                style.foreground
            };
            if c != default {
                return Some(syn_to_egui(c));
            }
        }
        i += 1;
    }
    None
}

/// The text colour of a theme: black where it sets none.
fn text_color(s: &ThemeSettings) -> (c: SynColor)
    ensures
        c == default_foreground(*s),
{
    match s.foreground {
        Some(c) => c,
        None => SynColor { r: 0, g: 0, b: 0, a: 0xFF },
    }
}

/// The background colour of a theme: white where it sets none.
fn pane_color(s: &ThemeSettings) -> (c: SynColor)
    ensures
        c == default_background(*s),
{
    match s.background {
        Some(c) => c,
        None => SynColor { r: 0xFF, g: 0xFF, b: 0xFF, a: 0xFF },
    }
}

/// The theme's own colour for changed lines.
fn changed_own<L: Fn(&str) -> Option<ScopeStyle>>(
    lookup: &L,
    default: SynColor,
    added: bool,
    background: bool,
) -> (c: Option<Color32>)
    requires
        forall|s: &str| #[trigger] call_requires(*lookup, (s,)),
    ensures
        forall|styles: spec_fn(Seq<char>) -> Option<ScopeStyle>| #[trigger]
            gives_styles(*lookup, styles) ==> c == own_color(
                styles,
                default,
                changed_scopes(added),
                background,
            ),
{
    let scopes: [&str; 2] = if added {
        ["markup.inserted.diff", "markup.inserted"]
    } else {
        ["markup.deleted.diff", "markup.deleted"]
    };
    assert(scope_views(scopes@) =~= changed_scopes(added));
    scope_attr(lookup, default, &scopes, background)
}

fn changed_text<L: Fn(&str) -> Option<ScopeStyle>>(
    s: &ThemeSettings,
    lookup: &L,
    light: bool,
    added: bool,
) -> (c: Color32)
    requires
        forall|s: &str| #[trigger] call_requires(*lookup, (s,)),
    ensures
        forall|styles: spec_fn(Seq<char>) -> Option<ScopeStyle>| #[trigger]
            gives_styles(*lookup, styles) ==> c == changed_color(*s, styles, light, added),
{
    match changed_own(lookup, text_color(s), added, false) {
        Some(c) => c,
        None => match (added, light) {
            (true, true) => Color32 { r: 35, g: 110, b: 45 },
            (true, false) => Color32 { r: 120, g: 200, b: 130 },
            (false, true) => Color32 { r: 150, g: 40, b: 50 },
            (false, false) => Color32 { r: 230, g: 130, b: 145 },
        },
    }
}

/// The band behind a changed line, where the colour of its text is `text`.
fn band<L: Fn(&str) -> Option<ScopeStyle>, M: Fn(Color32, Color32, u8) -> Color32>(
    s: &ThemeSettings,
    lookup: &L,
    light: bool,
    mix: &M,
    bg: DiffBg,
    added: bool,
    text: Color32,
) -> (c: Color32)
    requires
        forall|s: &str| #[trigger] call_requires(*lookup, (s,)),
        forall|a: Color32, b: Color32, p: u8| #[trigger] call_requires(*mix, (a, b, p)),
    ensures
        forall|
            styles: spec_fn(Seq<char>) -> Option<ScopeStyle>,
            mixed: spec_fn(Color32, Color32, u8) -> Color32,
        |
            #![trigger gives_styles(*lookup, styles), mixes(*mix, mixed)]
            gives_styles(*lookup, styles) && mixes(*mix, mixed) && text == changed_color(
                *s,
                styles,
                light,
                added,
            ) ==> c == band_color(*s, styles, light, mixed, bg, added),
{
    match bg {
        DiffBg::Fixed { added: own_added, deleted: own_deleted } => if added {
            match own_added {
                Some(c) => c,
                None => if light {
                    Color32 { r: 202, g: 236, b: 202 }
                } else {
                    default_added_band_dark()
                },
            }
        } else {
            match own_deleted {
                Some(c) => c,
                None => if light {
                    Color32 { r: 252, g: 206, b: 206 }
                } else {
                    default_deleted_band_dark()
                },
            }
        },
        DiffBg::Theme => match changed_own(lookup, pane_color(s), added, true) {
            Some(c) => c,
            None => mix(syn_to_egui(pane_color(s)), text, 30),
        },
    }
}

impl DiffPalette {
    /// The colours of the diff pane for a theme with those settings, whose colours for each scope
    /// `lookup` gives. `is_light` tells a light background from a dark one, and `mix` gives the
    /// colour that lies the given percentage of the way from one to the other. What is said holds of
    /// functions that answer the same for the same arguments.
    pub fn assemble<
        L: Fn(&str) -> Option<ScopeStyle>,
        F: Fn(Color32) -> bool,
        M: Fn(Color32, Color32, u8) -> Color32,
    >(settings: ThemeSettings, lookup: &L, diff_bg: DiffBg, is_light: &F, mix: &M) -> (p:
        DiffPalette)
        requires
            forall|s: &str| #[trigger] call_requires(*lookup, (s,)),
            forall|c: Color32| #[trigger] call_requires(*is_light, (c,)),
            forall|a: Color32, b: Color32, p: u8| #[trigger] call_requires(*mix, (a, b, p)),
        ensures
            forall|
                styles: spec_fn(Seq<char>) -> Option<ScopeStyle>,
                light: spec_fn(Color32) -> bool,
                mixed: spec_fn(Color32, Color32, u8) -> Color32,
            |
                #![trigger gives_styles(*lookup, styles), tells_light(*is_light, light), mixes(*mix, mixed)]
                gives_styles(*lookup, styles) && tells_light(*is_light, light) && mixes(*mix, mixed)
                    ==> p == palette_of(settings, styles, diff_bg, light, mixed),
    {
        let s = &settings;
        let default = text_color(s);
        let foreground = syn_to_egui(default);
        let background = syn_to_egui(pane_color(s));
        let light = is_light(background);
        let added = changed_text(s, lookup, light, true);
        let deleted = changed_text(s, lookup, light, false);
        let hunk_scopes: [&str; 2] = ["meta.diff.range", "meta.diff"];
        let header_scopes: [&str; 1] = ["meta.diff.header"];
        let dim_scopes: [&str; 1] = ["comment"];
        assert(scope_views(hunk_scopes@) =~= seq!["meta.diff.range"@, "meta.diff"@]);
        assert(scope_views(header_scopes@) =~= seq!["meta.diff.header"@]);
        assert(scope_views(dim_scopes@) =~= seq!["comment"@]);
        let hunk = match scope_attr(lookup, default, &hunk_scopes, false) {
            Some(c) => c,
            None => foreground,
        };
        let file_header = match scope_attr(lookup, default, &header_scopes, false) {
            Some(c) => c,
            None => foreground,
        };
        let dim = match scope_attr(lookup, default, &dim_scopes, false) {
            Some(c) => c,
            None => match settings.gutter_foreground {
                Some(c) => syn_to_egui(c),
                None => mix(foreground, background, 50),
            },
        };
        let marker = match settings.gutter_foreground {
            Some(c) => syn_to_egui(c),
            None => foreground,
        };
        let added_bg = band(s, lookup, light, mix, diff_bg, true, added);
        let deleted_bg = band(s, lookup, light, mix, diff_bg, false, deleted);
        DiffPalette {
            background,
            foreground,
            added,
            deleted,
            hunk,
            file_header,
            dim,
            marker,
            added_bg,
            deleted_bg,
        }
    }

    /// The colours of the diff pane for a theme; `None` where the collection lacks it.
    pub fn from_theme<F: Fn(Color32) -> bool, M: Fn(Color32, Color32, u8) -> Color32>(
        name: EmbeddedThemeName,
        diff_bg: DiffBg,
        is_light: &F,
        mix: &M,
    ) -> (p: Option<DiffPalette>)
        requires
            forall|c: Color32| #[trigger] call_requires(*is_light, (c,)),
            forall|a: Color32, b: Color32, p: u8| #[trigger] call_requires(*mix, (a, b, p)),
        ensures
            p is Some <==> settings_of(name.source_name()) is Some,
            forall|
                light: spec_fn(Color32) -> bool,
                mixed: spec_fn(Color32, Color32, u8) -> Color32,
            |
                #![trigger tells_light(*is_light, light), mixes(*mix, mixed)]
                tells_light(*is_light, light) && mixes(*mix, mixed) && p is Some ==> p == Some(
                    palette_of(
                        settings_of(name.source_name())->0,
                        |scope: Seq<char>| style_of(name.source_name(), scope),
                        diff_bg,
                        light,
                        mixed,
                    ),
                ),
    {
        let theme = name.as_name();
        match theme_settings(theme) {
            Some(settings) => {
                let lookup = |scope: &str| -> (s: Option<ScopeStyle>)
                    ensures
                        s == style_of(theme@, scope@),
                    { scope_style(theme, scope) };
                let ghost styles = |scope: Seq<char>| style_of(name.source_name(), scope);
                assert(gives_styles(lookup, styles));
                Some(DiffPalette::assemble(settings, &lookup, diff_bg, is_light, mix))
            },
            None => None,
        }
    }
}

/// The colours of the diff pane for a theme; `None` where the collection lacks it.
pub fn palette_for<F: Fn(Color32) -> bool, M: Fn(Color32, Color32, u8) -> Color32>(
    name: EmbeddedThemeName,
    diff_bg: DiffBg,
    is_light: &F,
    mix: &M,
) -> (p: Option<DiffPalette>)
    requires
        forall|c: Color32| #[trigger] call_requires(*is_light, (c,)),
        forall|a: Color32, b: Color32, p: u8| #[trigger] call_requires(*mix, (a, b, p)),
    ensures
        p is Some <==> settings_of(name.source_name()) is Some,
        forall|light: spec_fn(Color32) -> bool, mixed: spec_fn(Color32, Color32, u8) -> Color32|
            #![trigger tells_light(*is_light, light), mixes(*mix, mixed)]
            tells_light(*is_light, light) && mixes(*mix, mixed) && p is Some ==> p == Some(
                palette_of(
                    settings_of(name.source_name())->0,
                    |scope: Seq<char>| style_of(name.source_name(), scope),
                    diff_bg,
                    light,
                    mixed,
                ),
            ),
{
    DiffPalette::from_theme(name, diff_bg, is_light, mix)
}

/// Bands in given colours have them, whatever the theme; and without given colours, their colours
/// depend on nothing of the theme but whether it is light.
pub proof fn law_given_bands_win(
    s: ThemeSettings,
    styles: spec_fn(Seq<char>) -> Option<ScopeStyle>,
    light: spec_fn(Color32) -> bool,
    mix: spec_fn(Color32, Color32, u8) -> Color32,
    added: Option<Color32>,
    deleted: Option<Color32>,
)
    ensures
        ({
            let p = palette_of(s, styles, DiffBg::Fixed { added, deleted }, light, mix);
            let is_light = light(opaque(default_background(s)));
            &&& added matches Some(c) ==> p.added_bg == c
            &&& deleted matches Some(c) ==> p.deleted_bg == c
            &&& added is None ==> p.added_bg == if is_light {
                rgb(202, 236, 202)
            } else {
                rgb(10, 48, 10)
            }
            &&& deleted is None ==> p.deleted_bg == if is_light {
                rgb(252, 206, 206)
            } else {
                rgb(64, 12, 14)
            }
        }),
{
}

/// The colour with the parts of a theme's colour.
pub open spec fn shown_color(c: SynColor) -> Color32 {
    Color32 { r: c.r, g: c.g, b: c.b }
}

/// Whether the theme has a text colour of its own for the scope: one that is not that of its text.
pub open spec fn has_text_color(
    s: ThemeSettings,
    styles: spec_fn(Seq<char>) -> Option<ScopeStyle>,
    scope: Seq<char>,
) -> bool {
    styles(scope) is Some && styles(scope)->0.foreground != (if s.foreground is Some {
        s.foreground->0
    } else {
        SynColor { r: 0, g: 0, b: 0, a: 255 }
    })
}

/// Whether the theme has a background of its own for the scope.
pub open spec fn has_band_color(
    s: ThemeSettings,
    styles: spec_fn(Seq<char>) -> Option<ScopeStyle>,
    scope: Seq<char>,
) -> bool {
    styles(scope) is Some && styles(scope)->0.background != (if s.background is Some {
        s.background->0
    } else {
        SynColor { r: 255, g: 255, b: 255, a: 255 }
    })
}

/// The pane and its text have the theme's colours, and white and black where it sets none. The numbers
/// beside the lines have the colour of the theme's gutter, or else that of the text.
pub proof fn law_pane_has_the_colours_of_the_theme(
    s: ThemeSettings,
    styles: spec_fn(Seq<char>) -> Option<ScopeStyle>,
    bg: DiffBg,
    light: spec_fn(Color32) -> bool,
    mix: spec_fn(Color32, Color32, u8) -> Color32,
)
    ensures
        ({
            let p = palette_of(s, styles, bg, light, mix);
            let text = if s.foreground is Some {
                shown_color(s.foreground->0)
            } else {
                rgb(0, 0, 0)
            };
            let pane = if s.background is Some {
                shown_color(s.background->0)
            } else {
                rgb(255, 255, 255)
            };
            &&& p.foreground == text
            &&& p.background == pane
            &&& p.marker == if s.gutter_foreground is Some {
                shown_color(s.gutter_foreground->0)
            } else {
                text
            }
            &&& p.dim == if has_text_color(s, styles, "comment"@) {
                shown_color(styles("comment"@)->0.foreground)
            } else if s.gutter_foreground is Some {
                shown_color(s.gutter_foreground->0)
            } else {
                mix(text, pane, 50)
            }
            &&& p.file_header == if has_text_color(s, styles, "meta.diff.header"@) {
                shown_color(styles("meta.diff.header"@)->0.foreground)
            } else {
                text
            }
            &&& p.hunk == if has_text_color(s, styles, "meta.diff.range"@) {
                shown_color(styles("meta.diff.range"@)->0.foreground)
            } else if has_text_color(s, styles, "meta.diff"@) {
                shown_color(styles("meta.diff"@)->0.foreground)
            } else {
                text
            }
        }),
{
    reveal_with_fuel(own_color, 3);
    let two = seq!["meta.diff.range"@, "meta.diff"@];
    assert(two.drop_first() =~= seq!["meta.diff"@]);
    assert(seq!["meta.diff"@].drop_first() =~= Seq::<Seq<char>>::empty());
    assert(seq!["meta.diff.header"@].drop_first() =~= Seq::<Seq<char>>::empty());
    assert(seq!["comment"@].drop_first() =~= Seq::<Seq<char>>::empty());
}

/// Changed lines have the theme's own colours for them, the ones for diffs before the general ones;
/// and where it has none, green and red that suit a light or a dark pane. Bands that are to follow the
/// theme have its own backgrounds, or else lie three tenths of the way from the pane to the text.
pub proof fn law_changed_lines_have_the_colours_of_the_theme(
    s: ThemeSettings,
    styles: spec_fn(Seq<char>) -> Option<ScopeStyle>,
    bg: DiffBg,
    light: spec_fn(Color32) -> bool,
    mix: spec_fn(Color32, Color32, u8) -> Color32,
)
    ensures
        ({
            let p = palette_of(s, styles, bg, light, mix);
            let is_light = light(p.background);
            &&& p.added == if has_text_color(s, styles, "markup.inserted.diff"@) {
                shown_color(styles("markup.inserted.diff"@)->0.foreground)
            } else if has_text_color(s, styles, "markup.inserted"@) {
                shown_color(styles("markup.inserted"@)->0.foreground)
            } else if is_light {
                rgb(35, 110, 45)
            } else {
                rgb(120, 200, 130)
            }
            &&& p.deleted == if has_text_color(s, styles, "markup.deleted.diff"@) {
                shown_color(styles("markup.deleted.diff"@)->0.foreground)
            } else if has_text_color(s, styles, "markup.deleted"@) {
                shown_color(styles("markup.deleted"@)->0.foreground)
            } else if is_light {
                rgb(150, 40, 50)
            } else {
                rgb(230, 130, 145)
            }
            &&& bg is Theme ==> p.added_bg == if has_band_color(
                s,
                styles,
                "markup.inserted.diff"@,
            ) {
                shown_color(styles("markup.inserted.diff"@)->0.background)
            } else if has_band_color(s, styles, "markup.inserted"@) {
                shown_color(styles("markup.inserted"@)->0.background)
            } else {
                mix(p.background, p.added, 30)
            }
            &&& bg is Theme ==> p.deleted_bg == if has_band_color(
                s,
                styles,
                "markup.deleted.diff"@,
            ) {
                shown_color(styles("markup.deleted.diff"@)->0.background)
            } else if has_band_color(s, styles, "markup.deleted"@) {
                shown_color(styles("markup.deleted"@)->0.background)
            } else {
                mix(p.background, p.deleted, 30)
            }
        }),
{
    reveal_with_fuel(own_color, 3);
    let ins = seq!["markup.inserted.diff"@, "markup.inserted"@];
    let del = seq!["markup.deleted.diff"@, "markup.deleted"@];
    assert(ins.drop_first() =~= seq!["markup.inserted"@]);
    assert(del.drop_first() =~= seq!["markup.deleted"@]);
    assert(seq!["markup.inserted"@].drop_first() =~= Seq::<Seq<char>>::empty());
    assert(seq!["markup.deleted"@].drop_first() =~= Seq::<Seq<char>>::empty());
}

/// Bands in given colours have them, and green and red that suit a light or a dark pane otherwise.
pub proof fn law_fixed_bands_suit_the_pane(
    s: ThemeSettings,
    styles: spec_fn(Seq<char>) -> Option<ScopeStyle>,
    light: spec_fn(Color32) -> bool,
    mix: spec_fn(Color32, Color32, u8) -> Color32,
    added: Option<Color32>,
    deleted: Option<Color32>,
)
    ensures
        ({
            let p = palette_of(s, styles, DiffBg::Fixed { added, deleted }, light, mix);
            &&& p.added_bg == if added is Some {
                added->0
            } else if light(p.background) {
                Color32 { r: 202, g: 236, b: 202 }
            } else {
                Color32 { r: 10, g: 48, b: 10 }
            }
            &&& p.deleted_bg == if deleted is Some {
                deleted->0
            } else if light(p.background) {
                Color32 { r: 252, g: 206, b: 206 }
            } else {
                Color32 { r: 64, g: 12, b: 14 }
            }
        }),
{
}

} // verus!
