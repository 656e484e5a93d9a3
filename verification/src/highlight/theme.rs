//! The colour themes that can be chosen, and the names they go by.

use vstd::prelude::*;
use vstd::string::*;

use crate::text::same_text;

verus! {

/// A colour theme.
#[derive(Clone, Copy, PartialEq, Eq, Structural, Debug)]
pub enum EmbeddedThemeName {
    CatppuccinMocha,
    CatppuccinMacchiato,
    CatppuccinFrappe,
    CatppuccinLatte,
    Base16OceanDark,
    Base16OceanLight,
    Base16EightiesDark,
    Base16MochaDark,
    ColdarkCold,
    ColdarkDark,
    DarkNeon,
    Dracula,
    Github,
    GruvboxDark,
    GruvboxLight,
    InspiredGithub,
    Leet,
    MonokaiExtended,
    MonokaiExtendedBright,
    MonokaiExtendedLight,
    MonokaiExtendedOrigin,
    Nord,
    OneHalfDark,
    OneHalfLight,
    SolarizedDark,
    SolarizedLight,
    SublimeSnazzy,
    TwoDark,
    Zenburn,
}

/// The theme that is taken where none is chosen.
pub const DEFAULT_THEME: EmbeddedThemeName = EmbeddedThemeName::CatppuccinMocha;

/// The name of the theme that is taken where none is chosen.
pub const DEFAULT_THEME_SLUG: &'static str = "catppuccin-mocha";

impl EmbeddedThemeName {
    /// The name by which a theme is chosen.
    pub open spec fn slug_of(self) -> Seq<char> {
        match self {
            EmbeddedThemeName::CatppuccinMocha => "catppuccin-mocha"@,
            EmbeddedThemeName::CatppuccinMacchiato => "catppuccin-macchiato"@,
            EmbeddedThemeName::CatppuccinFrappe => "catppuccin-frappe"@,
            EmbeddedThemeName::CatppuccinLatte => "catppuccin-latte"@,
            EmbeddedThemeName::Base16OceanDark => "base16-ocean-dark"@,
            EmbeddedThemeName::Base16OceanLight => "base16-ocean-light"@,
            EmbeddedThemeName::Base16EightiesDark => "base16-eighties-dark"@,
            EmbeddedThemeName::Base16MochaDark => "base16-mocha-dark"@,
            EmbeddedThemeName::ColdarkCold => "coldark-cold"@,
            EmbeddedThemeName::ColdarkDark => "coldark-dark"@,
            EmbeddedThemeName::DarkNeon => "dark-neon"@,
            EmbeddedThemeName::Dracula => "dracula"@,
            EmbeddedThemeName::Github => "github"@,
            EmbeddedThemeName::GruvboxDark => "gruvbox-dark"@,
            EmbeddedThemeName::GruvboxLight => "gruvbox-light"@,
            EmbeddedThemeName::InspiredGithub => "inspired-github"@,
            EmbeddedThemeName::Leet => "leet"@,
            EmbeddedThemeName::MonokaiExtended => "monokai-extended"@,
            EmbeddedThemeName::MonokaiExtendedBright => "monokai-extended-bright"@,
            EmbeddedThemeName::MonokaiExtendedLight => "monokai-extended-light"@,
            EmbeddedThemeName::MonokaiExtendedOrigin => "monokai-extended-origin"@,
            EmbeddedThemeName::Nord => "nord"@,
            EmbeddedThemeName::OneHalfDark => "one-half-dark"@,
            EmbeddedThemeName::OneHalfLight => "one-half-light"@,
            EmbeddedThemeName::SolarizedDark => "solarized-dark"@,
            EmbeddedThemeName::SolarizedLight => "solarized-light"@,
            EmbeddedThemeName::SublimeSnazzy => "sublime-snazzy"@,
            EmbeddedThemeName::TwoDark => "two-dark"@,
            EmbeddedThemeName::Zenburn => "zenburn"@,
        }
    }

    /// The name of the theme in the collection from which it comes.
    pub open spec fn source_name(self) -> Seq<char> {
        match self {
            EmbeddedThemeName::CatppuccinMocha => "Catppuccin Mocha"@,
            EmbeddedThemeName::CatppuccinMacchiato => "Catppuccin Macchiato"@,
            EmbeddedThemeName::CatppuccinFrappe => "Catppuccin Frappe"@,
            EmbeddedThemeName::CatppuccinLatte => "Catppuccin Latte"@,
            EmbeddedThemeName::Base16OceanDark => "base16-ocean.dark"@,
            EmbeddedThemeName::Base16OceanLight => "base16-ocean.light"@,
            EmbeddedThemeName::Base16EightiesDark => "base16-eighties.dark"@,
            EmbeddedThemeName::Base16MochaDark => "base16-mocha.dark"@,
            EmbeddedThemeName::ColdarkCold => "Coldark-Cold"@,
            EmbeddedThemeName::ColdarkDark => "Coldark-Dark"@,
            EmbeddedThemeName::DarkNeon => "DarkNeon"@,
            EmbeddedThemeName::Dracula => "Dracula"@,
            EmbeddedThemeName::Github => "GitHub"@,
            EmbeddedThemeName::GruvboxDark => "gruvbox-dark"@,
            EmbeddedThemeName::GruvboxLight => "gruvbox-light"@,
            EmbeddedThemeName::InspiredGithub => "InspiredGitHub"@,
            EmbeddedThemeName::Leet => "1337"@,
            EmbeddedThemeName::MonokaiExtended => "Monokai Extended"@,
            EmbeddedThemeName::MonokaiExtendedBright => "Monokai Extended Bright"@,
            EmbeddedThemeName::MonokaiExtendedLight => "Monokai Extended Light"@,
            EmbeddedThemeName::MonokaiExtendedOrigin => "Monokai Extended Origin"@,
            EmbeddedThemeName::Nord => "Nord"@,
            EmbeddedThemeName::OneHalfDark => "OneHalfDark"@,
            EmbeddedThemeName::OneHalfLight => "OneHalfLight"@,
            EmbeddedThemeName::SolarizedDark => "Solarized (dark)"@,
            EmbeddedThemeName::SolarizedLight => "Solarized (light)"@,
            EmbeddedThemeName::SublimeSnazzy => "Sublime Snazzy"@,
            EmbeddedThemeName::TwoDark => "TwoDark"@,
            EmbeddedThemeName::Zenburn => "zenburn"@,
        }
    }

    /// The name by which a theme is chosen.
    pub fn slug(self) -> (s: &'static str)
        ensures
            s@ == self.slug_of(),
    {
        match self {
            EmbeddedThemeName::CatppuccinMocha => "catppuccin-mocha",
            EmbeddedThemeName::CatppuccinMacchiato => "catppuccin-macchiato",
            EmbeddedThemeName::CatppuccinFrappe => "catppuccin-frappe",
            EmbeddedThemeName::CatppuccinLatte => "catppuccin-latte",
            EmbeddedThemeName::Base16OceanDark => "base16-ocean-dark",
            EmbeddedThemeName::Base16OceanLight => "base16-ocean-light",
            EmbeddedThemeName::Base16EightiesDark => "base16-eighties-dark",
            EmbeddedThemeName::Base16MochaDark => "base16-mocha-dark",
            EmbeddedThemeName::ColdarkCold => "coldark-cold",
            EmbeddedThemeName::ColdarkDark => "coldark-dark",
            EmbeddedThemeName::DarkNeon => "dark-neon",
            EmbeddedThemeName::Dracula => "dracula",
            EmbeddedThemeName::Github => "github",
            EmbeddedThemeName::GruvboxDark => "gruvbox-dark",
            EmbeddedThemeName::GruvboxLight => "gruvbox-light",
            EmbeddedThemeName::InspiredGithub => "inspired-github",
            EmbeddedThemeName::Leet => "leet",
            EmbeddedThemeName::MonokaiExtended => "monokai-extended",
            EmbeddedThemeName::MonokaiExtendedBright => "monokai-extended-bright",
            EmbeddedThemeName::MonokaiExtendedLight => "monokai-extended-light",
            EmbeddedThemeName::MonokaiExtendedOrigin => "monokai-extended-origin",
            EmbeddedThemeName::Nord => "nord",
            EmbeddedThemeName::OneHalfDark => "one-half-dark",
            EmbeddedThemeName::OneHalfLight => "one-half-light",
            EmbeddedThemeName::SolarizedDark => "solarized-dark",
            EmbeddedThemeName::SolarizedLight => "solarized-light",
            EmbeddedThemeName::SublimeSnazzy => "sublime-snazzy",
            EmbeddedThemeName::TwoDark => "two-dark",
            EmbeddedThemeName::Zenburn => "zenburn",
        }
    }

    /// The name of the theme in the collection from which it comes.
    pub fn as_name(self) -> (s: &'static str)
        ensures
            s@ == self.source_name(),
    {
        match self {
            EmbeddedThemeName::CatppuccinMocha => "Catppuccin Mocha",
            EmbeddedThemeName::CatppuccinMacchiato => "Catppuccin Macchiato",
            EmbeddedThemeName::CatppuccinFrappe => "Catppuccin Frappe",
            EmbeddedThemeName::CatppuccinLatte => "Catppuccin Latte",
            EmbeddedThemeName::Base16OceanDark => "base16-ocean.dark",
            EmbeddedThemeName::Base16OceanLight => "base16-ocean.light",
            EmbeddedThemeName::Base16EightiesDark => "base16-eighties.dark",
            EmbeddedThemeName::Base16MochaDark => "base16-mocha.dark",
            EmbeddedThemeName::ColdarkCold => "Coldark-Cold",
            EmbeddedThemeName::ColdarkDark => "Coldark-Dark",
            EmbeddedThemeName::DarkNeon => "DarkNeon",
            EmbeddedThemeName::Dracula => "Dracula",
            EmbeddedThemeName::Github => "GitHub",
            EmbeddedThemeName::GruvboxDark => "gruvbox-dark",
            EmbeddedThemeName::GruvboxLight => "gruvbox-light",
            EmbeddedThemeName::InspiredGithub => "InspiredGitHub",
            EmbeddedThemeName::Leet => "1337",
            EmbeddedThemeName::MonokaiExtended => "Monokai Extended",
            EmbeddedThemeName::MonokaiExtendedBright => "Monokai Extended Bright",
            EmbeddedThemeName::MonokaiExtendedLight => "Monokai Extended Light",
            EmbeddedThemeName::MonokaiExtendedOrigin => "Monokai Extended Origin",
            EmbeddedThemeName::Nord => "Nord",
            EmbeddedThemeName::OneHalfDark => "OneHalfDark",
            EmbeddedThemeName::OneHalfLight => "OneHalfLight",
            EmbeddedThemeName::SolarizedDark => "Solarized (dark)",
            EmbeddedThemeName::SolarizedLight => "Solarized (light)",
            EmbeddedThemeName::SublimeSnazzy => "Sublime Snazzy",
            EmbeddedThemeName::TwoDark => "TwoDark",
            EmbeddedThemeName::Zenburn => "zenburn",
        }
    }
}

/// All themes that can be chosen, in the order in which they are listed.
pub open spec fn all_themes() -> Seq<EmbeddedThemeName> {
    seq![
        EmbeddedThemeName::CatppuccinMocha,
        EmbeddedThemeName::CatppuccinMacchiato,
        EmbeddedThemeName::CatppuccinFrappe,
        EmbeddedThemeName::CatppuccinLatte,
        EmbeddedThemeName::Base16OceanDark,
        EmbeddedThemeName::Base16OceanLight,
        EmbeddedThemeName::Base16EightiesDark,
        EmbeddedThemeName::Base16MochaDark,
        EmbeddedThemeName::ColdarkCold,
        EmbeddedThemeName::ColdarkDark,
        EmbeddedThemeName::DarkNeon,
        EmbeddedThemeName::Dracula,
        EmbeddedThemeName::Github,
        EmbeddedThemeName::GruvboxDark,
        EmbeddedThemeName::GruvboxLight,
        EmbeddedThemeName::InspiredGithub,
        EmbeddedThemeName::Leet,
        EmbeddedThemeName::MonokaiExtended,
        EmbeddedThemeName::MonokaiExtendedBright,
        EmbeddedThemeName::MonokaiExtendedLight,
        EmbeddedThemeName::MonokaiExtendedOrigin,
        EmbeddedThemeName::Nord,
        EmbeddedThemeName::OneHalfDark,
        EmbeddedThemeName::OneHalfLight,
        EmbeddedThemeName::SolarizedDark,
        EmbeddedThemeName::SolarizedLight,
        EmbeddedThemeName::SublimeSnazzy,
        EmbeddedThemeName::TwoDark,
        EmbeddedThemeName::Zenburn,
    ]
}

/// All themes that can be chosen.
pub fn themes() -> (v: Vec<EmbeddedThemeName>)
    ensures
        v@ == all_themes(),
{
    let v: Vec<EmbeddedThemeName> = vec![
        EmbeddedThemeName::CatppuccinMocha,
        EmbeddedThemeName::CatppuccinMacchiato,
        EmbeddedThemeName::CatppuccinFrappe,
        EmbeddedThemeName::CatppuccinLatte,
        EmbeddedThemeName::Base16OceanDark,
        EmbeddedThemeName::Base16OceanLight,
        EmbeddedThemeName::Base16EightiesDark,
        EmbeddedThemeName::Base16MochaDark,
        EmbeddedThemeName::ColdarkCold,
        EmbeddedThemeName::ColdarkDark,
        EmbeddedThemeName::DarkNeon,
        EmbeddedThemeName::Dracula,
        EmbeddedThemeName::Github,
        EmbeddedThemeName::GruvboxDark,
        EmbeddedThemeName::GruvboxLight,
        EmbeddedThemeName::InspiredGithub,
        EmbeddedThemeName::Leet,
        EmbeddedThemeName::MonokaiExtended,
        EmbeddedThemeName::MonokaiExtendedBright,
        EmbeddedThemeName::MonokaiExtendedLight,
        EmbeddedThemeName::MonokaiExtendedOrigin,
        EmbeddedThemeName::Nord,
        EmbeddedThemeName::OneHalfDark,
        EmbeddedThemeName::OneHalfLight,
        EmbeddedThemeName::SolarizedDark,
        EmbeddedThemeName::SolarizedLight,
        EmbeddedThemeName::SublimeSnazzy,
        EmbeddedThemeName::TwoDark,
        EmbeddedThemeName::Zenburn,
    ];
    assert(v@ =~= all_themes());
    v
}

/// The place of a theme in the list.
pub open spec fn place_of(t: EmbeddedThemeName) -> int {
    match t {
        EmbeddedThemeName::CatppuccinMocha => 0,
        EmbeddedThemeName::CatppuccinMacchiato => 1,
        EmbeddedThemeName::CatppuccinFrappe => 2,
        EmbeddedThemeName::CatppuccinLatte => 3,
        EmbeddedThemeName::Base16OceanDark => 4,
        EmbeddedThemeName::Base16OceanLight => 5,
        EmbeddedThemeName::Base16EightiesDark => 6,
        EmbeddedThemeName::Base16MochaDark => 7,
        EmbeddedThemeName::ColdarkCold => 8,
        EmbeddedThemeName::ColdarkDark => 9,
        EmbeddedThemeName::DarkNeon => 10,
        EmbeddedThemeName::Dracula => 11,
        EmbeddedThemeName::Github => 12,
        EmbeddedThemeName::GruvboxDark => 13,
        EmbeddedThemeName::GruvboxLight => 14,
        EmbeddedThemeName::InspiredGithub => 15,
        EmbeddedThemeName::Leet => 16,
        EmbeddedThemeName::MonokaiExtended => 17,
        EmbeddedThemeName::MonokaiExtendedBright => 18,
        EmbeddedThemeName::MonokaiExtendedLight => 19,
        EmbeddedThemeName::MonokaiExtendedOrigin => 20,
        EmbeddedThemeName::Nord => 21,
        EmbeddedThemeName::OneHalfDark => 22,
        EmbeddedThemeName::OneHalfLight => 23,
        EmbeddedThemeName::SolarizedDark => 24,
        EmbeddedThemeName::SolarizedLight => 25,
        EmbeddedThemeName::SublimeSnazzy => 26,
        EmbeddedThemeName::TwoDark => 27,
        EmbeddedThemeName::Zenburn => 28,
    }
}

/// Every theme is listed.
pub proof fn law_every_theme_is_listed(t: EmbeddedThemeName)
    ensures
        0 <= place_of(t) < all_themes().len(),
        all_themes()[place_of(t)] == t,
{
}

/// The theme with that name; `None` where there is none.
pub fn theme_for_slug(slug: &str) -> (theme: Option<EmbeddedThemeName>)
    ensures
        match theme {
            Some(t) => t.slug_of() == slug@,
            None => forall|t: EmbeddedThemeName| #[trigger] t.slug_of() != slug@,
        },
{
    let all = themes();
    let mut i: usize = 0;
    while i < all.len()
        invariant
            i <= all@.len(),
            all@ == all_themes(),
            forall|k: int| 0 <= k < i ==> (#[trigger] all@[k]).slug_of() != slug@,
        decreases all.len() - i,
    {
        if same_text(all[i].slug(), slug) {
            return Some(all[i]);
        }
        i += 1;
    }
    proof {
        assert forall|t: EmbeddedThemeName| #[trigger] t.slug_of() != slug@ by {
            law_every_theme_is_listed(t);
            assert(all@[place_of(t)].slug_of() != slug@);
        }
    }
    None
}

/// The names of all themes, that of the default first.
pub fn theme_slugs() -> (v: Vec<&'static str>)
    ensures
        v@.len() == all_themes().len(),
        forall|k: int| #![trigger v@[k]] 0 <= k < v@.len() ==> v@[k]@ == all_themes()[k].slug_of(),
{
    let all = themes();
    let mut v: Vec<&'static str> = Vec::new();
    let mut i: usize = 0;
    while i < all.len()
        invariant
            i <= all@.len(),
            all@ == all_themes(),
            v@.len() == i,
            forall|k: int| #![trigger v@[k]] 0 <= k < i ==> v@[k]@ == all_themes()[k].slug_of(),
        decreases all.len() - i,
    {
        v.push(all[i].slug());
        i += 1;
    }
    v
}

/// Two themes do not share a name: a name stands for one theme.
pub proof fn law_slugs_are_told_apart(a: EmbeddedThemeName, b: EmbeddedThemeName)
    requires
        a.slug_of() == b.slug_of(),
    ensures
        a == b,
{
    assert("catppuccin-mocha"@.len() == 16 && "catppuccin-mocha"@[8] == 'i' && "catppuccin-mocha"@[
        14
    ] == 'h') by {
        reveal_strlit("catppuccin-mocha");
    }
    assert("catppuccin-macchiato"@.len() == 20 && "catppuccin-macchiato"@[12] == 'a' && "catppuccin-macchiato"@[
        18
    ] == 't') by {
        reveal_strlit("catppuccin-macchiato");
    }
    assert("catppuccin-frappe"@.len() == 17 && "catppuccin-frappe"@[9] == 'n' && "catppuccin-frappe"@[
        15
    ] == 'p') by {
        reveal_strlit("catppuccin-frappe");
    }
    assert("catppuccin-latte"@.len() == 16 && "catppuccin-latte"@[8] == 'i' && "catppuccin-latte"@[
        14
    ] == 't') by {
        reveal_strlit("catppuccin-latte");
    }
    assert("base16-ocean-dark"@.len() == 17 && "base16-ocean-dark"@[9] == 'e' && "base16-ocean-dark"@[
        15
    ] == 'r') by {
        reveal_strlit("base16-ocean-dark");
    }
    assert("base16-ocean-light"@.len() == 18 && "base16-ocean-light"@[10] == 'a' && "base16-ocean-light"@[
        16
    ] == 'h') by {
        reveal_strlit("base16-ocean-light");
    }
    assert("base16-eighties-dark"@.len() == 20 && "base16-eighties-dark"@[12] == 'i' && "base16-eighties-dark"@[
        18
    ] == 'r') by {
        reveal_strlit("base16-eighties-dark");
    }
    assert("base16-mocha-dark"@.len() == 17 && "base16-mocha-dark"@[9] == 'c' && "base16-mocha-dark"@[
        15
    ] == 'r') by {
        reveal_strlit("base16-mocha-dark");
    }
    assert("coldark-cold"@.len() == 12 && "coldark-cold"@[4] == 'a' && "coldark-cold"@[
        10
    ] == 'l') by {
        reveal_strlit("coldark-cold");
    }
    assert("coldark-dark"@.len() == 12 && "coldark-dark"@[4] == 'a' && "coldark-dark"@[
        10
    ] == 'r') by {
        reveal_strlit("coldark-dark");
    }
    assert("dark-neon"@.len() == 9 && "dark-neon"@[1] == 'a' && "dark-neon"@[7] == 'o') by {
        reveal_strlit("dark-neon");
    }
    assert("dracula"@.len() == 7 && "dracula"@[5] == 'l') by {
        reveal_strlit("dracula");
    }
    assert("github"@.len() == 6 && "github"@[4] == 'u') by {
        reveal_strlit("github");
    }
    assert("gruvbox-dark"@.len() == 12 && "gruvbox-dark"@[4] == 'b' && "gruvbox-dark"@[
        10
    ] == 'r') by {
        reveal_strlit("gruvbox-dark");
    }
    assert("gruvbox-light"@.len() == 13 && "gruvbox-light"@[5] == 'o' && "gruvbox-light"@[
        11
    ] == 'h') by {
        reveal_strlit("gruvbox-light");
    }
    assert("inspired-github"@.len() == 15 && "inspired-github"@[7] == 'd' && "inspired-github"@[
        13
    ] == 'u') by {
        reveal_strlit("inspired-github");
    }
    assert("leet"@.len() == 4 && "leet"@[2] == 'e') by {
        reveal_strlit("leet");
    }
    assert("monokai-extended"@.len() == 16 && "monokai-extended"@[8] == 'e' && "monokai-extended"@[
        14
    ] == 'e') by {
        reveal_strlit("monokai-extended");
    }
    assert("monokai-extended-bright"@.len() == 23 && "monokai-extended-bright"@[15] == 'd' && "monokai-extended-bright"@[
        21
    ] == 'h') by {
        reveal_strlit("monokai-extended-bright");
    }
    assert("monokai-extended-light"@.len() == 22 && "monokai-extended-light"@[14] == 'e' && "monokai-extended-light"@[
        20
    ] == 'h') by {
        reveal_strlit("monokai-extended-light");
    }
    assert("monokai-extended-origin"@.len() == 23 && "monokai-extended-origin"@[15] == 'd' && "monokai-extended-origin"@[
        21
    ] == 'i') by {
        reveal_strlit("monokai-extended-origin");
    }
    assert("nord"@.len() == 4 && "nord"@[2] == 'r') by {
        reveal_strlit("nord");
    }
    assert("one-half-dark"@.len() == 13 && "one-half-dark"@[5] == 'a' && "one-half-dark"@[
        11
    ] == 'r') by {
        reveal_strlit("one-half-dark");
    }
    assert("one-half-light"@.len() == 14 && "one-half-light"@[6] == 'l' && "one-half-light"@[
        12
    ] == 'h') by {
        reveal_strlit("one-half-light");
    }
    assert("solarized-dark"@.len() == 14 && "solarized-dark"@[6] == 'z' && "solarized-dark"@[
        12
    ] == 'r') by {
        reveal_strlit("solarized-dark");
    }
    assert("solarized-light"@.len() == 15 && "solarized-light"@[7] == 'e' && "solarized-light"@[
        13
    ] == 'h') by {
        reveal_strlit("solarized-light");
    }
    assert("sublime-snazzy"@.len() == 14 && "sublime-snazzy"@[6] == 'e' && "sublime-snazzy"@[
        12
    ] == 'z') by {
        reveal_strlit("sublime-snazzy");
    }
    assert("two-dark"@.len() == 8 && "two-dark"@[0] == 't' && "two-dark"@[6] == 'r') by {
        reveal_strlit("two-dark");
    }
    assert("zenburn"@.len() == 7 && "zenburn"@[5] == 'r') by {
        reveal_strlit("zenburn");
    }
    let s = a.slug_of();
    let t = b.slug_of();
    assert(s.len() == t.len() && s[s.len() - 8] == t[t.len() - 8] && s[s.len() - 2] == t[t.len() - 2]);
}

/// The text that `Debug` writes for a text.
pub uninterp spec fn quoted(s: Seq<char>) -> Seq<char>;

/// The `Debug` form of a text: the text in quotation marks, with some characters escaped. Letters,
/// digits and hyphens are not; which others are is left unsaid.
#[verifier::external_body]
fn debug_text(s: &str) -> (q: String)
    ensures
        q@ == quoted(s@),
        (forall|i: int| 0 <= i < s@.len() ==> is_plain(#[trigger] s@[i])) ==> q@ == seq!['"'] + s@
            + seq!['"'],
{
    format!("{s:?}")
}

/// A character that is not escaped: a letter or digit of ASCII, or a hyphen.
pub open spec fn is_plain(c: char) -> bool {
    'a' <= c <= 'z' || 'A' <= c <= 'Z' || '0' <= c <= '9' || c == '-'
}

/// What is said of a theme that does not exist.
pub open spec fn unknown_theme(quoted_slug: Seq<char>) -> Seq<char> {
    "unknown syntax theme "@ + quoted_slug + "; using "@ + "catppuccin-mocha"@
}

/// What is said of a theme that does not exist, whose name in quotation marks is `quoted_slug`.
pub fn unknown_theme_text(quoted_slug: &str) -> (s: String)
    ensures
        s@ == unknown_theme(quoted_slug@),
{
    let mut s = String::from_str("unknown syntax theme ");
    s.append(quoted_slug);
    s.append("; using ");
    s.append("catppuccin-mocha");
    s
}

/// The chosen theme, or the default where none is chosen; with a warning where there is no such
/// theme.
pub fn resolve_theme(slug: Option<&str>) -> (r: (EmbeddedThemeName, Option<String>))
    ensures
        match slug {
            None => r.0 == DEFAULT_THEME && r.1 is None,
            Some(s) => if exists|t: EmbeddedThemeName| #[trigger] t.slug_of() == s@ {
                r.0.slug_of() == s@ && r.1 is None
            } else {
                r.0 == DEFAULT_THEME && (r.1 matches Some(w) && w@ == unknown_theme(quoted(s@)))
            },
        },
{
    match slug {
        None => (DEFAULT_THEME, None),
        Some(s) => match theme_for_slug(s) {
            Some(t) => (t, None),
            None => (DEFAULT_THEME, Some(unknown_theme_text(&debug_text(s)))),
        },
    }
}

/// The theme that is chosen by a name is the one that the collection holds under the same words.
pub proof fn law_chosen_theme_is_loaded(t: EmbeddedThemeName)
    ensures
        t.slug_of() == "catppuccin-mocha"@ ==> t.source_name() == "Catppuccin Mocha"@,
        t.slug_of() == "catppuccin-macchiato"@ ==> t.source_name() == "Catppuccin Macchiato"@,
        t.slug_of() == "catppuccin-frappe"@ ==> t.source_name() == "Catppuccin Frappe"@,
        t.slug_of() == "catppuccin-latte"@ ==> t.source_name() == "Catppuccin Latte"@,
        t.slug_of() == "base16-ocean-dark"@ ==> t.source_name() == "base16-ocean.dark"@,
        t.slug_of() == "base16-ocean-light"@ ==> t.source_name() == "base16-ocean.light"@,
        t.slug_of() == "base16-eighties-dark"@ ==> t.source_name() == "base16-eighties.dark"@,
        t.slug_of() == "base16-mocha-dark"@ ==> t.source_name() == "base16-mocha.dark"@,
        t.slug_of() == "coldark-cold"@ ==> t.source_name() == "Coldark-Cold"@,
        t.slug_of() == "coldark-dark"@ ==> t.source_name() == "Coldark-Dark"@,
        t.slug_of() == "dark-neon"@ ==> t.source_name() == "DarkNeon"@,
        t.slug_of() == "dracula"@ ==> t.source_name() == "Dracula"@,
        t.slug_of() == "github"@ ==> t.source_name() == "GitHub"@,
        t.slug_of() == "gruvbox-dark"@ ==> t.source_name() == "gruvbox-dark"@,
        t.slug_of() == "gruvbox-light"@ ==> t.source_name() == "gruvbox-light"@,
        t.slug_of() == "inspired-github"@ ==> t.source_name() == "InspiredGitHub"@,
        t.slug_of() == "leet"@ ==> t.source_name() == "1337"@,
        t.slug_of() == "monokai-extended"@ ==> t.source_name() == "Monokai Extended"@,
        t.slug_of() == "monokai-extended-bright"@ ==> t.source_name() == "Monokai Extended Bright"@,
        t.slug_of() == "monokai-extended-light"@ ==> t.source_name() == "Monokai Extended Light"@,
        t.slug_of() == "monokai-extended-origin"@ ==> t.source_name() == "Monokai Extended Origin"@,
        t.slug_of() == "nord"@ ==> t.source_name() == "Nord"@,
        t.slug_of() == "one-half-dark"@ ==> t.source_name() == "OneHalfDark"@,
        t.slug_of() == "one-half-light"@ ==> t.source_name() == "OneHalfLight"@,
        t.slug_of() == "solarized-dark"@ ==> t.source_name() == "Solarized (dark)"@,
        t.slug_of() == "solarized-light"@ ==> t.source_name() == "Solarized (light)"@,
        t.slug_of() == "sublime-snazzy"@ ==> t.source_name() == "Sublime Snazzy"@,
        t.slug_of() == "two-dark"@ ==> t.source_name() == "TwoDark"@,
        t.slug_of() == "zenburn"@ ==> t.source_name() == "zenburn"@,
{
    if t.slug_of() == "catppuccin-mocha"@ {
        law_slugs_are_told_apart(t, EmbeddedThemeName::CatppuccinMocha);
    }
    if t.slug_of() == "catppuccin-macchiato"@ {
        law_slugs_are_told_apart(t, EmbeddedThemeName::CatppuccinMacchiato);
    }
    if t.slug_of() == "catppuccin-frappe"@ {
        law_slugs_are_told_apart(t, EmbeddedThemeName::CatppuccinFrappe);
    }
    if t.slug_of() == "catppuccin-latte"@ {
        law_slugs_are_told_apart(t, EmbeddedThemeName::CatppuccinLatte);
    }
    if t.slug_of() == "base16-ocean-dark"@ {
        law_slugs_are_told_apart(t, EmbeddedThemeName::Base16OceanDark);
    }
    if t.slug_of() == "base16-ocean-light"@ {
        law_slugs_are_told_apart(t, EmbeddedThemeName::Base16OceanLight);
    }
    if t.slug_of() == "base16-eighties-dark"@ {
        law_slugs_are_told_apart(t, EmbeddedThemeName::Base16EightiesDark);
    }
    if t.slug_of() == "base16-mocha-dark"@ {
        law_slugs_are_told_apart(t, EmbeddedThemeName::Base16MochaDark);
    }
    if t.slug_of() == "coldark-cold"@ {
        law_slugs_are_told_apart(t, EmbeddedThemeName::ColdarkCold);
    }
    if t.slug_of() == "coldark-dark"@ {
        law_slugs_are_told_apart(t, EmbeddedThemeName::ColdarkDark);
    }
    if t.slug_of() == "dark-neon"@ {
        law_slugs_are_told_apart(t, EmbeddedThemeName::DarkNeon);
    }
    if t.slug_of() == "dracula"@ {
        law_slugs_are_told_apart(t, EmbeddedThemeName::Dracula);
    }
    if t.slug_of() == "github"@ {
        law_slugs_are_told_apart(t, EmbeddedThemeName::Github);
    }
    if t.slug_of() == "gruvbox-dark"@ {
        law_slugs_are_told_apart(t, EmbeddedThemeName::GruvboxDark);
    }
    if t.slug_of() == "gruvbox-light"@ {
        law_slugs_are_told_apart(t, EmbeddedThemeName::GruvboxLight);
    }
    if t.slug_of() == "inspired-github"@ {
        law_slugs_are_told_apart(t, EmbeddedThemeName::InspiredGithub);
    }
    if t.slug_of() == "leet"@ {
        law_slugs_are_told_apart(t, EmbeddedThemeName::Leet);
    }
    if t.slug_of() == "monokai-extended"@ {
        law_slugs_are_told_apart(t, EmbeddedThemeName::MonokaiExtended);
    }
    if t.slug_of() == "monokai-extended-bright"@ {
        law_slugs_are_told_apart(t, EmbeddedThemeName::MonokaiExtendedBright);
    }
    if t.slug_of() == "monokai-extended-light"@ {
        law_slugs_are_told_apart(t, EmbeddedThemeName::MonokaiExtendedLight);
    }
    if t.slug_of() == "monokai-extended-origin"@ {
        law_slugs_are_told_apart(t, EmbeddedThemeName::MonokaiExtendedOrigin);
    }
    if t.slug_of() == "nord"@ {
        law_slugs_are_told_apart(t, EmbeddedThemeName::Nord);
    }
    if t.slug_of() == "one-half-dark"@ {
        law_slugs_are_told_apart(t, EmbeddedThemeName::OneHalfDark);
    }
    if t.slug_of() == "one-half-light"@ {
        law_slugs_are_told_apart(t, EmbeddedThemeName::OneHalfLight);
    }
    if t.slug_of() == "solarized-dark"@ {
        law_slugs_are_told_apart(t, EmbeddedThemeName::SolarizedDark);
    }
    if t.slug_of() == "solarized-light"@ {
        law_slugs_are_told_apart(t, EmbeddedThemeName::SolarizedLight);
    }
    if t.slug_of() == "sublime-snazzy"@ {
        law_slugs_are_told_apart(t, EmbeddedThemeName::SublimeSnazzy);
    }
    if t.slug_of() == "two-dark"@ {
        law_slugs_are_told_apart(t, EmbeddedThemeName::TwoDark);
    }
    if t.slug_of() == "zenburn"@ {
        law_slugs_are_told_apart(t, EmbeddedThemeName::Zenburn);
    }
}

/// The theme without a choice is the one of the name that is told to the user.
pub proof fn law_default_theme_has_its_name()
    ensures
        DEFAULT_THEME.slug_of() == DEFAULT_THEME_SLUG@,
        DEFAULT_THEME.slug_of() == "catppuccin-mocha"@,
{
}

} // verus!
