//! The configuration: fonts, the styles of texts, and how diffs are shown.

pub mod fonts;
pub mod template;

use vstd::prelude::*;

verus! {

/// A kind of text whose font can be set.
#[derive(Clone, Copy, PartialEq, Eq, Structural, Debug)]
pub enum Role {
    Diff,
    CommitSummary,
    CommitMeta,
    Refs,
    FileList,
    Ui,
}

/// One of the two families of fonts.
#[derive(Clone, Copy, PartialEq, Eq, Structural, Debug)]
pub enum Family {
    Monospace,
    Proportional,
}

impl Default for Family {
    fn default() -> (f: Family)
        ensures
            f == Family::Monospace,
    {
        Family::Monospace
    }
}

/// Where the two families come from: a font by its name, or a file by its path.
#[derive(Clone, Debug, PartialEq)]
pub struct FontsSection {
    pub monospace: Option<String>,
    pub proportional: Option<String>,
    pub monospace_path: Option<String>,
    pub proportional_path: Option<String>,
}

impl Default for FontsSection {
    fn default() -> (f: FontsSection)
        ensures
            f.monospace is None,
            f.proportional is None,
            f.monospace_path is None,
            f.proportional_path is None,
    {
        FontsSection {
            monospace: None,
            proportional: None,
            monospace_path: None,
            proportional_path: None,
        }
    }
}

/// What is set for a kind of text.
#[derive(Clone, Copy, PartialEq, Eq, Structural, Debug)]
pub struct TextStyle {
    pub font: Option<Family>,
}

/// What is set for each kind of text.
#[derive(Clone, Copy, PartialEq, Eq, Structural, Debug)]
pub struct TextSection {
    pub diff: TextStyle,
    pub commit_summary: TextStyle,
    pub commit_meta: TextStyle,
    pub refs: TextStyle,
    pub file_list: TextStyle,
    pub ui: TextStyle,
}

impl TextSection {
    /// What is set for a kind of text.
    pub open spec fn of(self, role: Role) -> TextStyle {
        match role {
            Role::Diff => self.diff,
            Role::CommitSummary => self.commit_summary,
            Role::CommitMeta => self.commit_meta,
            Role::Refs => self.refs,
            Role::FileList => self.file_list,
            Role::Ui => self.ui,
        }
    }

    /// What is set for a kind of text.
    pub fn style(&self, role: Role) -> (s: TextStyle)
        ensures
            s == self.of(role),
    {
        match role {
            Role::Diff => self.diff,
            Role::CommitSummary => self.commit_summary,
            Role::CommitMeta => self.commit_meta,
            Role::Refs => self.refs,
            Role::FileList => self.file_list,
            Role::Ui => self.ui,
        }
    }

    /// The family in which a kind of text is written: the one that is set, or that of the kind.
    pub fn family(&self, role: Role) -> (f: Family)
        ensures
            f == match self.of(role).font {
                Some(f) => f,
                None => default_family(role),
            },
    {
        match self.style(role).font {
            Some(f) => f,
            None => role_default(role).1,
        }
    }
}

/// The size of a kind of text where none is set, in pixels.
pub open spec fn default_size(role: Role) -> nat {
    match role {
        Role::Diff => 13,
        Role::CommitSummary => 13,
        Role::CommitMeta => 12,
        Role::Refs => 11,
        Role::FileList => 12,
        Role::Ui => 13,
    }
}

/// The family of a kind of text where none is set.
pub open spec fn default_family(role: Role) -> Family {
    Family::Monospace
}

/// The size in pixels and the family of a kind of text where none is set.
pub fn role_default(role: Role) -> (r: (u32, Family))
    ensures
        r.0 == default_size(role),
        r.1 == default_family(role),
{
    match role {
        Role::Diff => (13, Family::Monospace),
        Role::CommitSummary => (13, Family::Monospace),
        Role::CommitMeta => (12, Family::Monospace),
        Role::Refs => (11, Family::Monospace),
        Role::FileList => (12, Family::Monospace),
        Role::Ui => (13, Family::Monospace),
    }
}

/// Where the bands behind changed lines get their colours.
#[derive(Clone, Copy, PartialEq, Eq, Structural, Debug)]
pub enum BandSource {
    /// From the configuration, or colours that suit the theme.
    Fixed,
    /// From the theme.
    Theme,
}

impl Default for BandSource {
    fn default() -> (b: BandSource)
        ensures
            b == BandSource::Fixed,
    {
        BandSource::Fixed
    }
}

/// The bands behind changed lines.
#[derive(Clone, Debug, PartialEq)]
pub struct BandsSection {
    pub source: BandSource,
    pub added: Option<String>,
    pub deleted: Option<String>,
}

impl Default for BandsSection {
    fn default() -> (b: BandsSection)
        ensures
            b.source == BandSource::Fixed,
            b.added is None,
            b.deleted is None,
    {
        BandsSection { source: BandSource::Fixed, added: None, deleted: None }
    }
}

/// How the list of files is laid out.
#[derive(Clone, Copy, PartialEq, Eq, Structural, Debug)]
pub enum FileListLayout {
    /// By directory.
    Grouped,
    /// By path.
    Full,
    /// By name alone.
    Name,
}

impl Default for FileListLayout {
    fn default() -> (l: FileListLayout)
        ensures
            l == FileListLayout::Grouped,
    {
        FileListLayout::Grouped
    }
}

/// How diffs are shown.
#[derive(Clone, Debug, PartialEq)]
pub struct DiffSection {
    /// Whether the code is coloured.
    pub syntax: bool,
    /// Whether the block of change counts is shown.
    pub show_stats: bool,
    pub file_list: FileListLayout,
    /// The name of the theme.
    pub theme: Option<String>,
    pub bands: BandsSection,
    pub detect_renames: bool,
    pub detect_copies: bool,
}

impl Default for DiffSection {
    fn default() -> (d: DiffSection)
        ensures
            d.syntax,
            d.show_stats,
            d.file_list == FileListLayout::Grouped,
            d.theme is None,
            d.bands.source == BandSource::Fixed,
            d.bands.added is None,
            d.bands.deleted is None,
            d.detect_renames,
            !d.detect_copies,
    {
        DiffSection {
            syntax: true,
            show_stats: true,
            file_list: FileListLayout::Grouped,
            theme: None,
            bands: BandsSection::default(),
            detect_renames: true,
            detect_copies: false,
        }
    }
}

/// Text is monospace unless its own style says otherwise, whatever its kind.
pub proof fn law_text_is_monospace_unless_set(text: TextSection, role: Role)
    ensures
        default_family(role) == Family::Monospace,
        text.of(Role::Diff) == text.diff,
        text.of(Role::CommitSummary) == text.commit_summary,
        text.of(Role::CommitMeta) == text.commit_meta,
        text.of(Role::Refs) == text.refs,
        text.of(Role::FileList) == text.file_list,
        text.of(Role::Ui) == text.ui,
{
}

} // verus!
