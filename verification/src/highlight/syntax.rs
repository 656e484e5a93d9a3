//! The languages and themes that `syntect` and `two_face` know, and files read by them.

use two_face::re_exports::syntect::easy::HighlightLines;
use two_face::re_exports::syntect::highlighting::Theme;
use two_face::re_exports::syntect::parsing::{SyntaxReference, SyntaxSet};
use vstd::prelude::*;
use vstd::utf8::{encode_utf8, is_char_boundary};

use crate::highlight::palette::{opaque, settings_of, SynColor};
use crate::highlight::{token_start, Token};
use crate::text::{opt_text, utf8_len};

verus! {

/// The syntaxes of many languages.
#[verifier::external_type_specification]
#[verifier::external_body]
pub struct ExSyntaxSet(SyntaxSet);

/// The syntax of one language.
#[verifier::external_type_specification]
#[verifier::external_body]
pub struct ExSyntaxReference(SyntaxReference);

/// A theme.
#[verifier::external_type_specification]
#[verifier::external_body]
pub struct ExTheme(Theme);

/// How far a file has been read by a highlighter.
#[verifier::external_type_specification]
#[verifier::external_body]
pub struct ExHighlightLines<'a>(HighlightLines<'a>);

/// Whether the collection of syntaxes holds one for the extension.
pub uninterp spec fn knows_extension(ext: Seq<char>) -> bool;

/// The coloured runs, by colour and length in bytes, that are told apart in the last line of those
/// read of a file: in the colours of a theme of the collection, and in the language for the extension
/// or as plain text. `None` where the line cannot be read.
pub uninterp spec fn runs_in(
    theme: Seq<char>,
    ext: Option<Seq<char>>,
    read: Seq<Seq<char>>,
) -> Option<Seq<(SynColor, usize)>>;

/// The collection of syntaxes. There is one, and `all_syntaxes` alone makes it.
pub struct Syntaxes {
    set: SyntaxSet,
}

/// A syntax of the collection, and the extension by which it was found; `None` for plain text.
pub struct FoundSyntax<'a> {
    syntax: &'a SyntaxReference,
    ext: Option<String>,
}

/// A theme of the collection.
pub struct LoadedTheme {
    theme: Theme,
    name: Ghost<Seq<char>>,
}

/// How far a file has been read: the theme and the language in which that is done, and the lines.
pub struct FileState<'a> {
    lines: HighlightLines<'a>,
    syntaxes: &'a Syntaxes,
    language: Option<String>,
    theme: Ghost<Seq<char>>,
    read: Ghost<Seq<Seq<char>>>,
}

impl FoundSyntax<'_> {
    /// The extension by which the syntax was found; `None` for plain text.
    pub closed spec fn found_by(self) -> Option<Seq<char>> {
        opt_text(self.ext)
    }
}

impl LoadedTheme {
    /// The name of the theme in the collection.
    pub closed spec fn name(self) -> Seq<char> {
        self.name@
    }
}

impl FileState<'_> {
    /// The extension by which the language was told; `None` for plain text.
    pub closed spec fn told_by(self) -> Option<Seq<char>> {
        opt_text(self.language)
    }

    /// The name of the theme in the collection.
    pub closed spec fn theme(self) -> Seq<char> {
        self.theme@
    }

    /// The lines that have been read.
    pub closed spec fn read(self) -> Seq<Seq<char>> {
        self.read@
    }

    /// The extension by which the language was told; `None` for plain text.
    pub fn language(&self) -> (ext: Option<&str>)
        ensures
            match ext {
                Some(ext) => self.told_by() == Some(ext@),
                None => self.told_by() is None,
            },
    {
        match &self.language {
            Some(ext) => Some(ext.as_str()),
            None => None,
        }
    }
}

/// The runs without the transparency of their colours.
pub open spec fn plain_tokens(tokens: Seq<(SynColor, usize)>) -> Seq<Token> {
    tokens.map_values(|t: (SynColor, usize)| (opaque(t.0), t.1))
}

/// Whether runs of `line` begin and end between its characters, and reach no further than its end.
pub open spec fn runs_of(tokens: Seq<Token>, line: Seq<char>) -> bool {
    &&& token_start(tokens, tokens.len() as int) <= utf8_len(line)
    &&& forall|k: int|
        0 <= k <= tokens.len() ==> is_char_boundary(
            encode_utf8(line),
            #[trigger] token_start(tokens, k) as int,
        )
}

/// `two_face::syntax::extra_newlines` gives the collection of syntaxes, always the same: those that
/// `syntect` has of itself, that of plain text among them, and more.
#[verifier::external_body]
pub(crate) fn all_syntaxes() -> (all: Syntaxes) {
    Syntaxes { set: two_face::syntax::extra_newlines() }
}

/// `SyntaxSet::find_syntax_by_extension` gives the last syntax of the collection that lists the
/// extension, in any spelling, and `None` where none does. Which extensions these are is left unsaid.
#[verifier::external_body]
pub(crate) fn syntax_for<'a>(all: &'a Syntaxes, ext: &str) -> (found: Option<FoundSyntax<'a>>)
    ensures
        match found {
            Some(found) => knows_extension(ext@) && found.found_by() == Some(ext@),
            None => !knows_extension(ext@),
        },
{
    let syntax = all.set.find_syntax_by_extension(ext)?;
    Some(FoundSyntax { syntax, ext: Some(ext.to_string()) })
}

/// `SyntaxSet::find_syntax_plain_text` gives the syntax of plain text, which the collection holds.
#[verifier::external_body]
pub(crate) fn plain_syntax(all: &Syntaxes) -> (found: FoundSyntax<'_>)
    ensures
        found.found_by() is None,
{
    FoundSyntax { syntax: all.set.find_syntax_plain_text(), ext: None }
}

/// `two_face::theme::LazyThemeSet::get` gives the theme with that name in the collection that
/// `two_face::theme::extra` holds, and `None` for other names.
#[verifier::external_body]
pub(crate) fn theme_named(name: &str) -> (theme: Option<LoadedTheme>)
    ensures
        theme is Some <==> settings_of(name@) is Some,
        theme matches Some(theme) ==> theme.name() == name@,
{
    let set = two_face::theme::LazyThemeSet::from(two_face::theme::extra());
    let theme = set.get(name).cloned()?;
    Some(LoadedTheme { theme, name: Ghost(name@) })
}

/// `HighlightLines::new` starts to read a file in the language of the syntax and the colours of the
/// theme: no line has been read.
#[verifier::external_body]
pub(crate) fn start_lines<'a>(all: &'a Syntaxes, found: FoundSyntax<'a>, theme: &'a LoadedTheme) -> (state:
    FileState<'a>)
    ensures
        state.told_by() == found.found_by(),
        state.theme() == theme.name(),
        state.read() == Seq::<Seq<char>>::empty(),
{
    let lines = HighlightLines::new(found.syntax, &theme.theme);
    let (name, read) = (Ghost(theme.name@), Ghost(Seq::empty()));
    FileState { lines, syntaxes: all, language: found.ext, theme: name, read }
}

/// `HighlightLines::highlight_line` reads the next line of a file with the syntaxes among which its
/// own was found, and gives slices of the line with their colours: they follow one another from its
/// start, without a gap. They depend on the theme, the language and the lines read so far alone.
/// `None` stands for an error. Which runs and colours these are is left unsaid. That the line can be
/// cut into them rests on `ParseState::parse_line`, which promises its changes in the order of their
/// places in the line.
#[verifier::external_body]
pub(crate) fn next_runs(state: &mut FileState<'_>, line: &str) -> (tokens: Option<
    Vec<(SynColor, usize)>,
>)
    ensures
        final(state).told_by() == old(state).told_by(),
        final(state).theme() == old(state).theme(),
        final(state).read() == old(state).read().push(line@),
        match tokens {
            Some(t) => runs_in(old(state).theme(), old(state).told_by(), old(state).read().push(line@))
                == Some(t@) && runs_of(plain_tokens(t@), line@),
            None => runs_in(old(state).theme(), old(state).told_by(), old(state).read().push(line@))
                is None,
        },
{
    state.read = Ghost(state.read@.push(line@));
    let runs = state.lines.highlight_line(line, &state.syntaxes.set).ok()?;
    let plain = runs.into_iter().map(
        |(style, text)|
            {
                let c = style.foreground;
                (SynColor { r: c.r, g: c.g, b: c.b, a: c.a }, text.len())
            },
    );
    Some(plain.collect())
}

} // verus!
