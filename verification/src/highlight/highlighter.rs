//! Colouring the lines of a file in the language that its path tells.

use std::sync::Arc;

use vstd::prelude::*;
use vstd::string::*;
use vstd::utf8::{
    encode_utf8, encode_utf8_valid_utf8, is_char_boundary,
    is_char_boundary_iff_not_is_continuation_byte, is_char_boundary_start_end_of_seq,
};

use crate::highlight::palette::{
    mixes, palette_of, settings_of, style_of, syn_to_egui, tells_light, DiffBg, DiffPalette,
    SynColor,
};
use crate::highlight::syntax::{
    all_syntaxes, knows_extension, next_runs, plain_syntax, plain_tokens, runs_in, runs_of,
    start_lines, syntax_for, theme_named, FileState, LoadedTheme, Syntaxes,
};
use crate::highlight::theme::EmbeddedThemeName;
use crate::highlight::{
    extension, extension_of, law_bytes_have_the_colour_of_their_run,
    law_extension_follows_the_last_stop, span_views, spans_from, spans_of, token_start, Color32, Span,
    Token,
};
use crate::text::{byte_len, lemma_encode_concat, utf8_len};

verus! {

/// The syntaxes and the theme in use, and the colours of the pane.
pub struct Highlighter {
    syntaxes: Arc<Syntaxes>,
    theme: LoadedTheme,
    palette: DiffPalette,
}

fn to_tokens(tokens: &[(SynColor, usize)]) -> (out: Vec<Token>)
    ensures
        out@ == plain_tokens(tokens@),
{
    let mut out: Vec<Token> = Vec::new();
    let mut i: usize = 0;
    while i < tokens.len()
        invariant
            i <= tokens@.len(),
            out@ == plain_tokens(tokens@).take(i as int),
        decreases tokens.len() - i,
    {
        out.push((syn_to_egui(tokens[i].0), tokens[i].1));
        i += 1;
        assert(out@ =~= plain_tokens(tokens@).take(i as int));
    }
    assert(out@ =~= plain_tokens(tokens@));
    out
}

/// The extension by which the language of a path is told: its own, where there is a syntax for it.
pub open spec fn language_of(path: Seq<char>) -> Option<Seq<char>> {
    match extension(path) {
        Some(ext) => if knows_extension(ext) {
            Some(ext)
        } else {
            None
        },
        None => None,
    }
}

/// The coloured runs of a line of code that was read with its line feed: cut where that was. A line
/// that could not be read is one run in the colour of plain text.
pub open spec fn line_spans(
    runs: Option<Seq<(SynColor, usize)>>,
    code: Seq<char>,
    foreground: Color32,
) -> Seq<(Color32, int, int)> {
    match runs {
        Some(t) => spans_of(plain_tokens(t), utf8_len(code) as int, t.len() as int),
        None => seq![(foreground, 0, utf8_len(code) as int)],
    }
}

impl Highlighter {
    /// The name of the theme in the collection.
    pub closed spec fn theme_name(self) -> Seq<char> {
        self.theme.name()
    }

    /// The colours of the pane.
    pub closed spec fn colors(self) -> DiffPalette {
        self.palette
    }

    /// A highlighter for a theme; `None` where the collection lacks it.
    pub fn new<F: Fn(Color32) -> bool, M: Fn(Color32, Color32, u8) -> Color32>(
        name: EmbeddedThemeName,
        diff_bg: DiffBg,
        is_light: &F,
        mix: &M,
    ) -> (h: Option<Highlighter>)
        requires
            forall|c: Color32| #[trigger] call_requires(*is_light, (c,)),
            forall|a: Color32, b: Color32, p: u8| #[trigger] call_requires(*mix, (a, b, p)),
        ensures
            h is Some <==> settings_of(name.source_name()) is Some,
            h matches Some(h) ==> h.theme_name() == name.source_name(),
            forall|light: spec_fn(Color32) -> bool, mixed: spec_fn(Color32, Color32, u8) -> Color32|
                #![trigger tells_light(*is_light, light), mixes(*mix, mixed)]
                tells_light(*is_light, light) && mixes(*mix, mixed) ==> (h matches Some(h)
                    ==> h.colors() == theme_colors(name, diff_bg, light, mixed)),
    {
        let palette = DiffPalette::from_theme(name, diff_bg, is_light, mix)?;
        let theme = theme_named(name.as_name())?;
        Some(Highlighter { syntaxes: Arc::new(all_syntaxes()), theme, palette })
    }

    /// A highlighter with the same syntaxes for another theme; `None` where the collection lacks it.
    pub fn with_theme<F: Fn(Color32) -> bool, M: Fn(Color32, Color32, u8) -> Color32>(
        &self,
        name: EmbeddedThemeName,
        diff_bg: DiffBg,
        is_light: &F,
        mix: &M,
    ) -> (h: Option<Highlighter>)
        requires
            forall|c: Color32| #[trigger] call_requires(*is_light, (c,)),
            forall|a: Color32, b: Color32, p: u8| #[trigger] call_requires(*mix, (a, b, p)),
        ensures
            h is Some <==> settings_of(name.source_name()) is Some,
            h matches Some(h) ==> h.theme_name() == name.source_name(),
            forall|light: spec_fn(Color32) -> bool, mixed: spec_fn(Color32, Color32, u8) -> Color32|
                #![trigger tells_light(*is_light, light), mixes(*mix, mixed)]
                tells_light(*is_light, light) && mixes(*mix, mixed) ==> (h matches Some(h)
                    ==> h.colors() == theme_colors(name, diff_bg, light, mixed)),
    {
        let palette = DiffPalette::from_theme(name, diff_bg, is_light, mix)?;
        let theme = theme_named(name.as_name())?;
        Some(Highlighter { syntaxes: Arc::clone(&self.syntaxes), theme, palette })
    }

    /// The colours of the pane.
    pub fn palette(&self) -> (p: &DiffPalette)
        ensures
            *p == self.colors(),
    {
        &self.palette
    }

    /// Whether there is a syntax for files with the extension.
    pub fn has_syntax(&self, ext: &str) -> (r: bool)
        ensures
            r == knows_extension(ext@),
    {
        syntax_for(&self.syntaxes, ext).is_some()
    }

    /// The start of a file, in the language that the extension of its path tells, and as plain text
    /// where that tells none.
    pub fn new_file_state(&self, path: &str) -> (state: FileState<'_>)
        ensures
            state.told_by() == language_of(path@),
            state.theme() == self.theme_name(),
            state.read() == Seq::<Seq<char>>::empty(),
    {
        if let Some(ext) = extension_of(path) {
            if let Some(found) = syntax_for(&self.syntaxes, ext.as_str()) {
                return start_lines(&self.syntaxes, found, &self.theme);
            }
        }
        start_lines(&self.syntaxes, plain_syntax(&self.syntaxes), &self.theme)
    }

    /// Reads two lines of a made-up file with that extension, so that its language is ready when a
    /// file of it is read. How far that file has been read is of no further use.
    pub fn warm_extension(&self, ext: &str) -> (state: FileState<'_>)
        ensures
            state.told_by() == language_of("warm."@ + ext@),
            state.theme() == self.theme_name(),
            state.read() == seq!["let x = 1; // s\n"@, "\"text\"\n"@],
    {
        let mut path = String::from_str("warm.");
        path.append(ext);
        let mut state = self.new_file_state(path.as_str());
        let mut buf = String::new();
        self.tokenize_line(&mut state, "let x = 1; // s", &mut buf);
        self.tokenize_line(&mut state, "\"text\"", &mut buf);
        proof {
            reveal_strlit("let x = 1; // s");
            reveal_strlit("let x = 1; // s\n");
            reveal_strlit("\"text\"");
            reveal_strlit("\"text\"\n");
            assert("let x = 1; // s"@.push('\n') =~= "let x = 1; // s\n"@);
            assert("\"text\""@.push('\n') =~= "\"text\"\n"@);
            assert(state.read() =~= seq!["let x = 1; // s\n"@, "\"text\"\n"@]);
        }
        state
    }

    /// The coloured runs of the next line of a file: those that are told apart in the line and its
    /// line feed, cut where that was. A line that cannot be read is one run in the colour of plain
    /// text.
    pub fn tokenize_line(&self, state: &mut FileState<'_>, code: &str, buf: &mut String) -> (spans: Vec<
        Span,
    >)
        ensures
            final(state).told_by() == old(state).told_by(),
            final(state).theme() == old(state).theme(),
            final(state).read() == old(state).read().push(code@.push('\n')),
            final(buf)@ == code@.push('\n'),
            span_views(spans@) == line_spans(
                runs_in(old(state).theme(), old(state).told_by(), final(state).read()),
                code@,
                self.colors().foreground,
            ),
            runs_in(old(state).theme(), old(state).told_by(), final(state).read()) matches Some(t)
                ==> runs_of(plain_tokens(t), code@.push('\n')),
    {
        let mut line = String::from_str(code);
        line.push('\n');
        *buf = line;
        let code_len: usize = byte_len(code);
        match next_runs(state, buf.as_str()) {
            Some(runs) => {
                let tokens = to_tokens(&runs);
                let whole: usize = byte_len(buf.as_str());
                assert(token_start(tokens@, tokens@.len() as int) <= whole);
                spans_from(Some(&tokens), code_len, self.palette.foreground)
            },
            None => spans_from(None, code_len, self.palette.foreground),
        }
    }
}

/// A boundary of a line with its line feed is one of the line, as far as that reaches.
proof fn lemma_boundary_of_line(code: Seq<char>, p: int)
    requires
        is_char_boundary(encode_utf8(code.push('\n')), p),
        0 <= p <= utf8_len(code),
    ensures
        is_char_boundary(encode_utf8(code), p),
{
    let bytes = encode_utf8(code);
    let whole = encode_utf8(code.push('\n'));
    assert(code.push('\n') =~= code + seq!['\n']);
    lemma_encode_concat(code, seq!['\n']);
    encode_utf8_valid_utf8(code);
    encode_utf8_valid_utf8(code.push('\n'));
    if p < bytes.len() {
        assert(whole[p] == bytes[p]);
        is_char_boundary_iff_not_is_continuation_byte(whole, p);
        is_char_boundary_iff_not_is_continuation_byte(bytes, p);
    } else {
        is_char_boundary_start_end_of_seq(bytes);
    }
}

/// Where the runs of a line with its line feed begin and end between its characters, so do the
/// coloured runs of the line: its text can be cut there.
pub proof fn law_spans_begin_between_characters(tokens: Seq<Token>, code: Seq<char>, n: int)
    requires
        runs_of(tokens, code.push('\n')),
        0 <= n <= tokens.len(),
    ensures
        forall|k: int| #![trigger spans_of(tokens, utf8_len(code) as int, n)[k]]
            0 <= k < spans_of(tokens, utf8_len(code) as int, n).len() ==> {
                let s = spans_of(tokens, utf8_len(code) as int, n)[k];
                is_char_boundary(encode_utf8(code), s.1) && is_char_boundary(
                    encode_utf8(code),
                    s.2,
                )
            },
    decreases n,
{
    if n > 0 {
        law_spans_begin_between_characters(tokens, code, n - 1);
        let len = utf8_len(code) as int;
        let start = token_start(tokens, n - 1) as int;
        let stop = token_start(tokens, n) as int;
        encode_utf8_valid_utf8(code);
        is_char_boundary_start_end_of_seq(encode_utf8(code));
        if start < len {
            lemma_boundary_of_line(code, start);
        }
        if stop < len {
            lemma_boundary_of_line(code, stop);
        }
        let before = spans_of(tokens, len, n - 1);
        let now = spans_of(tokens, len, n);
        assert forall|k: int| 0 <= k < now.len() implies {
            let s = #[trigger] now[k];
            is_char_boundary(encode_utf8(code), s.1) && is_char_boundary(encode_utf8(code), s.2)
        } by {
            if k < before.len() {
                assert(now[k] == before[k]);
            } else {
                assert(now[k].1 == start);
            }
        }
    }
}

/// The colours of the pane for a theme of the collection.
pub open spec fn theme_colors(
    name: EmbeddedThemeName,
    diff_bg: DiffBg,
    light: spec_fn(Color32) -> bool,
    mixed: spec_fn(Color32, Color32, u8) -> Color32,
) -> DiffPalette {
    palette_of(
        settings_of(name.source_name())->0,
        |scope: Seq<char>| style_of(name.source_name(), scope),
        diff_bg,
        light,
        mixed,
    )
}

/// A file is read in the language of its extension, of whatever length, in whatever directory it is:
/// where there is a syntax for what follows the last full stop of its name, that is its language, and
/// otherwise it has none.
pub proof fn law_extension_tells_the_language(dir: Seq<char>, stem: Seq<char>, ext: Seq<char>)
    requires
        stem.len() > 0,
        !stem.contains('/'),
        !ext.contains('/') && !ext.contains('.'),
        stem.push('.') + ext != ".."@,
    ensures
        knows_extension(ext) ==> language_of(stem.push('.') + ext) == Some(ext) && language_of(
            dir + "/"@ + (stem.push('.') + ext),
        ) == Some(ext),
        !knows_extension(ext) ==> language_of(stem.push('.') + ext) is None && language_of(
            dir + "/"@ + (stem.push('.') + ext),
        ) is None,
{
    law_extension_follows_the_last_stop(dir, stem, ext);
}

/// The language of a path is its extension, wherever there is a syntax for it.
pub proof fn law_language_is_the_known_extension(path: Seq<char>, ext: Seq<char>)
    ensures
        extension(path) == Some(ext) && knows_extension(ext) ==> language_of(path) == Some(ext),
        extension(path) == Some(ext) && !knows_extension(ext) ==> language_of(path) is None,
        extension(path) is None ==> language_of(path) is None,
{
}

/// A line that was read is shown in the colours of its runs, byte by byte, as far as the line reaches;
/// one that was not is shown in the colour of plain text from its start to its end.
pub proof fn law_line_is_shown_in_its_runs(
    runs: Seq<(SynColor, usize)>,
    code: Seq<char>,
    foreground: Color32,
    k: int,
    p: int,
)
    requires
        0 <= k < runs.len(),
        token_start(plain_tokens(runs), k) <= p < token_start(plain_tokens(runs), k) + runs[k].1,
        p < encode_utf8(code).len(),
    ensures
        line_spans(None, code, foreground) == seq![(foreground, 0int, encode_utf8(code).len() as int)],
        exists|i: int|
            0 <= i < line_spans(Some(runs), code, foreground).len() && {
                let s = #[trigger] line_spans(Some(runs), code, foreground)[i];
                s.1 <= p < s.2 && s.0.r == runs[k].0.r && s.0.g == runs[k].0.g && s.0.b
                    == runs[k].0.b
            },
{
    let tokens = plain_tokens(runs);
    let len = encode_utf8(code).len() as int;
    law_bytes_have_the_colour_of_their_run(tokens, len, tokens.len() as int, k, p);
    let spans = spans_of(tokens, len, tokens.len() as int);
    let i = choose|i: int|
        0 <= i < spans.len() && (#[trigger] spans[i]).0 == tokens[k].0 && spans[i].1 <= p
            < spans[i].2;
    assert(line_spans(Some(runs), code, foreground)[i] == spans[i]);
}

} // verus!
