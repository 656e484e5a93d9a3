//! Colours of the diff pane: themes, and the coloured runs of a line.

pub mod highlighter;
pub mod palette;
pub mod syntax;
pub mod theme;

use std::ops::Range;
use vstd::prelude::*;
use vstd::slice::slice_subrange;

use crate::chars::{same_chars, split, split_char};
use crate::cli::{components, lemma_components_below};
use crate::text::{chars_of, string_of};

verus! {

/// An opaque colour.
#[derive(Clone, Copy, PartialEq, Eq, Structural, Debug)]
pub struct Color32 {
    pub r: u8,
    pub g: u8,
    pub b: u8,
}

/// A run of text in one colour: the colour, and the byte range of the run within the line.
pub type Span = (Color32, Range<usize>);

/// The value of a hexadecimal digit.
pub open spec fn hex_value(c: char) -> Option<nat> {
    if '0' <= c <= '9' {
        Some((c as nat - '0' as nat) as nat)
    } else if 'a' <= c <= 'f' {
        Some((c as nat - 'a' as nat + 10) as nat)
    } else if 'A' <= c <= 'F' {
        Some((c as nat - 'A' as nat + 10) as nat)
    } else {
        None
    }
}

/// The number that two hexadecimal digits spell.
pub open spec fn hex_pair(a: char, b: char) -> Option<nat> {
    match (hex_value(a), hex_value(b)) {
        (Some(x), Some(y)) => Some(16 * x + y),
        _ => None,
    }
}

/// The six characters of a colour, which a number sign may precede.
pub open spec fn hex_digits(s: Seq<char>) -> Seq<char> {
    if s.len() > 0 && s[0] == '#' {
        s.skip(1)
    } else {
        s
    }
}

/// The colour that the text spells: three pairs of hexadecimal digits.
pub open spec fn hex_color(s: Seq<char>) -> Option<Color32> {
    let d = hex_digits(s);
    if d.len() != 6 {
        None
    } else {
        match (hex_pair(d[0], d[1]), hex_pair(d[2], d[3]), hex_pair(d[4], d[5])) {
            (Some(r), Some(g), Some(b)) => Some(Color32 { r: r as u8, g: g as u8, b: b as u8 }),
            _ => None,
        }
    }
}

fn digit(c: char) -> (n: Option<u8>)
    ensures
        match n {
            Some(n) => hex_value(c) == Some(n as nat) && n < 16,
            None => hex_value(c) is None,
        },
{
    if '0' <= c && c <= '9' {
        Some((c as u32 - '0' as u32) as u8)
    } else if 'a' <= c && c <= 'f' {
        Some((c as u32 - 'a' as u32 + 10) as u8)
    } else if 'A' <= c && c <= 'F' {
        Some((c as u32 - 'A' as u32 + 10) as u8)
    } else {
        None
    }
}

fn pair(a: char, b: char) -> (n: Option<u8>)
    ensures
        match n {
            Some(n) => hex_pair(a, b) == Some(n as nat),
            None => hex_pair(a, b) is None,
        },
{
    match (digit(a), digit(b)) {
        (Some(x), Some(y)) => Some(16 * x + y),
        _ => None,
    }
}

/// The colour that a text such as `#0a300a` spells; `None` where it spells none.
pub fn parse_hex(s: &str) -> (c: Option<Color32>)
    ensures
        c == hex_color(s@),
{
    let chars = chars_of(s);
    let start: usize = if chars.len() > 0 && chars[0] == '#' {
        1
    } else {
        0
    };
    assert(hex_digits(s@) =~= chars@.subrange(start as int, chars@.len() as int));
    if chars.len() - start != 6 {
        return None;
    }
    let r = pair(chars[start], chars[start + 1]);
    let g = pair(chars[start + 2], chars[start + 3]);
    let b = pair(chars[start + 4], chars[start + 5]);
    match (r, g, b) {
        (Some(r), Some(g), Some(b)) => Some(Color32 { r, g, b }),
        _ => None,
    }
}

/// A run of text in one colour, by its length in bytes. Runs follow one another without a gap.
pub type Token = (Color32, usize);

/// The bytes of the first `n` runs.
pub open spec fn token_start(tokens: Seq<Token>, n: int) -> nat
    decreases n,
{
    if n <= 0 {
        0
    } else {
        token_start(tokens, n - 1) + tokens[n - 1].1 as nat
    }
}

/// The coloured runs of the first `n` runs of a line of `len` bytes: what lies behind the line is cut
/// off, and empty runs are left out.
pub open spec fn spans_of(tokens: Seq<Token>, len: int, n: int) -> Seq<(Color32, int, int)>
    decreases n,
{
    if n <= 0 {
        Seq::empty()
    } else {
        let before = spans_of(tokens, len, n - 1);
        let start = token_start(tokens, n - 1) as int;
        let end = if token_start(tokens, n) < len {
            token_start(tokens, n) as int
        } else {
            len
        };
        if start < end {
            before.push((tokens[n - 1].0, start, end))
        } else {
            before
        }
    }
}

/// What coloured runs hold.
pub open spec fn span_views(spans: Seq<Span>) -> Seq<(Color32, int, int)> {
    spans.map_values(|s: Span| (s.0, s.1.start as int, s.1.end as int))
}

/// The coloured runs of a line of `code_len` bytes, from the runs that were told apart in the line
/// and its line feed; `None`, where they could not be, gives one run in the colour `foreground`.
pub fn spans_from(tokens: Option<&[Token]>, code_len: usize, foreground: Color32) -> (spans: Vec<
    Span,
>)
    requires
        tokens matches Some(t) ==> token_start(t@, t@.len() as int) <= usize::MAX,
    ensures
        span_views(spans@) == match tokens {
            Some(t) => spans_of(t@, code_len as int, t@.len() as int),
            None => seq![(foreground, 0, code_len as int)],
        },
{
    let mut spans: Vec<Span> = Vec::new();
    let tokens = match tokens {
        Some(t) => t,
        None => {
            spans.push((foreground, 0..code_len));
            assert(span_views(spans@) =~= seq![(foreground, 0, code_len as int)]);
            return spans;
        },
    };
    let mut start: usize = 0;
    let mut i: usize = 0;
    assert(span_views(spans@) =~= Seq::<(Color32, int, int)>::empty());
    while i < tokens.len()
        invariant
            i <= tokens@.len(),
            token_start(tokens@, tokens@.len() as int) <= usize::MAX,
            start == token_start(tokens@, i as int),
            span_views(spans@) == spans_of(tokens@, code_len as int, i as int),
        decreases tokens.len() - i,
    {
        let ghost here = span_views(spans@);
        proof {
            lemma_token_start(tokens@, i + 1, tokens@.len() as int);
        }
        let stop: usize = start + tokens[i].1;
        let end: usize = if stop < code_len {
            stop
        } else {
            code_len
        };
        if start < end {
            spans.push((tokens[i].0, start..end));
            assert(span_views(spans@) =~= here.push((tokens@[i as int].0, start as int, end as int)));
        }
        start = stop;
        i += 1;
    }
    spans
}

proof fn lemma_token_start(tokens: Seq<Token>, i: int, n: int)
    requires
        i <= n,
    ensures
        token_start(tokens, i) <= token_start(tokens, n),
    decreases n - i,
{
    if i < n {
        lemma_token_start(tokens, i, n - 1);
    }
}

/// The coloured runs lie within the line, follow one another without overlap, and hold every byte of
/// the line that the runs reach.
pub proof fn law_spans_lie_within_the_line(tokens: Seq<Token>, len: int, n: int)
    requires
        0 <= n <= tokens.len(),
        0 <= len,
    ensures
        forall|k: int| #![trigger spans_of(tokens, len, n)[k]]
            0 <= k < spans_of(tokens, len, n).len() ==> {
                let s = spans_of(tokens, len, n)[k];
                0 <= s.1 < s.2 <= len && s.2 <= token_start(tokens, n)
            },
        forall|k: int, l: int|
            #![trigger spans_of(tokens, len, n)[k], spans_of(tokens, len, n)[l]]
            0 <= k < l < spans_of(tokens, len, n).len() ==> spans_of(tokens, len, n)[k].2
                <= spans_of(tokens, len, n)[l].1,
        forall|p: int|
            0 <= p < len && p < token_start(tokens, n) ==> #[trigger] in_span(
                spans_of(tokens, len, n),
                p,
            ),
    decreases n,
{
    if n > 0 {
        law_spans_lie_within_the_line(tokens, len, n - 1);
        let before = spans_of(tokens, len, n - 1);
        let now = spans_of(tokens, len, n);
        assert forall|p: int| 0 <= p < len && p < token_start(tokens, n) implies #[trigger] in_span(
            now,
            p,
        ) by {
            if p < token_start(tokens, n - 1) {
                assert(in_span(before, p));
                let k = choose|k: int|
                    0 <= k < before.len() && (#[trigger] before[k]).1 <= p < before[k].2;
                assert(now[k] == before[k]);
            } else {
                assert(now[now.len() - 1].1 <= p < now[now.len() - 1].2);
            }
        }
    }
}

/// Whether the byte lies in a coloured run.
pub open spec fn in_span(spans: Seq<(Color32, int, int)>, p: int) -> bool {
    exists|k: int| 0 <= k < spans.len() && (#[trigger] spans[k]).1 <= p < spans[k].2
}

/// The place of the last full stop before `i`.
pub open spec fn last_stop(s: Seq<char>, i: int) -> Option<int>
    decreases i,
{
    if !(0 < i <= s.len()) {
        None
    } else if s[i - 1] == '.' {
        Some(i - 1)
    } else {
        last_stop(s, i - 1)
    }
}

/// The extension of a path: what follows the last full stop of its last segment, unless that starts
/// with it.
pub open spec fn extension(path: Seq<char>) -> Option<Seq<char>> {
    let segs = components(path);
    if segs.len() == 0 || segs.last() == ".."@ {
        None
    } else {
        match last_stop(segs.last(), segs.last().len() as int) {
            Some(k) => if k > 0 {
                Some(segs.last().skip(k + 1))
            } else {
                None
            },
            None => None,
        }
    }
}

/// The extension of a path, by which its language is told.
pub fn extension_of(path: &str) -> (ext: Option<String>)
    ensures
        match ext {
            Some(ext) => extension(path@) == Some(ext@),
            None => extension(path@) is None,
        },
{
    let chars = chars_of(path);
    let parts = split_char(&chars, '/');
    assert(crate::cli::parts_of(parts@) =~= split(path@, '/'));
    let segs = crate::cli::counting(&parts);
    let ghost all = components(path@);
    assert(crate::cli::parts_of(segs@) == all);
    assert(all.len() == segs@.len());
    if segs.len() == 0 {
        return None;
    }
    let name = segs[segs.len() - 1];
    assert(all[segs@.len() - 1] == name@);
    let parent = chars_of("..");
    if same_chars(name, &parent) {
        return None;
    }
    let mut i: usize = name.len();
    while i > 0 && name[i - 1] != '.'
        invariant
            i <= name@.len(),
            last_stop(name@, i as int) == last_stop(name@, name@.len() as int),
        decreases i,
    {
        i -= 1;
    }
    if i <= 1 {
        return None;
    }
    assert(name@.skip(i as int) =~= name@.subrange(i as int, name@.len() as int));
    Some(string_of(slice_subrange(name, i, name.len())))
}

/// The number that a hexadecimal digit of either case stands for, and none for other characters.
pub open spec fn hex_worth(c: char) -> int {
    if '0' <= c && c <= '9' {
        c as int - 48
    } else if 'a' <= c && c <= 'f' {
        c as int - 87
    } else if 'A' <= c && c <= 'F' {
        c as int - 55
    } else {
        -1
    }
}

/// A colour is six hexadecimal digits, two for each part, red first, whatever their case; a number
/// sign in front changes nothing; and no other text is a colour.
pub proof fn law_six_digits_are_a_colour(s: Seq<char>)
    ensures
        s.len() == 6 && (forall|i: int| 0 <= i < 6 ==> hex_worth(#[trigger] s[i]) >= 0)
            ==> (hex_color(s) matches Some(c) && c.r == 16 * hex_worth(s[0]) + hex_worth(s[1]) && c.g
            == 16 * hex_worth(s[2]) + hex_worth(s[3]) && c.b == 16 * hex_worth(s[4]) + hex_worth(
            s[5],
        )),
        s.len() == 6 && (exists|i: int| 0 <= i < 6 && hex_worth(#[trigger] s[i]) < 0) ==> hex_color(s)
            is None,
        s.len() != 6 && s.len() != 7 ==> hex_color(s) is None,
        s.len() == 7 && s[0] != '#' ==> hex_color(s) is None,
        s.len() == 6 ==> hex_color(seq!['#'] + s) == if s[0] == '#' {
            None
        } else {
            hex_color(s)
        },
{
    if s.len() == 6 {
        let t = seq!['#'] + s;
        assert(t.skip(1) =~= s);
        if s[0] == '#' {
            assert(hex_pair(s[0], s[1]) is None);
        }
    }
}

/// Every byte of a line has the colour of the run in which it lies.
pub proof fn law_bytes_have_the_colour_of_their_run(
    tokens: Seq<Token>,
    len: int,
    n: int,
    k: int,
    p: int,
)
    requires
        0 <= k < n <= tokens.len(),
        token_start(tokens, k) <= p < token_start(tokens, k) + tokens[k].1,
        p < len,
    ensures
        exists|i: int|
            0 <= i < spans_of(tokens, len, n).len() && (#[trigger] spans_of(tokens, len, n)[i]).0
                == tokens[k].0 && spans_of(tokens, len, n)[i].1 <= p < spans_of(tokens, len, n)[i].2,
    decreases n,
{
    let now = spans_of(tokens, len, n);
    if k < n - 1 {
        law_bytes_have_the_colour_of_their_run(tokens, len, n - 1, k, p);
        let before = spans_of(tokens, len, n - 1);
        let i = choose|i: int|
            0 <= i < before.len() && (#[trigger] before[i]).0 == tokens[k].0 && before[i].1 <= p
                < before[i].2;
        assert(now[i] == before[i]);
    } else {
        assert(now[now.len() - 1].0 == tokens[k].0);
    }
}

/// The bytes before a run are those of the runs before it.
pub proof fn law_runs_follow_one_another(tokens: Seq<Token>, k: int)
    requires
        0 <= k < tokens.len(),
    ensures
        token_start(tokens, 0) == 0,
        token_start(tokens, k + 1) == token_start(tokens, k) + tokens[k].1,
{
}

proof fn lemma_last_stop(stem: Seq<char>, ext: Seq<char>, i: int)
    requires
        !ext.contains('.'),
        0 <= i <= ext.len(),
    ensures
        last_stop(stem.push('.') + ext, stem.len() + 1 + i) == Some(stem.len() as int),
    decreases i,
{
    let s = stem.push('.') + ext;
    if i > 0 {
        assert(s[stem.len() + i] == ext[i - 1]);
        assert(ext.contains(ext[i - 1]));
        lemma_last_stop(stem, ext, i - 1);
    } else {
        assert(s[stem.len() as int] == '.');
    }
}

proof fn lemma_no_stop(s: Seq<char>, i: int)
    requires
        0 <= i <= s.len(),
        forall|j: int| 0 < j < s.len() ==> s[j] != '.',
    ensures
        match last_stop(s, i) {
            Some(k) => k == 0,
            None => true,
        },
    decreases i,
{
    if i > 0 {
        lemma_no_stop(s, i - 1);
    }
}

/// A name without a slash is the only segment of itself.
proof fn lemma_components_of_name(name: Seq<char>)
    requires
        name.len() > 0,
        name != "."@,
        !name.contains('/'),
    ensures
        components(name) == seq![name],
{
    reveal_with_fuel(Seq::filter, 2);
    assert(split(name, '/') =~= seq![name]);
    assert(seq![name].drop_last() =~= Seq::<Seq<char>>::empty());
    assert(components(name) =~= seq![name]);
}

/// The extension of a path is what follows the last full stop of its last name, of whatever length,
/// where something stands before that; the directories before the name change nothing, nor does a
/// slash behind it.
pub proof fn law_extension_follows_the_last_stop(dir: Seq<char>, stem: Seq<char>, ext: Seq<char>)
    requires
        stem.len() > 0,
        !stem.contains('/'),
        !ext.contains('/') && !ext.contains('.'),
        stem.push('.') + ext != ".."@,
    ensures
        extension(stem.push('.') + ext) == Some(ext),
        extension(dir + "/"@ + (stem.push('.') + ext)) == Some(ext),
        extension(dir + "/"@ + (stem.push('.') + ext) + "/"@) == Some(ext),
{
    let name = stem.push('.') + ext;
    reveal_strlit(".");
    assert(!name.contains('/')) by {
        if name.contains('/') {
            let k = choose|k: int| 0 <= k < name.len() && name[k] == '/';
            if k < stem.len() {
                assert(stem.contains(stem[k]));
            } else if k > stem.len() {
                assert(ext.contains(ext[k - stem.len() - 1]));
            }
        }
    }
    assert(name.len() >= 2);
    lemma_components_of_name(name);
    lemma_last_stop(stem, ext, ext.len() as int);
    assert(name.skip(stem.len() as int + 1) =~= ext);
    let path = dir + "/"@ + name;
    lemma_components_below(dir, name);
    assert(components(path).last() == name);
    let none = Seq::<char>::empty();
    lemma_components_below(path, none);
    assert(path + "/"@ + none =~= path + "/"@);
    assert(components(none) =~= Seq::<Seq<char>>::empty()) by {
        reveal_with_fuel(Seq::filter, 2);
        assert(split(none, '/') =~= seq![none]);
        assert(seq![none].drop_last() =~= Seq::<Seq<char>>::empty());
    }
    assert(components(path + "/"@) =~= components(path));
}

/// A name without a full stop, or with one at its start alone, has no extension.
pub proof fn law_name_without_a_stop_has_no_extension(dir: Seq<char>, name: Seq<char>)
    requires
        name.len() > 0,
        name != "."@,
        !name.contains('/'),
        forall|j: int| 0 < j < name.len() ==> name[j] != '.',
    ensures
        extension(name) is None,
        extension(dir + "/"@ + name) is None,
{
    lemma_components_of_name(name);
    lemma_components_below(dir, name);
    lemma_no_stop(name, name.len() as int);
    assert(components(dir + "/"@ + name).last() == name);
}

} // verus!
