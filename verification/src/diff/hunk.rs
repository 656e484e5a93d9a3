//! Hunks: their headers, and the one to which a line belongs.

use vstd::prelude::*;

use crate::chars::{
    find, first_at, law_first_place_is_the_first, law_parts_lie_between_separators,
    law_written_number_is_read, lemma_split_free, number_of, parse_number, split, split_char,
    strip_prefix,
};
use crate::diff::line::{line_views, DiffLine, LineKind, LineView};
use crate::text::{chars_of, decimal_of};

verus! {

/// The lines that a hunk covers before and after the change: the first of them, and how many.
#[derive(Clone, Copy, PartialEq, Eq, Structural, Debug)]
pub struct HunkRange {
    pub old_start: u32,
    pub old_lines: u32,
    pub new_start: u32,
    pub new_lines: u32,
}

/// A number of a hunk header: decimal digits, with no sign.
pub open spec fn header_number(s: Seq<char>) -> Option<nat> {
    if s.len() > 0 && s[0] == '+' {
        None
    } else {
        number_of(s, u32::MAX as nat)
    }
}

/// One side of a hunk header: the first line, and the number of lines behind a comma, which is one
/// where it is left out.
pub open spec fn side_of(s: Seq<char>) -> Option<(nat, nat)> {
    let parts = split(s, ',');
    match header_number(parts[0]) {
        Some(start) => if parts.len() > 2 {
            None
        } else if parts.len() > 1 {
            match header_number(parts[1]) {
                Some(lines) => Some((start, lines)),
                None => None,
            }
        } else {
            Some((start, 1))
        },
        None => None,
    }
}

/// The word behind the sign that it starts with.
pub open spec fn signed(word: Seq<char>, sign: char) -> Option<Seq<char>> {
    if word.len() > 0 && word[0] == sign {
        Some(word.skip(1))
    } else {
        None
    }
}

/// The two sides of a hunk header: between `@@ ` and ` @@`, one with a minus sign and one with a plus
/// sign, with a space between them and nothing else.
pub open spec fn header_of(text: Seq<char>) -> Option<((nat, nat), (nat, nat))> {
    if !"@@ "@.is_prefix_of(text) {
        None
    } else {
        let inner = text.skip("@@ "@.len() as int);
        match first_at(inner, " @@"@, 0) {
            None => None,
            Some(k) => {
                let sides = split(inner.take(k), ' ');
                if sides.len() != 2 {
                    None
                } else {
                    match (signed(sides[0], '-'), signed(sides[1], '+')) {
                        (Some(old), Some(new)) => match (side_of(old), side_of(new)) {
                            (Some(old), Some(new)) => Some((old, new)),
                            _ => None,
                        },
                        _ => None,
                    }
                }
            },
        }
    }
}

/// The two sides that a hunk range holds.
pub open spec fn sides_of(r: HunkRange) -> ((nat, nat), (nat, nat)) {
    ((r.old_start as nat, r.old_lines as nat), (r.new_start as nat, r.new_lines as nat))
}

/// Whether `hunk` is what `sides` says.
pub open spec fn is_hunk(hunk: Option<HunkRange>, sides: Option<((nat, nat), (nat, nat))>) -> bool {
    match hunk {
        Some(r) => sides == Some(sides_of(r)),
        None => sides is None,
    }
}

fn parse_header_number(s: &[char]) -> (n: Option<u64>)
    ensures
        match n {
            Some(n) => header_number(s@) == Some(n as nat) && n <= u32::MAX,
            None => header_number(s@) is None,
        },
{
    if s.len() > 0 && s[0] == '+' {
        return None;
    }
    parse_number(s, u32::MAX as u64)
}

fn parse_side(word: &[char], sign: char) -> (r: Option<(u32, u32)>)
    ensures
        match r {
            Some((start, lines)) => signed(word@, sign) matches Some(s) && side_of(s) == Some(
                (start as nat, lines as nat),
            ),
            None => signed(word@, sign) matches Some(s) ==> side_of(s) is None,
        },
{
    if word.len() == 0 || word[0] != sign {
        return None;
    }
    assert(word@.skip(1) =~= word@.subrange(1, word@.len() as int));
    let s = vstd::slice::slice_subrange(word, 1, word.len());
    let parts = split_char(s, ',');
    let start: u64 = match parse_header_number(parts[0]) {
        Some(n) => n,
        None => return None,
    };
    if parts.len() > 2 {
        return None;
    }
    let lines: u64 = if parts.len() > 1 {
        match parse_header_number(parts[1]) {
            Some(n) => n,
            None => return None,
        }
    } else {
        1
    };
    Some((start as u32, lines as u32))
}

/// The ranges that a hunk header gives; `None` for a text that is no hunk header.
pub fn parse_hunk_header(text: &str) -> (hunk: Option<HunkRange>)
    ensures
        is_hunk(hunk, header_of(text@)),
{
    let chars = chars_of(text);
    let opening = chars_of("@@ ");
    let closing = chars_of(" @@");
    let inner = match strip_prefix(&chars, &opening) {
        Some(inner) => inner,
        None => return None,
    };
    let k: usize = match find(inner, &closing) {
        Some(k) => k,
        None => return None,
    };
    assert(inner@.take(k as int) =~= inner@.subrange(0, k as int));
    let sides = split_char(vstd::slice::slice_subrange(inner, 0, k), ' ');
    if sides.len() != 2 {
        return None;
    }
    match (parse_side(sides[0], '-'), parse_side(sides[1], '+')) {
        (Some((old_start, old_lines)), Some((new_start, new_lines))) => Some(
            HunkRange { old_start, old_lines, new_start, new_lines },
        ),
        _ => None,
    }
}

/// The hunk header at or before the line `i`: the nearest one, with no line of a header of a file or
/// of the diff in between.
pub open spec fn hunk_above(lines: Seq<LineView>, i: int) -> Option<((nat, nat), (nat, nat))>
    decreases i + 1,
{
    if !(0 <= i < lines.len()) {
        None
    } else {
        match lines[i].kind {
            LineKind::Hunk => header_of(lines[i].text),
            LineKind::FileMeta | LineKind::FileName | LineKind::Meta | LineKind::Stat => None,
            _ => hunk_above(lines, i - 1),
        }
    }
}

/// The hunk to which a line belongs; a line behind the last counts as the last.
pub fn hunk_at_line(lines: &[DiffLine], line: usize) -> (hunk: Option<HunkRange>)
    ensures
        is_hunk(
            hunk,
            hunk_above(
                line_views(lines@),
                if line < lines@.len() {
                    line as int
                } else {
                    lines@.len() - 1
                },
            ),
        ),
{
    if lines.len() == 0 {
        return None;
    }
    let ghost views = line_views(lines@);
    let first: usize = if line < lines.len() {
        line
    } else {
        lines.len() - 1
    };
    let mut i: usize = first;
    loop
        invariant
            i <= first < lines@.len(),
            views == line_views(lines@),
            hunk_above(views, i as int) == hunk_above(views, first as int),
            first == if line < lines@.len() {
                line as int
            } else {
                lines@.len() - 1
            },
        decreases i,
    {
        assert(views[i as int] == lines@[i as int]@);
        match lines[i].kind {
            LineKind::Hunk => {
                return parse_hunk_header(lines[i].text.as_str());
            },
            LineKind::FileMeta | LineKind::FileName | LineKind::Meta | LineKind::Stat => {
                return None;
            },
            _ => {},
        }
        if i == 0 {
            assert(hunk_above(views, -1) is None);
            return None;
        }
        i -= 1;
    }
}

/// Whether a line ends the search for a hunk header.
pub open spec fn ends_hunk(kind: LineKind) -> bool {
    ||| kind == LineKind::Hunk
    ||| kind == LineKind::FileMeta
    ||| kind == LineKind::FileName
    ||| kind == LineKind::Meta
    ||| kind == LineKind::Stat
}

/// A line has no hunk but that of its own file: between it and its hunk header stands no other
/// header.
pub proof fn law_hunk_is_of_the_same_file(lines: Seq<LineView>, i: int)
    requires
        hunk_above(lines, i) is Some,
    ensures
        exists|h: int|
            0 <= h <= i < lines.len() && (#[trigger] lines[h]).kind == LineKind::Hunk && hunk_above(
                lines,
                i,
            ) == header_of(lines[h].text) && forall|j: int|
                h < j <= i ==> !ends_hunk((#[trigger] lines[j]).kind),
    decreases i + 1,
{
    if lines[i].kind == LineKind::Hunk {
        assert(lines[i].kind == LineKind::Hunk);
    } else {
        law_hunk_is_of_the_same_file(lines, i - 1);
        let h = choose|h: int|
            0 <= h <= i - 1 < lines.len() && (#[trigger] lines[h]).kind == LineKind::Hunk
                && hunk_above(lines, i - 1) == header_of(lines[h].text) && forall|j: int|
                h < j <= i - 1 ==> !ends_hunk((#[trigger] lines[j]).kind);
        assert(lines[h].kind == LineKind::Hunk);
        assert forall|j: int| h < j <= i implies !ends_hunk((#[trigger] lines[j]).kind) by {
            if j == i {
                assert(!ends_hunk(lines[i].kind));
            }
        }
    }
}

/// A text that is cut into two parts is the first, the separator and the second.
proof fn lemma_two_parts(s: Seq<char>, c: char)
    requires
        split(s, c).len() == 2,
    ensures
        s == split(s, c)[0].push(c) + split(s, c)[1],
        !split(s, c)[0].contains(c) && !split(s, c)[1].contains(c),
{
    lemma_split_free(s, c);
    assert(s.contains(c)) by {
        if !s.contains(c) {
            assert(split(s, c).len() == 1);
        }
    }
    s.index_of_first_ensures(c);
    let k = s.index_of_first(c)->0;
    let rest = s.skip(k + 1);
    assert(split(s, c)[0] == s.take(k));
    assert(split(s, c)[1] == split(rest, c)[0]);
    if rest.contains(c) {
        rest.index_of_first_ensures(c);
        let m = rest.index_of_first(c)->0;
        assert(split(rest, c) =~= seq![rest.take(m)] + split(rest.skip(m + 1), c));
        lemma_split_free(rest.skip(m + 1), c);
    }
    assert(split(rest, c) =~= seq![rest]);
    assert(s =~= s.take(k).push(c) + rest);
}

proof fn lemma_header_texts()
    ensures
        "@@ "@ == seq!['@', '@', ' '],
        " @@"@ == seq![' ', '@', '@'],
        "@@ -"@ == seq!['@', '@', ' ', '-'],
        " +"@ == seq![' ', '+'],
        ","@ == seq![','],
{
    reveal_strlit("@@ ");
    reveal_strlit(" @@");
    reveal_strlit("@@ -");
    reveal_strlit(" +");
    reveal_strlit(",");
    assert("@@ "@ =~= seq!['@', '@', ' ']);
    assert(" @@"@ =~= seq![' ', '@', '@']);
    assert("@@ -"@ =~= seq!['@', '@', ' ', '-']);
    assert(" +"@ =~= seq![' ', '+']);
    assert(","@ =~= seq![',']);
}

/// The header with the two sides, and anything behind it.
pub open spec fn header_text(old: Seq<char>, new: Seq<char>, tail: Seq<char>) -> Seq<char> {
    "@@ -"@ + old + " +"@ + new + " @@"@ + tail
}

/// A header is read by its two sides, whatever follows it.
proof fn lemma_header_of_sides(old: Seq<char>, new: Seq<char>, tail: Seq<char>)
    requires
        !old.contains(' '),
        !new.contains(' '),
    ensures
        header_of(header_text(old, new, tail)) == match (side_of(old), side_of(new)) {
            (Some(o), Some(n)) => Some((o, n)),
            _ => None,
        },
{
    lemma_header_texts();
    let text = header_text(old, new, tail);
    let minus = seq!['-'] + old;
    let plus = seq!['+'] + new;
    let both = minus.push(' ') + plus;
    let inner = both + " @@"@ + tail;
    assert(text =~= "@@ "@ + inner);
    assert(text.subrange(0, 3) =~= "@@ "@);
    assert(text.skip(3) =~= inner);
    let k = both.len() as int;
    assert(inner.subrange(k, k + 3) =~= " @@"@);
    law_first_place_is_the_first(inner, " @@"@, 0);
    assert(first_at(inner, " @@"@, 0) == Some(k)) by {
        if first_at(inner, " @@"@, 0) is None {
            assert(inner.subrange(k, k + " @@"@.len()) != " @@"@);
        }
        let j = first_at(inner, " @@"@, 0)->0;
        if j > k {
            assert(inner.subrange(k, k + " @@"@.len()) != " @@"@);
        }
        if j < k {
            let t = inner.subrange(j, j + 3);
            assert(t[0] == inner[j] && t[1] == inner[j + 1]);
            if j < minus.len() {
                assert(inner[j] == minus[j]);
                if j > 0 {
                    assert(old.contains(old[j - 1]));
                }
            } else if j == minus.len() {
                assert(inner[j + 1] == '+');
            } else {
                let m = j - minus.len() - 1;
                assert(inner[j] == plus[m]);
                if m > 0 {
                    assert(new.contains(new[m - 1]));
                }
            }
        }
    }
    assert(inner.take(k) =~= both);
    assert(!minus.contains(' ')) by {
        if minus.contains(' ') {
            let m = choose|m: int| 0 <= m < minus.len() && minus[m] == ' ';
            assert(old.contains(old[m - 1]));
        }
    }
    assert(!plus.contains(' ')) by {
        if plus.contains(' ') {
            let m = choose|m: int| 0 <= m < plus.len() && plus[m] == ' ';
            assert(new.contains(new[m - 1]));
        }
    }
    law_parts_lie_between_separators(minus, plus, ' ');
    law_parts_lie_between_separators(plus, Seq::empty(), ' ');
    assert(split(both, ' ') =~= seq![minus, plus]);
    assert(minus.skip(1) =~= old);
    assert(plus.skip(1) =~= new);
}

proof fn lemma_side_of_numbers(a: nat, b: nat)
    requires
        a <= u32::MAX,
        b <= u32::MAX,
    ensures
        side_of(decimal_of(a)) == Some((a, 1nat)),
        side_of(decimal_of(a) + ","@ + decimal_of(b)) == Some((a, b)),
        !decimal_of(a).contains(' '),
        !(decimal_of(a) + ","@ + decimal_of(b)).contains(' '),
{
    lemma_header_texts();
    let x = decimal_of(a);
    let y = decimal_of(b);
    law_written_number_is_read(a, u32::MAX as nat);
    law_written_number_is_read(b, u32::MAX as nat);
    assert('0' <= x[0] <= '9' && '0' <= y[0] <= '9');
    assert(!x.contains(',') && !x.contains(' ')) by {
        if x.contains(',') {
            let i = choose|i: int| 0 <= i < x.len() && x[i] == ',';
            assert('0' <= x[i] <= '9');
        }
        if x.contains(' ') {
            let i = choose|i: int| 0 <= i < x.len() && x[i] == ' ';
            assert('0' <= x[i] <= '9');
        }
    }
    assert(!y.contains(',')) by {
        if y.contains(',') {
            let i = choose|i: int| 0 <= i < y.len() && y[i] == ',';
            assert('0' <= y[i] <= '9');
        }
    }
    let both = x + ","@ + y;
    assert(both =~= x.push(',') + y);
    assert(!both.contains(' ')) by {
        if both.contains(' ') {
            let i = choose|i: int| 0 <= i < both.len() && both[i] == ' ';
            if i < x.len() {
                assert('0' <= x[i] <= '9');
            } else if i > x.len() {
                assert('0' <= y[i - x.len() - 1] <= '9');
            }
        }
    }
    law_parts_lie_between_separators(x, y, ',');
    law_parts_lie_between_separators(y, Seq::empty(), ',');
    assert(split(both, ',') =~= seq![x, y]);
    assert(split(x, ',') =~= seq![x]);
}

/// A hunk header gives its numbers, as they are written: the first line and the number of lines of each
/// side, which is one where it is left out, whatever follows the header. All numbers of thirty-two
/// bits are read.
pub proof fn law_hunk_header_gives_its_numbers(a: nat, b: nat, c: nat, d: nat, tail: Seq<char>)
    requires
        a <= u32::MAX,
        b <= u32::MAX,
        c <= u32::MAX,
        d <= u32::MAX,
    ensures
        ({
            let old = decimal_of(a) + ","@ + decimal_of(b);
            let new = decimal_of(c) + ","@ + decimal_of(d);
            &&& header_of("@@ -"@ + old + " +"@ + new + " @@"@ + tail) == Some(((a, b), (c, d)))
            &&& header_of("@@ -"@ + decimal_of(a) + " +"@ + new + " @@"@ + tail) == Some(
                ((a, 1nat), (c, d)),
            )
            &&& header_of("@@ -"@ + old + " +"@ + decimal_of(c) + " @@"@ + tail) == Some(
                ((a, b), (c, 1nat)),
            )
            &&& header_of("@@ -"@ + decimal_of(a) + " +"@ + decimal_of(c) + " @@"@ + tail) == Some(
                ((a, 1nat), (c, 1nat)),
            )
        }),
{
    lemma_side_of_numbers(a, b);
    lemma_side_of_numbers(c, d);
    let old = decimal_of(a) + ","@ + decimal_of(b);
    let new = decimal_of(c) + ","@ + decimal_of(d);
    lemma_header_of_sides(old, new, tail);
    lemma_header_of_sides(decimal_of(a), new, tail);
    lemma_header_of_sides(old, decimal_of(c), tail);
    lemma_header_of_sides(decimal_of(a), decimal_of(c), tail);
}

/// What is read as a hunk header is one: a minus sign and a side, a space, a plus sign and a side,
/// between two pairs of at signs; each side is a number of digits alone, or two with a comma between
/// them.
pub proof fn law_only_hunk_headers_are_read(text: Seq<char>)
    requires
        header_of(text) is Some,
    ensures
        exists|old: Seq<char>, new: Seq<char>, tail: Seq<char>|
            text == #[trigger] header_text(old, new, tail) && is_side(old) && is_side(new),
{
    lemma_header_texts();
    let inner = text.skip(3);
    law_first_place_is_the_first(inner, " @@"@, 0);
    let k = first_at(inner, " @@"@, 0)->0;
    let both = inner.take(k);
    let sides = split(both, ' ');
    lemma_two_parts(both, ' ');
    let old = sides[0].skip(1);
    let new = sides[1].skip(1);
    let tail = inner.skip(k + 3);
    assert(sides[0] =~= seq!['-'] + old);
    assert(sides[1] =~= seq!['+'] + new);
    assert(text.subrange(0, 3) == "@@ "@);
    assert(inner =~= both + inner.subrange(k, k + 3) + tail);
    assert(text =~= "@@ "@ + inner);
    assert(text =~= header_text(old, new, tail));
    lemma_is_side(old);
    lemma_is_side(new);
}

/// Whether the text is decimal digits and nothing else.
pub open spec fn all_digits(s: Seq<char>) -> bool {
    s.len() > 0 && forall|i: int| 0 <= i < s.len() ==> '0' <= #[trigger] s[i] <= '9'
}

/// Whether the text is one side of a hunk header.
pub open spec fn is_side(s: Seq<char>) -> bool {
    all_digits(s) || exists|a: Seq<char>, b: Seq<char>|
        all_digits(a) && all_digits(b) && s == #[trigger] (a + ","@ + b)
}

proof fn lemma_is_side(s: Seq<char>)
    requires
        side_of(s) is Some,
    ensures
        is_side(s),
{
    lemma_header_texts();
    let parts = split(s, ',');
    lemma_all_digits(parts[0]);
    if parts.len() == 2 {
        lemma_all_digits(parts[1]);
        lemma_two_parts(s, ',');
        assert(s =~= parts[0] + ","@ + parts[1]);
    } else {
        assert(parts.len() == 1) by {
            if s.contains(',') {
                s.index_of_first_ensures(',');
                lemma_split_free(s.skip(s.index_of_first(',')->0 + 1), ',');
            }
        }
        assert(!s.contains(',')) by {
            if s.contains(',') {
                s.index_of_first_ensures(',');
                lemma_split_some(s.skip(s.index_of_first(',')->0 + 1), ',');
            }
        }
        assert(parts =~= seq![s]);
    }
}

proof fn lemma_split_some(s: Seq<char>, c: char)
    ensures
        split(s, c).len() >= 1,
{
    if s.contains(c) {
        s.index_of_first_ensures(c);
    }
}

proof fn lemma_all_digits(s: Seq<char>)
    requires
        header_number(s) is Some,
    ensures
        all_digits(s),
{
    assert forall|i: int| 0 <= i < s.len() implies '0' <= #[trigger] s[i] <= '9' by {
        assert(crate::chars::is_digit(crate::chars::unsigned(s)[i]));
    }
}

/// A line belongs to the nearest hunk header above it, or on it, with nothing but lines of the hunk in
/// between; and to none where the nearest other line is one of a header of the file or of the diff, or
/// there is none.
pub proof fn law_line_belongs_to_the_header_above(lines: Seq<LineView>, i: int, h: int)
    requires
        -1 <= h <= i < lines.len(),
        forall|j: int|
            h < j <= i ==> (#[trigger] lines[j]).kind == LineKind::Context || lines[j].kind
                == LineKind::Add || lines[j].kind == LineKind::Del || lines[j].kind
                == LineKind::Blank,
    ensures
        h >= 0 && lines[h].kind == LineKind::Hunk ==> hunk_above(lines, i) == header_of(
            lines[h].text,
        ),
        h >= 0 && (lines[h].kind == LineKind::FileMeta || lines[h].kind == LineKind::FileName
            || lines[h].kind == LineKind::Meta || lines[h].kind == LineKind::Stat) ==> hunk_above(
            lines,
            i,
        ) is None,
        h == -1 ==> hunk_above(lines, i) is None,
    decreases i - h,
{
    if h < i {
        assert(lines[i].kind == LineKind::Context || lines[i].kind == LineKind::Add || lines[i].kind
            == LineKind::Del || lines[i].kind == LineKind::Blank);
        if i > 0 && h <= i - 1 {
            law_line_belongs_to_the_header_above(lines, i - 1, h);
        }
    }
}

} // verus!
