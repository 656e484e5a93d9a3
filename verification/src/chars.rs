//! Taking texts apart: trimming, searching, splitting, numbers.

use vstd::prelude::*;
use vstd::slice::slice_subrange;

use crate::text::decimal_of;

verus! {

/// A character with the Unicode property `White_Space`.
pub open spec fn is_white(c: char) -> bool {
    ||| '\u{9}' <= c <= '\u{d}'
    ||| c == ' '
    ||| c == '\u{85}'
    ||| c == '\u{a0}'
    ||| c == '\u{1680}'
    ||| '\u{2000}' <= c <= '\u{200a}'
    ||| c == '\u{2028}'
    ||| c == '\u{2029}'
    ||| c == '\u{202f}'
    ||| c == '\u{205f}'
    ||| c == '\u{3000}'
}

/// Whether the character is white space.
pub fn white(c: char) -> (r: bool)
    ensures
        r == is_white(c),
{
    ('\u{9}' <= c && c <= '\u{d}') || c == ' ' || c == '\u{85}' || c == '\u{a0}' || c == '\u{1680}'
        || ('\u{2000}' <= c && c <= '\u{200a}') || c == '\u{2028}' || c == '\u{2029}' || c
        == '\u{202f}' || c == '\u{205f}' || c == '\u{3000}'
}

/// The text without the white space that it starts with.
pub open spec fn trim_start(s: Seq<char>) -> Seq<char>
    decreases s.len(),
{
    if s.len() > 0 && is_white(s[0]) {
        trim_start(s.drop_first())
    } else {
        s
    }
}

/// The text without the white space that it ends with.
pub open spec fn trim_end(s: Seq<char>) -> Seq<char>
    decreases s.len(),
{
    if s.len() > 0 && is_white(s.last()) {
        trim_end(s.drop_last())
    } else {
        s
    }
}

/// The text without the white space around it.
pub open spec fn trimmed(s: Seq<char>) -> Seq<char> {
    trim_end(trim_start(s))
}

/// The text without the white space around it.
pub fn trim(s: &[char]) -> (r: &[char])
    ensures
        r@ == trimmed(s@),
{
    let mut i: usize = 0;
    assert(s@.skip(0) =~= s@);
    while i < s.len() && white(s[i])
        invariant
            i <= s@.len(),
            trim_start(s@) == trim_start(s@.skip(i as int)),
        decreases s.len() - i,
    {
        assert(s@.skip(i as int).drop_first() =~= s@.skip(i + 1));
        i += 1;
    }
    let ghost front = s@.skip(i as int);
    let mut j: usize = s.len();
    assert(front =~= s@.subrange(i as int, j as int));
    while j > i && white(s[j - 1])
        invariant
            i <= j <= s@.len(),
            trim_end(front) == trim_end(s@.subrange(i as int, j as int)),
        decreases j,
    {
        assert(s@.subrange(i as int, j as int).drop_last() =~= s@.subrange(i as int, j - 1));
        j -= 1;
    }
    slice_subrange(s, i, j)
}

/// Whether the text starts with `pat`.
pub fn has_prefix(s: &[char], pat: &[char]) -> (r: bool)
    ensures
        r == pat@.is_prefix_of(s@),
{
    if pat.len() > s.len() {
        return false;
    }
    let mut i: usize = 0;
    while i < pat.len()
        invariant
            i <= pat@.len() <= s@.len(),
            forall|k: int| 0 <= k < i ==> pat@[k] == s@[k],
        decreases pat.len() - i,
    {
        if pat[i] != s[i] {
            assert(s@.subrange(0, pat@.len() as int)[i as int] == s@[i as int]);
            return false;
        }
        i += 1;
    }
    assert(pat@ =~= s@.subrange(0, pat@.len() as int));
    true
}

/// What follows `pat`, where the text starts with it.
pub fn strip_prefix<'a>(s: &'a [char], pat: &[char]) -> (r: Option<&'a [char]>)
    ensures
        match r {
            Some(r) => pat@.is_prefix_of(s@) && r@ == s@.skip(pat@.len() as int),
            None => !pat@.is_prefix_of(s@),
        },
{
    if has_prefix(s, pat) {
        assert(s@.skip(pat@.len() as int) =~= s@.subrange(pat@.len() as int, s@.len() as int));
        Some(slice_subrange(s, pat.len(), s.len()))
    } else {
        None
    }
}

/// The first place from `i` on at which `pat` stands.
pub open spec fn first_at(s: Seq<char>, pat: Seq<char>, i: int) -> Option<int>
    decreases s.len() + 1 - i,
{
    if i < 0 || i > s.len() {
        None
    } else if pat.is_prefix_of(s.skip(i)) {
        Some(i)
    } else {
        first_at(s, pat, i + 1)
    }
}

/// The first place at which `pat` stands.
pub fn find(s: &[char], pat: &[char]) -> (r: Option<usize>)
    ensures
        match r {
            Some(k) => first_at(s@, pat@, 0) == Some(k as int) && k + pat@.len() <= s@.len(),
            None => first_at(s@, pat@, 0) is None,
        },
{
    let mut i: usize = 0;
    loop
        invariant
            i <= s@.len(),
            first_at(s@, pat@, 0) == first_at(s@, pat@, i as int),
        decreases s@.len() - i,
    {
        assert(s@.skip(i as int) =~= s@.subrange(i as int, s@.len() as int));
        if has_prefix(slice_subrange(s, i, s.len()), pat) {
            return Some(i);
        }
        if i == s.len() {
            assert(first_at(s@, pat@, i + 1) is None);
            return None;
        }
        i += 1;
    }
}

/// The parts between the characters `c`.
pub open spec fn split(s: Seq<char>, c: char) -> Seq<Seq<char>>
    decreases s.len(),
{
    if !s.contains(c) {
        seq![s]
    } else {
        let k = s.index_of_first(c)->0;
        if 0 <= k < s.len() {
            seq![s.take(k)] + split(s.skip(k + 1), c)
        } else {
            seq![s]
        }
    }
}

/// The place of the first character `c` from `i` on.
pub fn find_char(s: &[char], i: usize, c: char) -> (k: usize)
    requires
        i <= s@.len(),
    ensures
        i <= k <= s@.len(),
        forall|j: int| i <= j < k ==> s@[j] != c,
        k < s@.len() ==> s@[k as int] == c,
{
    let mut k: usize = i;
    while k < s.len() && s[k] != c
        invariant
            i <= k <= s@.len(),
            forall|j: int| i <= j < k ==> s@[j] != c,
        decreases s.len() - k,
    {
        k += 1;
    }
    k
}

proof fn lemma_split_at(s: Seq<char>, c: char, k: int)
    requires
        0 <= k < s.len(),
        s[k] == c,
        forall|j: int| 0 <= j < k ==> s[j] != c,
    ensures
        split(s, c) == seq![s.take(k)] + split(s.skip(k + 1), c),
{
    assert(s.contains(c));
    s.index_of_first_ensures(c);
    let m = s.index_of_first(c)->0;
    assert(m == k) by {
        if m < k {
            assert(s[m] != c);
        }
        if m > k {
            assert(s[k] == c);
        }
    }
}

/// The parts between the characters `c`.
pub fn split_char<'a>(s: &'a [char], c: char) -> (parts: Vec<&'a [char]>)
    ensures
        parts@.len() == split(s@, c).len(),
        parts@.len() >= 1,
        forall|k: int| #![trigger parts@[k]] 0 <= k < parts@.len() ==> parts@[k]@ == split(s@, c)[k],
{
    let mut parts: Vec<&'a [char]> = Vec::new();
    let ghost all = split(s@, c);
    let mut i: usize = 0;
    assert(s@.skip(0) =~= s@);
    assert(Seq::<Seq<char>>::empty() + all =~= all);
    loop
        invariant
            i <= s@.len(),
            all == split(s@, c),
            parts@.len() + split(s@.skip(i as int), c).len() == all.len(),
            all.skip(parts@.len() as int) == split(s@.skip(i as int), c),
            forall|k: int| #![trigger parts@[k]] 0 <= k < parts@.len() ==> parts@[k]@ == all[k],
        decreases s@.len() - i,
    {
        let k: usize = find_char(s, i, c);
        let ghost rest = s@.skip(i as int);
        let ghost before = parts@;
        proof {
            if k < s@.len() {
                assert(rest[k - i] == c);
                lemma_split_at(rest, c, k - i);
                assert(rest.skip(k - i + 1) =~= s@.skip(k + 1));
                assert(rest.take(k - i) =~= s@.subrange(i as int, k as int));
            } else {
                assert(!rest.contains(c));
                assert(rest =~= s@.subrange(i as int, k as int));
            }
            assert(all[before.len() as int] == all.skip(before.len() as int)[0]);
        }
        parts.push(slice_subrange(s, i, k));
        if k == s.len() {
            return parts;
        }
        proof {
            assert(all.skip(before.len() as int + 1) =~= all.skip(before.len() as int).skip(1));
            assert((seq![rest.take(k - i)] + split(s@.skip(k + 1), c)).skip(1) =~= split(
                s@.skip(k + 1),
                c,
            ));
        }
        i = k + 1;
    }
}

/// The text without the carriage return that it ends with.
pub open spec fn without_cr(s: Seq<char>) -> Seq<char> {
    if s.len() > 0 && s.last() == '\r' {
        s.drop_last()
    } else {
        s
    }
}

/// The place of the first line feed from `i` on, or the length.
pub open spec fn line_end(s: Seq<char>, i: int) -> int
    decreases s.len() - i,
{
    if 0 <= i < s.len() && s[i] != '\n' {
        line_end(s, i + 1)
    } else {
        i
    }
}

/// The lines of the text from `i` on. A line ends with a line feed, before which a carriage return
/// is dropped; the last one may lack it.
pub open spec fn lines_from(s: Seq<char>, i: int) -> Seq<Seq<char>>
    decreases s.len() - i,
{
    if !(0 <= i < s.len()) {
        Seq::empty()
    } else {
        let k = line_end(s, i);
        if k < i || k >= s.len() {
            seq![s.skip(i)]
        } else {
            seq![without_cr(s.subrange(i, k))] + lines_from(s, k + 1)
        }
    }
}

proof fn lemma_line_end(s: Seq<char>, i: int, k: int)
    requires
        0 <= i <= k <= s.len(),
        forall|j: int| i <= j < k ==> s[j] != '\n',
        k < s.len() ==> s[k] == '\n',
    ensures
        line_end(s, i) == k,
    decreases k - i,
{
    if i < k {
        lemma_line_end(s, i + 1, k);
    }
}

/// The lines of the text.
pub fn lines<'a>(s: &'a [char]) -> (out: Vec<&'a [char]>)
    ensures
        out@.len() == lines_from(s@, 0).len(),
        forall|k: int| #![trigger out@[k]] 0 <= k < out@.len() ==> out@[k]@ == lines_from(s@, 0)[k],
{
    let ghost all = lines_from(s@, 0);
    let mut out: Vec<&'a [char]> = Vec::new();
    let mut i: usize = 0;
    assert(all.skip(0) =~= all);
    while i < s.len()
        invariant
            i <= s@.len(),
            all == lines_from(s@, 0),
            out@.len() + lines_from(s@, i as int).len() == all.len(),
            all.skip(out@.len() as int) == lines_from(s@, i as int),
            forall|k: int| #![trigger out@[k]] 0 <= k < out@.len() ==> out@[k]@ == all[k],
        decreases s@.len() - i,
    {
        let k: usize = find_char(s, i, '\n');
        let ghost n = out@.len() as int;
        let ghost here = lines_from(s@, i as int);
        proof {
            lemma_line_end(s@, i as int, k as int);
            assert(all[n] == all.skip(n)[0]);
            assert(all.skip(n + 1) =~= all.skip(n).skip(1));
        }
        if k == s.len() {
            assert(s@.skip(i as int) =~= s@.subrange(i as int, s@.len() as int));
            out.push(slice_subrange(s, i, k));
            assert(all.skip(n + 1) =~= Seq::<Seq<char>>::empty());
            i = k;
        } else {
            let ghost piece = s@.subrange(i as int, k as int);
            let end: usize = if k > i && s[k - 1] == '\r' {
                assert(without_cr(piece) =~= s@.subrange(i as int, k - 1));
                k - 1
            } else {
                assert(without_cr(piece) == piece);
                k
            };
            out.push(slice_subrange(s, i, end));
            assert(here.skip(1) =~= lines_from(s@, k + 1));
            i = k + 1;
        }
    }
    out
}

/// A decimal digit.
pub open spec fn is_digit(c: char) -> bool {
    '0' <= c <= '9'
}

/// The number that decimal digits spell.
pub open spec fn digits_value(s: Seq<char>) -> nat
    decreases s.len(),
{
    if s.len() == 0 {
        0
    } else {
        10 * digits_value(s.drop_last()) + (s.last() as nat - '0' as nat) as nat
    }
}

/// The digits of a number, which a plus sign may precede.
pub open spec fn unsigned(s: Seq<char>) -> Seq<char> {
    if s.len() > 0 && s[0] == '+' {
        s.skip(1)
    } else {
        s
    }
}

/// The number up to `max` that the text spells: decimal digits, which a plus sign may precede.
pub open spec fn number_of(s: Seq<char>, max: nat) -> Option<nat> {
    let d = unsigned(s);
    if d.len() > 0 && (forall|i: int| 0 <= i < d.len() ==> is_digit(#[trigger] d[i])) && digits_value(
        d,
    ) <= max {
        Some(digits_value(d))
    } else {
        None
    }
}

proof fn lemma_digits_grow(s: Seq<char>, i: int)
    requires
        0 <= i <= s.len(),
    ensures
        digits_value(s.take(i)) <= digits_value(s),
    decreases s.len() - i,
{
    if i < s.len() {
        assert(s.take(i + 1).drop_last() =~= s.take(i));
        lemma_digits_grow(s, i + 1);
    } else {
        assert(s.take(i) =~= s);
    }
}

/// The number up to `max` that the text spells.
pub fn parse_number(s: &[char], max: u64) -> (n: Option<u64>)
    ensures
        match n {
            Some(n) => number_of(s@, max as nat) == Some(n as nat),
            None => number_of(s@, max as nat) is None,
        },
{
    let start: usize = if s.len() > 0 && s[0] == '+' {
        1
    } else {
        0
    };
    let ghost d = unsigned(s@);
    assert(d =~= s@.subrange(start as int, s@.len() as int));
    if start == s.len() {
        return None;
    }
    let mut n: u64 = 0;
    let mut i: usize = start;
    assert(d.take(0) =~= Seq::<char>::empty());
    while i < s.len()
        invariant
            start <= i <= s@.len(),
            d == unsigned(s@),
            d == s@.subrange(start as int, s@.len() as int),
            n <= max,
            n == digits_value(d.take(i - start)),
            forall|k: int| 0 <= k < i - start ==> is_digit(#[trigger] d[k]),
        decreases s.len() - i,
    {
        let c = s[i];
        let ghost k = i - start;
        assert(d[k] == c);
        if c < '0' || c > '9' {
            assert(!is_digit(d[k]));
            return None;
        }
        let digit: u64 = c as u64 - '0' as u64;
        proof {
            assert(d.take(k + 1).drop_last() =~= d.take(k));
            lemma_digits_grow(d, k + 1);
        }
        if digit > max || n > max / 10 || 10 * n > max - digit {
            return None;
        }
        n = 10 * n + digit;
        i += 1;
    }
    assert(d.take(i - start) =~= d);
    Some(n)
}

/// The texts, one after the other, with `sep` between them.
pub open spec fn joined(parts: Seq<Seq<char>>, sep: Seq<char>) -> Seq<char>
    decreases parts.len(),
{
    if parts.len() == 0 {
        Seq::empty()
    } else if parts.len() == 1 {
        parts[0]
    } else {
        joined(parts.drop_last(), sep) + sep + parts.last()
    }
}

/// No part holds the character between the parts.
pub proof fn lemma_split_free(s: Seq<char>, c: char)
    ensures
        forall|k: int| 0 <= k < split(s, c).len() ==> !(#[trigger] split(s, c)[k]).contains(c),
    decreases s.len(),
{
    if s.contains(c) {
        s.index_of_first_ensures(c);
        let k = s.index_of_first(c)->0;
        lemma_split_free(s.skip(k + 1), c);
        let all = split(s, c);
        let rest = split(s.skip(k + 1), c);
        assert forall|j: int| 0 <= j < all.len() implies !(#[trigger] all[j]).contains(c) by {
            if j == 0 {
                assert(all[0] == s.take(k));
                assert forall|m: int| 0 <= m < k implies s.take(k)[m] != c by {
                    assert(s[m] != c);
                }
            } else {
                assert(all[j] == rest[j - 1]);
            }
        }
    }
}

/// Whether two texts are the same.
pub fn same_chars(a: &[char], b: &[char]) -> (r: bool)
    ensures
        r == (a@ == b@),
{
    if a.len() != b.len() {
        return false;
    }
    if has_prefix(a, b) {
        assert(a@ =~= a@.subrange(0, b@.len() as int));
        true
    } else {
        proof {
            if a@ == b@ {
                assert(b@ =~= a@.subrange(0, b@.len() as int));
            }
        }
        false
    }
}

/// The parts of a text lie between the separators: a text without one is its own only part, and those
/// around a separator are the parts of what stands before it, then those of what stands behind it.
pub proof fn law_parts_lie_between_separators(s: Seq<char>, t: Seq<char>, c: char)
    ensures
        !s.contains(c) ==> split(s, c) == seq![s],
        split(s.push(c) + t, c) == split(s, c) + split(t, c),
    decreases s.len(),
{
    let all = s.push(c) + t;
    assert(all[s.len() as int] == c);
    assert(all.contains(c));
    all.index_of_first_ensures(c);
    let k = all.index_of_first(c)->0;
    if s.contains(c) {
        s.index_of_first_ensures(c);
        let m = s.index_of_first(c)->0;
        assert(k == m) by {
            assert(all[m] == s[m]);
            if k < m {
                assert(all[k] == s[k]);
            }
        }
        assert(all.take(k) =~= s.take(k));
        assert(all.skip(k + 1) =~= s.skip(k + 1).push(c) + t);
        law_parts_lie_between_separators(s.skip(k + 1), t, c);
        assert(split(all, c) =~= split(s, c) + split(t, c));
    } else {
        assert(k == s.len()) by {
            if k < s.len() {
                assert(all[k] == s[k]);
                assert(s.contains(c));
            }
        }
        assert(all.take(k) =~= s);
        assert(all.skip(k + 1) =~= t);
        assert(split(all, c) =~= split(s, c) + split(t, c));
    }
}

/// Texts are joined one after the other, with the separator between each two and nothing else.
pub proof fn law_texts_are_joined_in_order(
    a: Seq<Seq<char>>,
    b: Seq<Seq<char>>,
    x: Seq<char>,
    sep: Seq<char>,
)
    ensures
        joined(Seq::empty(), sep) == Seq::<char>::empty(),
        joined(seq![x], sep) == x,
        a.len() > 0 && b.len() > 0 ==> joined(a + b, sep) == joined(a, sep) + sep + joined(b, sep),
    decreases b.len(),
{
    if a.len() > 0 && b.len() > 0 {
        assert((a + b).last() == b.last());
        assert((a + b).drop_last() =~= a + b.drop_last());
        if b.len() == 1 {
            assert(a + b.drop_last() =~= a);
        } else {
            law_texts_are_joined_in_order(a, b.drop_last(), x, sep);
            assert(joined(a + b, sep) =~= joined(a, sep) + sep + joined(b, sep));
        }
    }
}

proof fn lemma_line_end_at(s: Seq<char>, i: int, k: int)
    requires
        0 <= i <= k <= s.len(),
        forall|j: int| i <= j < k ==> s[j] != '\n',
        k < s.len() ==> s[k] == '\n',
    ensures
        line_end(s, i) == k,
    decreases k - i,
{
    if i < k {
        lemma_line_end_at(s, i + 1, k);
    }
}

/// The lines of what stands behind `front` are those of that text itself.
proof fn lemma_lines_behind(front: Seq<char>, rest: Seq<char>, i: int)
    requires
        0 <= i <= rest.len(),
    ensures
        lines_from(front + rest, front.len() + i) == lines_from(rest, i),
    decreases rest.len() - i,
{
    let all = front + rest;
    let n = front.len() as int;
    if i < rest.len() {
        let k = line_end(rest, i);
        lemma_line_end_range(rest, i);
        assert forall|j: int| n + i <= j < n + k implies all[j] != '\n' by {
            assert(all[j] == rest[j - n]);
        }
        lemma_line_end_at(all, n + i, n + k);
        assert(all.skip(n + i) =~= rest.skip(i));
        if k < rest.len() {
            assert(all.subrange(n + i, n + k) =~= rest.subrange(i, k));
            lemma_lines_behind(front, rest, k + 1);
        }
    }
}

proof fn lemma_line_end_range(s: Seq<char>, i: int)
    requires
        0 <= i <= s.len(),
    ensures
        i <= line_end(s, i) <= s.len(),
        forall|j: int| i <= j < line_end(s, i) ==> s[j] != '\n',
        line_end(s, i) < s.len() ==> s[line_end(s, i)] == '\n',
    decreases s.len() - i,
{
    if i < s.len() && s[i] != '\n' {
        lemma_line_end_range(s, i + 1);
    }
}

/// The lines of a text end where its line feeds are: each line feed ends one, a carriage return right
/// before it belongs to it, and what stands behind the last one is a line of its own, as it is, unless
/// it is empty. Nothing else is taken away.
pub proof fn law_lines_end_at_line_feeds(line: Seq<char>, rest: Seq<char>)
    requires
        !line.contains('\n'),
    ensures
        lines_from(Seq::empty(), 0) == Seq::<Seq<char>>::empty(),
        line.len() > 0 ==> lines_from(line, 0) == seq![line],
        line.len() == 0 || line.last() != '\r' ==> lines_from(line.push('\n') + rest, 0) == seq![line]
            + lines_from(rest, 0),
        lines_from(line.push('\r').push('\n') + rest, 0) == seq![line] + lines_from(rest, 0),
{
    assert forall|j: int| 0 <= j < line.len() implies line[j] != '\n' by {
        assert(line.contains(line[j]));
    }
    let n = line.len() as int;
    lemma_line_end_at(line, 0, n);
    assert(line.skip(0) =~= line);
    let a = line.push('\n');
    let all = a + rest;
    assert(all[n] == '\n');
    lemma_line_end_at(all, 0, n);
    assert(all.subrange(0, n) =~= line);
    lemma_lines_behind(a, rest, 0);
    let cr = line.push('\r');
    let b = cr.push('\n');
    let whole = b + rest;
    assert(whole[n + 1] == '\n' && whole[n] == '\r');
    assert forall|j: int| 0 <= j < n + 1 implies whole[j] != '\n' by {
        if j < n {
            assert(whole[j] == line[j]);
        }
    }
    lemma_line_end_at(whole, 0, n + 1);
    assert(whole.subrange(0, n + 1) =~= cr);
    assert(cr.drop_last() =~= line);
    lemma_lines_behind(b, rest, 0);
}

/// Trimming takes away white space at both ends and nothing else: what is left neither starts nor ends
/// with white space.
pub proof fn law_trimming_takes_only_white_space(s: Seq<char>)
    ensures
        exists|i: int, j: int|
            0 <= i <= j <= s.len() && trimmed(s) == #[trigger] s.subrange(i, j) && (forall|k: int|
                0 <= k < i || j <= k < s.len() ==> is_white(#[trigger] s[k])),
        trimmed(s).len() > 0 ==> !is_white(trimmed(s)[0]) && !is_white(trimmed(s).last()),
{
    let i = lemma_trim_start(s);
    let t = s.skip(i);
    let m = lemma_trim_end(t);
    assert(t.take(m) =~= s.subrange(i, i + m));
    assert forall|k: int| 0 <= k < i || i + m <= k < s.len() implies is_white(#[trigger] s[k]) by {
        if k >= i + m {
            assert(t[k - i] == s[k]);
        }
    }
    if m > 0 {
        assert(trimmed(s)[0] == t[0]);
    }
}

proof fn lemma_trim_start(s: Seq<char>) -> (i: int)
    ensures
        0 <= i <= s.len(),
        trim_start(s) == s.skip(i),
        forall|k: int| 0 <= k < i ==> is_white(#[trigger] s[k]),
        i < s.len() ==> !is_white(s[i]),
    decreases s.len(),
{
    if s.len() > 0 && is_white(s[0]) {
        let t = s.drop_first();
        let i = lemma_trim_start(t);
        assert(t.skip(i) =~= s.skip(i + 1));
        assert forall|k: int| 0 <= k < i + 1 implies is_white(#[trigger] s[k]) by {
            if k > 0 {
                assert(t[k - 1] == s[k]);
            }
        }
        i + 1
    } else {
        assert(s.skip(0) =~= s);
        0
    }
}

proof fn lemma_trim_end(s: Seq<char>) -> (m: int)
    ensures
        0 <= m <= s.len(),
        trim_end(s) == s.take(m),
        forall|k: int| m <= k < s.len() ==> is_white(#[trigger] s[k]),
        m > 0 ==> !is_white(s[m - 1]),
    decreases s.len(),
{
    if s.len() > 0 && is_white(s.last()) {
        let t = s.drop_last();
        let m = lemma_trim_end(t);
        assert(t.take(m) =~= s.take(m));
        assert forall|k: int| m <= k < s.len() implies is_white(#[trigger] s[k]) by {
            if k < t.len() {
                assert(t[k] == s[k]);
            }
        }
        m
    } else {
        assert(s.take(s.len() as int) =~= s);
        s.len() as int
    }
}

/// The first place of a pattern is one at which it stands, with none before it; and where there is
/// none, it stands nowhere.
pub proof fn law_first_place_is_the_first(s: Seq<char>, pat: Seq<char>, i: int)
    requires
        0 <= i,
    ensures
        match first_at(s, pat, i) {
            Some(k) => {
                &&& i <= k <= s.len() - pat.len()
                &&& s.subrange(k, k + pat.len()) == pat
                &&& forall|j: int|
                    i <= j < k && j + pat.len() <= s.len() ==> #[trigger] s.subrange(j, j + pat.len())
                        != pat
            },
            None => forall|j: int|
                i <= j && j + pat.len() <= s.len() ==> #[trigger] s.subrange(j, j + pat.len()) != pat,
        },
    decreases s.len() + 1 - i,
{
    if i <= s.len() {
        lemma_stands_at(s, pat, i);
        if !pat.is_prefix_of(s.skip(i)) {
            law_first_place_is_the_first(s, pat, i + 1);
        }
    }
}

proof fn lemma_stands_at(s: Seq<char>, pat: Seq<char>, i: int)
    requires
        0 <= i <= s.len(),
    ensures
        pat.is_prefix_of(s.skip(i)) <==> i + pat.len() <= s.len() && s.subrange(i, i + pat.len())
            == pat,
{
    if i + pat.len() <= s.len() {
        assert(s.skip(i).subrange(0, pat.len() as int) =~= s.subrange(i, i + pat.len()));
    }
}

/// A number is read digit by digit: the digits from zero to nine spell themselves, one more digit
/// makes ten times the number and that digit, as far as the limit goes, and anything else makes it no
/// number. A plus sign in front changes nothing.
pub proof fn law_numbers_are_read_by_digits(s: Seq<char>, d: char, max: nat)
    ensures
        number_of(Seq::empty(), max) is None,
        '0' <= d <= '9' && (d as nat - '0' as nat) <= max ==> number_of(seq![d], max) == Some(
            (d as nat - '0' as nat) as nat,
        ),
        !('0' <= d <= '9') ==> number_of(s.push(d), max) is None,
        '0' <= d <= '9' ==> (number_of(s, max) matches Some(n) ==> number_of(s.push(d), max) == if 10
            * n + (d as nat - '0' as nat) <= max {
            Some((10 * n + (d as nat - '0' as nat)) as nat)
        } else {
            None
        }),
        s.len() > 0 && s[0] != '+' ==> number_of(seq!['+'] + s, max) == number_of(s, max),
{
    reveal_with_fuel(digits_value, 3);
    let one = seq![d];
    assert(one.drop_last() =~= Seq::<char>::empty());
    let more = s.push(d);
    let u = unsigned(s);
    let v = unsigned(more);
    if s.len() > 0 {
        assert(v =~= u.push(d));
        assert(v[u.len() as int] == d);
        assert(u.push(d).drop_last() =~= u);
        if number_of(s, max) is Some {
            assert forall|i: int| 0 <= i < u.len() implies is_digit(#[trigger] u[i]) by {}
            if is_digit(d) {
                assert forall|i: int| 0 <= i < v.len() implies is_digit(#[trigger] v[i]) by {
                    if i < u.len() {
                        assert(v[i] == u[i]);
                    }
                }
            }
        }
        let p = seq!['+'] + s;
        if s[0] != '+' {
            assert(p.skip(1) =~= s);
        }
    } else {
        assert(more =~= one);
        if d == '+' {
            assert(one.skip(1) =~= Seq::<char>::empty());
        } else {
            assert(v[0] == d);
        }
    }
}

/// A number that is written in decimal digits is read as that number.
pub proof fn law_written_number_is_read(n: nat, max: nat)
    requires
        n <= max,
    ensures
        number_of(decimal_of(n), max) == Some(n),
        decimal_of(n).len() > 0,
        forall|i: int| 0 <= i < decimal_of(n).len() ==> '0' <= #[trigger] decimal_of(n)[i] <= '9',
    decreases n,
{
    if n < 10 {
        let d = ((48 + n) as u8) as char;
        assert(d as nat == 48 + n);
        law_numbers_are_read_by_digits(Seq::empty(), d, max);
    } else {
        let fore = decimal_of(n / 10);
        let d = ((48 + n % 10) as u8) as char;
        assert(d as nat == 48 + n % 10);
        law_written_number_is_read(n / 10, max);
        law_numbers_are_read_by_digits(fore, d, max);
        assert(decimal_of(n) == fore.push(d));
        assert forall|i: int| 0 <= i < decimal_of(n).len() implies '0' <= #[trigger] decimal_of(n)[i]
            <= '9' by {
            if i < fore.len() {
                assert(decimal_of(n)[i] == fore[i]);
            }
        }
    }
}

/// What stands between white space is what is left of a text when it is trimmed, every character of it.
pub proof fn law_trimming_keeps_what_stands_between(
    before: Seq<char>,
    text: Seq<char>,
    behind: Seq<char>,
)
    requires
        forall|i: int| 0 <= i < before.len() ==> is_white(#[trigger] before[i]),
        forall|i: int| 0 <= i < behind.len() ==> is_white(#[trigger] behind[i]),
        text.len() > 0 ==> !is_white(text[0]) && !is_white(text.last()),
    ensures
        trimmed(before + text + behind) == text,
{
    let all = before + text + behind;
    let i = lemma_trim_start(all);
    let n = before.len() as int;
    let m = text.len() as int;
    if text.len() > 0 {
        assert(all[n] == text[0]);
        assert(i == n) by {
            if i < n {
                assert(all[i] == before[i]);
            } else if i > n {
                assert(is_white(all[n]));
            }
        }
        let t = all.skip(n);
        assert(t =~= text + behind);
        let e = lemma_trim_end(t);
        assert(t[m - 1] == text[m - 1]);
        assert(e == m) by {
            if e < m {
                assert(is_white(t[m - 1]));
            } else if e > m {
                assert(t[e - 1] == behind[e - 1 - m]);
            }
        }
        assert(t.take(m) =~= text);
    } else {
        assert(i == all.len()) by {
            if i < all.len() {
                if i < n {
                    assert(all[i] == before[i]);
                } else {
                    assert(all[i] == behind[i - n]);
                }
            }
        }
        assert(all.skip(i) =~= Seq::<char>::empty());
        assert(trimmed(all) =~= text);
    }
}

/// White space is what Unicode calls so: of ASCII the space and the five characters from the tab to the
/// carriage return, and the spaces and separators beyond it.
pub proof fn law_white_space_is_unicodes(c: char)
    ensures
        c as u32 <= 0x7f ==> is_white(c) == (c == '\t' || c == '\n' || c as u32 == 0x0b || c as u32 == 0x0c || c
            == '\r' || c == ' '),
        c as u32 > 0x7f ==> is_white(c) == (c as u32 == 0x85 || c as u32 == 0xa0 || c as u32 == 0x1680 || 0x2000
            <= c as u32 <= 0x200a || c as u32 == 0x2028 || c as u32 == 0x2029 || c as u32 == 0x202f || c as u32
            == 0x205f || c as u32 == 0x3000),
        is_white(c) ==> !('0' <= c <= '9') && !('a' <= c <= 'z') && !('A' <= c <= 'Z'),
{
}

} // verus!
