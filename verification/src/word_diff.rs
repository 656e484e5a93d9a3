//! Word diff within one line: given a deleted line and the added line that replaced it, the
//! byte ranges of the tokens that changed on each side.

use std::ops::Range;
use vstd::prelude::*;
use vstd::utf8::encode_utf8;

use crate::text::{
    byte_len, chars_of, lemma_utf8_len_monotonic, lemma_utf8_len_step, same_text, slice, utf8_len, width,
};

verus! {

/// A character of an identifier or a number.
pub open spec fn is_word(c: char) -> bool {
    ||| 'a' <= c <= 'z'
    ||| 'A' <= c <= 'Z'
    ||| '0' <= c <= '9'
    ||| c == '_'
}

/// Where the run of word characters that reaches `i` ends.
pub open spec fn run_end(s: Seq<char>, i: int) -> int
    decreases s.len() - i,
{
    if 0 <= i < s.len() && is_word(s[i]) {
        run_end(s, i + 1)
    } else {
        i
    }
}

/// Where the token that starts at `i` ends: a run of word characters is one token, and so is
/// every other character.
pub open spec fn token_end(s: Seq<char>, i: int) -> int {
    if is_word(s[i]) {
        run_end(s, i)
    } else {
        i + 1
    }
}

/// The tokens of `s` from the character `i` on, each as the indices of its first character and of
/// the one behind its last.
pub open spec fn token_spans(s: Seq<char>, i: int) -> Seq<(int, int)>
    decreases s.len() - i,
{
    if 0 <= i < s.len() && i < token_end(s, i) <= s.len() {
        seq![(i, token_end(s, i))] + token_spans(s, token_end(s, i))
    } else {
        Seq::empty()
    }
}

/// The texts of the tokens of a line.
pub open spec fn token_texts(s: Seq<char>) -> Seq<Seq<char>> {
    token_spans(s, 0).map_values(|t: (int, int)| s.subrange(t.0, t.1))
}

/// The byte ranges of the tokens of a line.
pub open spec fn token_bytes(s: Seq<char>) -> Seq<(int, int)> {
    token_spans(s, 0).map_values(|t: (int, int)| byte_span(s, t))
}

/// The byte range of a range of characters.
pub open spec fn byte_span(s: Seq<char>, t: (int, int)) -> (int, int) {
    (utf8_len(s.take(t.0)) as int, utf8_len(s.take(t.1)) as int)
}

/// A range as a pair of integers.
pub open spec fn range_of(r: Range<usize>) -> (int, int) {
    (r.start as int, r.end as int)
}

/// Ranges as pairs of integers.
pub open spec fn ranges_of(s: Seq<Range<usize>>) -> Seq<(int, int)> {
    s.map_values(|r: Range<usize>| range_of(r))
}

/// The views of a sequence of texts.
pub open spec fn texts_of(s: Seq<&str>) -> Seq<Seq<char>> {
    s.map_values(|t: &str| t@)
}

/// Indices as integers.
pub open spec fn indices_of(s: Seq<usize>) -> Seq<int> {
    s.map_values(|k: usize| k as int)
}

proof fn lemma_run_end(s: Seq<char>, i: int)
    requires
        0 <= i <= s.len(),
    ensures
        i <= run_end(s, i) <= s.len(),
    decreases s.len() - i,
{
    if i < s.len() && is_word(s[i]) {
        lemma_run_end(s, i + 1);
    }
}

proof fn lemma_token_end(s: Seq<char>, i: int)
    requires
        0 <= i < s.len(),
    ensures
        i < token_end(s, i) <= s.len(),
{
    lemma_run_end(s, i);
    if is_word(s[i]) {
        lemma_run_end(s, i + 1);
    }
}

/// The tokens of `s`: each with its byte range and its text.
pub fn word_tokens(s: &str) -> (out: Vec<(Range<usize>, &str)>)
    ensures
        out@.len() == token_spans(s@, 0).len(),
        forall|k: int| #![trigger out@[k]]
            0 <= k < out@.len() ==> range_of(out@[k].0) == token_bytes(s@)[k] && out@[k].1@
                == token_texts(s@)[k],
{
    let chars = chars_of(s);
    let total: usize = byte_len(s);
    let mut out: Vec<(Range<usize>, &str)> = Vec::new();
    let mut i: usize = 0;
    let mut start: usize = 0;
    proof {
        assert(s@.take(0) =~= Seq::<char>::empty());
    }
    while i < chars.len()
        invariant
            i <= chars.len(),
            chars@ == s@,
            start == utf8_len(s@.take(i as int)),
            total == utf8_len(s@),
            out@.len() + token_spans(s@, i as int).len() == token_spans(s@, 0).len(),
            token_spans(s@, 0).skip(out@.len() as int) == token_spans(s@, i as int),
            forall|k: int| #![trigger out@[k]]
                0 <= k < out@.len() ==> range_of(out@[k].0) == byte_span(s@, token_spans(s@, 0)[k])
                    && out@[k].1@ == s@.subrange(
                    token_spans(s@, 0)[k].0,
                    token_spans(s@, 0)[k].1,
                ),
        decreases chars.len() - i,
    {
        let (next, end) = token_extent(s, &chars, i, start);
        let text = slice(s, start, end, Ghost(i as int), Ghost(next as int));
        let ghost before = out@;
        proof {
            lemma_token_end(s@, i as int);
            let all = token_spans(s@, 0);
            let rest = token_spans(s@, i as int);
            assert(rest[0] == (i as int, next as int));
            assert(all.skip(before.len() as int)[0] == all[before.len() as int]);
            assert(all.skip(before.len() as int + 1) =~= rest.skip(1));
            assert(rest.skip(1) =~= token_spans(s@, next as int));
        }
        out.push((start..end, text));
        i = next;
        start = end;
    }
    out
}

/// The end of the token that starts at the character `i`, which stands at the byte `start`: as an
/// index among the characters and as a byte offset.
fn token_extent(s: &str, chars: &Vec<char>, i: usize, start: usize) -> (r: (usize, usize))
    requires
        chars@ == s@,
        i < chars.len(),
        start == utf8_len(s@.take(i as int)),
        utf8_len(s@) <= usize::MAX,
    ensures
        r.0 == token_end(s@, i as int),
        i < r.0 <= s@.len(),
        r.1 == utf8_len(s@.take(r.0 as int)),
{
    proof {
        lemma_utf8_len_step(s@, i as int);
        lemma_utf8_len_monotonic(s@, i + 1, i + 1);
        lemma_token_end(s@, i as int);
    }
    let mut next: usize = i + 1;
    let mut end: usize = start + width(chars[i]);
    if word_char(chars[i]) {
        while next < chars.len() && word_char(chars[next])
            invariant
                chars@ == s@,
                i < next <= chars.len(),
                end == utf8_len(s@.take(next as int)),
                utf8_len(s@) <= usize::MAX,
                run_end(s@, next as int) == run_end(s@, i as int),
            decreases chars.len() - next,
        {
            proof {
                lemma_utf8_len_step(s@, next as int);
                lemma_utf8_len_monotonic(s@, next + 1, next + 1);
            }
            end += width(chars[next]);
            next += 1;
        }
    }
    (next, end)
}

fn word_char(c: char) -> (r: bool)
    ensures
        r == is_word(c),
{
    ('a' <= c && c <= 'z') || ('A' <= c && c <= 'Z') || ('0' <= c && c <= '9') || c == '_'
}

/// The length of the longest common subsequence of `a` from `i` on and `b` from `j` on.
pub open spec fn lcs_len(a: Seq<Seq<char>>, b: Seq<Seq<char>>, i: int, j: int) -> nat
    decreases a.len() - i + b.len() - j,
{
    if !(0 <= i < a.len() && 0 <= j < b.len()) {
        0
    } else if a[i] == b[j] {
        lcs_len(a, b, i + 1, j + 1) + 1
    } else if lcs_len(a, b, i + 1, j) >= lcs_len(a, b, i, j + 1) {
        lcs_len(a, b, i + 1, j)
    } else {
        lcs_len(a, b, i, j + 1)
    }
}

/// The integers from `i` up to `n`, without `n`.
pub open spec fn upto(i: int, n: int) -> Seq<int> {
    if i <= n {
        Seq::new((n - i) as nat, |k: int| i + k)
    } else {
        Seq::empty()
    }
}

/// The positions of `a` from `i` on and of `b` from `j` on that a longest common subsequence
/// leaves out. Equal heads are aligned; otherwise the head is left out whose rest still has the
/// longer common subsequence, the head of `a` where both have it.
pub open spec fn unaligned(a: Seq<Seq<char>>, b: Seq<Seq<char>>, i: int, j: int) -> (
    Seq<int>,
    Seq<int>,
)
    decreases a.len() - i + b.len() - j,
{
    if !(0 <= i < a.len() && 0 <= j < b.len()) {
        (upto(i, a.len() as int), upto(j, b.len() as int))
    } else if a[i] == b[j] {
        unaligned(a, b, i + 1, j + 1)
    } else if lcs_len(a, b, i + 1, j) >= lcs_len(a, b, i, j + 1) {
        let rest = unaligned(a, b, i + 1, j);
        (seq![i] + rest.0, rest.1)
    } else {
        let rest = unaligned(a, b, i, j + 1);
        (rest.0, seq![j] + rest.1)
    }
}

proof fn lemma_lcs_bound(a: Seq<Seq<char>>, b: Seq<Seq<char>>, i: int, j: int)
    requires
        0 <= i <= a.len(),
        0 <= j <= b.len(),
    ensures
        lcs_len(a, b, i, j) <= a.len() - i,
        lcs_len(a, b, i, j) <= b.len() - j,
    decreases a.len() - i + b.len() - j,
{
    if i < a.len() && j < b.len() {
        lemma_lcs_bound(a, b, i + 1, j + 1);
        lemma_lcs_bound(a, b, i + 1, j);
        lemma_lcs_bound(a, b, i, j + 1);
    }
}

/// Whether `row` holds the common subsequence lengths for `x` from `i` on: the length for `y` from
/// `j` on stands at the index `y.len() - j`.
spec fn is_row(row: Seq<usize>, x: Seq<Seq<char>>, y: Seq<Seq<char>>, i: int) -> bool {
    &&& row.len() == y.len() + 1
    &&& forall|j: int| 0 <= j <= y.len() ==> row[y.len() - j] == #[trigger] lcs_len(x, y, i, j)
}

/// Whether the rows for `x` from `x.len()` on down stand in `rows`.
spec fn is_table(rows: Seq<Vec<usize>>, x: Seq<Seq<char>>, y: Seq<Seq<char>>) -> bool {
    forall|k: int| 0 <= k < rows.len() ==> is_row(#[trigger] rows[k]@, x, y, x.len() - k)
}

/// The table of common subsequence lengths.
fn lcs_table(a: &[&str], b: &[&str]) -> (rows: Vec<Vec<usize>>)
    ensures
        rows@.len() == a@.len() + 1,
        is_table(rows@, texts_of(a@), texts_of(b@)),
{
    let ghost x = texts_of(a@);
    let ghost y = texts_of(b@);
    let n: usize = a.len();
    let m: usize = b.len();
    let mut rows: Vec<Vec<usize>> = Vec::new();
    let mut last: Vec<usize> = vec![0];
    let mut k: usize = 0;
    while k < m
        invariant
            k <= m == y.len(),
            n == x.len(),
            last@.len() == k + 1,
            forall|j: int| m - k <= j <= m ==> last@[m - j] == #[trigger] lcs_len(x, y, n as int, j),
        decreases m - k,
    {
        last.push(0);
        k += 1;
    }
    rows.push(last);
    let mut done: usize = 0;
    while done < n
        invariant
            done <= n == x.len(),
            m == y.len(),
            n == a.len(),
            m == b.len(),
            x == texts_of(a@),
            y == texts_of(b@),
            rows@.len() == done + 1,
            is_table(rows@, x, y),
        decreases n - done,
    {
        let i: usize = n - done - 1;
        let row = lcs_row(a, b, i, &rows[done]);
        rows.push(row);
        done += 1;
    }
    rows
}

/// Row `i` of the table from the row behind it.
fn lcs_row(a: &[&str], b: &[&str], i: usize, below: &Vec<usize>) -> (row: Vec<usize>)
    requires
        i < a@.len(),
        is_row(below@, texts_of(a@), texts_of(b@), i + 1),
    ensures
        is_row(row@, texts_of(a@), texts_of(b@), i as int),
{
    let ghost x = texts_of(a@);
    let ghost y = texts_of(b@);
    let m: usize = b.len();
    let mut row: Vec<usize> = vec![0];
    let mut k: usize = 0;
    while k < m
        invariant
            k <= m == b.len(),
            i < a.len(),
            x == texts_of(a@),
            y == texts_of(b@),
            is_row(below@, x, y, i + 1),
            row@.len() == k + 1,
            forall|j: int| m - k <= j <= m ==> row@[m - j] == #[trigger] lcs_len(x, y, i as int, j),
        decreases m - k,
    {
        let j: usize = m - k - 1;
        proof {
            lemma_lcs_bound(x, y, i + 1, j + 1);
            assert(below@[m - (j + 1)] == lcs_len(x, y, i + 1, j + 1));
            assert(below@[m - j] == lcs_len(x, y, i + 1, j as int));
            assert(row@[m - (j + 1)] == lcs_len(x, y, i as int, j + 1));
            assert(x[i as int] == a@[i as int]@ && y[j as int] == b@[j as int]@);
        }
        let cell: usize = if same_text(a[i], b[j]) {
            below[k] + 1
        } else if below[k + 1] >= row[k] {
            below[k + 1]
        } else {
            row[k]
        };
        row.push(cell);
        k += 1;
    }
    row
}

/// The positions in `a` and in `b` that a longest common subsequence (by text) leaves out, in
/// ascending order: the changed tokens on each side.
pub fn changed_tokens(a: &[&str], b: &[&str]) -> (r: (Vec<usize>, Vec<usize>))
    ensures
        indices_of(r.0@) == unaligned(texts_of(a@), texts_of(b@), 0, 0).0,
        indices_of(r.1@) == unaligned(texts_of(a@), texts_of(b@), 0, 0).1,
{
    let ghost x = texts_of(a@);
    let ghost y = texts_of(b@);
    let rows = lcs_table(a, b);
    let n: usize = a.len();
    let m: usize = b.len();
    let mut a_ch: Vec<usize> = Vec::new();
    let mut b_ch: Vec<usize> = Vec::new();
    let mut i: usize = 0;
    let mut j: usize = 0;
    assert(indices_of(a_ch@) + unaligned(x, y, 0, 0).0 =~= unaligned(x, y, 0, 0).0);
    assert(indices_of(b_ch@) + unaligned(x, y, 0, 0).1 =~= unaligned(x, y, 0, 0).1);
    while i < n && j < m
        invariant
            i <= n == a.len(),
            j <= m == b.len(),
            x == texts_of(a@),
            y == texts_of(b@),
            rows@.len() == n + 1,
            is_table(rows@, x, y),
            indices_of(a_ch@) + unaligned(x, y, i as int, j as int).0 == unaligned(x, y, 0, 0).0,
            indices_of(b_ch@) + unaligned(x, y, i as int, j as int).1 == unaligned(x, y, 0, 0).1,
        decreases n - i + m - j,
    {
        let ghost here = unaligned(x, y, i as int, j as int);
        assert(x[i as int] == a@[i as int]@ && y[j as int] == b@[j as int]@);
        if same_text(a[i], b[j]) {
            i += 1;
            j += 1;
        } else {
            proof {
                assert(is_row(rows@[n - (i + 1)]@, x, y, i + 1) && is_row(rows@[n - i]@, x, y, i as int));
                assert(rows@[n - (i + 1)]@[m - j] == lcs_len(x, y, i + 1, j as int));
                assert(rows@[n - i]@[m - (j + 1)] == lcs_len(x, y, i as int, j + 1));
            }
            if rows[n - i - 1][m - j] >= rows[n - i][m - j - 1] {
                let ghost before = indices_of(a_ch@);
                a_ch.push(i);
                i += 1;
                assert(indices_of(a_ch@) + unaligned(x, y, i as int, j as int).0 =~= before + here.0);
            } else {
                let ghost before = indices_of(b_ch@);
                b_ch.push(j);
                j += 1;
                assert(indices_of(b_ch@) + unaligned(x, y, i as int, j as int).1 =~= before + here.1);
            }
        }
    }
    push_upto(&mut a_ch, i, n);
    push_upto(&mut b_ch, j, m);
    (a_ch, b_ch)
}

/// Appends the integers from `i` up to `n`, without `n`.
fn push_upto(out: &mut Vec<usize>, i: usize, n: usize)
    requires
        i <= n,
    ensures
        indices_of(final(out)@) == indices_of(old(out)@) + upto(i as int, n as int),
{
    let ghost before = indices_of(out@);
    let mut k: usize = i;
    while k < n
        invariant
            i <= k <= n,
            indices_of(out@) == before + upto(i as int, k as int),
        decreases n - k,
    {
        let ghost here = out@;
        out.push(k);
        k += 1;
        assert(indices_of(out@) =~= indices_of(here).push(k - 1));
        assert(upto(i as int, k as int) =~= upto(i as int, k - 1).push(k - 1));
        assert(indices_of(out@) =~= before + upto(i as int, k as int));
    }
    assert(upto(i as int, k as int) == upto(i as int, n as int));
}

/// The ranges of the tokens at the positions `changed`, in that order, each joined to the one before
/// it where it starts at that one's end.
pub open spec fn merged(tokens: Seq<(int, int)>, changed: Seq<int>) -> Seq<(int, int)>
    decreases changed.len(),
{
    if changed.len() == 0 {
        Seq::empty()
    } else {
        let before = merged(tokens, changed.drop_last());
        let r = tokens[changed.last()];
        if before.len() > 0 && before.last().1 == r.0 {
            before.drop_last().push((before.last().0, r.1))
        } else {
            before.push(r)
        }
    }
}

/// The byte ranges that tokens carry.
pub open spec fn ranges_in(tokens: Seq<(Range<usize>, &str)>) -> Seq<(int, int)> {
    tokens.map_values(|t: (Range<usize>, &str)| range_of(t.0))
}

/// The byte ranges of the changed tokens, those that touch joined into one.
pub fn merge_token_ranges(tokens: &[(Range<usize>, &str)], changed: &[usize]) -> (out: Vec<Range<usize>>)
    requires
        forall|k: int| 0 <= k < changed@.len() ==> #[trigger] changed@[k] < tokens@.len(),
    ensures
        ranges_of(out@) == merged(ranges_in(tokens@), indices_of(changed@)),
{
    let ghost all = ranges_in(tokens@);
    let ghost which = indices_of(changed@);
    let mut out: Vec<Range<usize>> = Vec::new();
    let mut k: usize = 0;
    while k < changed.len()
        invariant
            k <= changed.len(),
            all == ranges_in(tokens@),
            which == indices_of(changed@),
            forall|k: int| 0 <= k < changed@.len() ==> #[trigger] changed@[k] < tokens@.len(),
            ranges_of(out@) == merged(all, which.take(k as int)),
        decreases changed.len() - k,
    {
        let idx: usize = changed[k];
        let start: usize = tokens[idx].0.start;
        let end: usize = tokens[idx].0.end;
        let ghost before = ranges_of(out@);
        let n: usize = out.len();
        proof {
            assert(which.take(k + 1).drop_last() =~= which.take(k as int));
            assert(which.take(k + 1).last() == idx);
            assert(all[idx as int] == (start as int, end as int));
        }
        if n > 0 && out[n - 1].end == start {
            let first: usize = out[n - 1].start;
            out.set(n - 1, first..end);
            assert(ranges_of(out@) =~= before.drop_last().push((before.last().0, end as int)));
        } else {
            out.push(start..end);
            assert(ranges_of(out@) =~= before.push((start as int, end as int)));
        }
        k += 1;
    }
    assert(which.take(k as int) =~= which);
    out
}

/// The byte ranges that changed on each side where the line `del` became the line `add`.
pub open spec fn emphasis_of(del: Seq<char>, add: Seq<char>) -> (Seq<(int, int)>, Seq<(int, int)>) {
    let changed = unaligned(token_texts(del), token_texts(add), 0, 0);
    (merged(token_bytes(del), changed.0), merged(token_bytes(add), changed.1))
}

/// The byte ranges of the changed words where the line `del` became the line `add`, those of `del`
/// first.
pub fn line_emphasis(del: &str, add: &str) -> (r: (Vec<Range<usize>>, Vec<Range<usize>>))
    ensures
        ranges_of(r.0@) == emphasis_of(del@, add@).0,
        ranges_of(r.1@) == emphasis_of(del@, add@).1,
{
    let dt = word_tokens(del);
    let at = word_tokens(add);
    let ds = texts(&dt);
    let ts = texts(&at);
    let (d_ch, a_ch) = changed_tokens(&ds, &ts);
    proof {
        assert(texts_of(ds@) =~= token_texts(del@));
        assert(texts_of(ts@) =~= token_texts(add@));
        assert(ranges_in(dt@) =~= token_bytes(del@));
        assert(ranges_in(at@) =~= token_bytes(add@));
        let a = texts_of(ds@);
        let b = texts_of(ts@);
        lemma_unaligned_range(a, b, 0, 0);
        assert forall|k: int| 0 <= k < d_ch@.len() implies #[trigger] d_ch@[k] < dt@.len() by {
            assert(indices_of(d_ch@)[k] == unaligned(a, b, 0, 0).0[k]);
        }
        assert forall|k: int| 0 <= k < a_ch@.len() implies #[trigger] a_ch@[k] < at@.len() by {
            assert(indices_of(a_ch@)[k] == unaligned(a, b, 0, 0).1[k]);
        }
    }
    (merge_token_ranges(&dt, &d_ch), merge_token_ranges(&at, &a_ch))
}

/// The texts of the tokens.
fn texts<'a>(tokens: &Vec<(Range<usize>, &'a str)>) -> (out: Vec<&'a str>)
    ensures
        out@.len() == tokens@.len(),
        forall|k: int| 0 <= k < out@.len() ==> (#[trigger] out@[k])@ == tokens@[k].1@,
{
    let mut out: Vec<&'a str> = Vec::new();
    let mut k: usize = 0;
    while k < tokens.len()
        invariant
            k <= tokens.len(),
            out@.len() == k,
            forall|i: int| 0 <= i < k ==> (#[trigger] out@[i])@ == tokens@[i].1@,
        decreases tokens.len() - k,
    {
        out.push(tokens[k].1);
        k += 1;
    }
    out
}

/// The positions left out are positions of their side, ascending.
proof fn lemma_unaligned_range(a: Seq<Seq<char>>, b: Seq<Seq<char>>, i: int, j: int)
    requires
        0 <= i <= a.len(),
        0 <= j <= b.len(),
    ensures
        forall|k: int| #![trigger unaligned(a, b, i, j).0[k]]
            0 <= k < unaligned(a, b, i, j).0.len() ==> i <= unaligned(a, b, i, j).0[k] < a.len(),
        forall|k: int| #![trigger unaligned(a, b, i, j).1[k]]
            0 <= k < unaligned(a, b, i, j).1.len() ==> j <= unaligned(a, b, i, j).1[k] < b.len(),
        ascending(unaligned(a, b, i, j).0),
        ascending(unaligned(a, b, i, j).1),
    decreases a.len() - i + b.len() - j,
{
    if i < a.len() && j < b.len() {
        if a[i] == b[j] {
            lemma_unaligned_range(a, b, i + 1, j + 1);
        } else if lcs_len(a, b, i + 1, j) >= lcs_len(a, b, i, j + 1) {
            lemma_unaligned_range(a, b, i + 1, j);
        } else {
            lemma_unaligned_range(a, b, i, j + 1);
        }
    }
}

/// Whether each integer is greater than the one before it.
pub open spec fn ascending(s: Seq<int>) -> bool {
    forall|k: int, l: int| 0 <= k < l < s.len() ==> s[k] < s[l]
}

/// The pairs of positions that `unaligned` keeps: each aligns a token of `a` with one of `b`.
pub open spec fn aligned(a: Seq<Seq<char>>, b: Seq<Seq<char>>, i: int, j: int) -> Seq<(int, int)>
    decreases a.len() - i + b.len() - j,
{
    if !(0 <= i < a.len() && 0 <= j < b.len()) {
        Seq::empty()
    } else if a[i] == b[j] {
        seq![(i, j)] + aligned(a, b, i + 1, j + 1)
    } else if lcs_len(a, b, i + 1, j) >= lcs_len(a, b, i, j + 1) {
        aligned(a, b, i + 1, j)
    } else {
        aligned(a, b, i, j + 1)
    }
}

/// Whether `pairs` is a common subsequence of `a` from `i` on and `b` from `j` on.
pub open spec fn common(
    a: Seq<Seq<char>>,
    b: Seq<Seq<char>>,
    pairs: Seq<(int, int)>,
    i: int,
    j: int,
) -> bool {
    &&& forall|k: int| #![trigger pairs[k]]
        0 <= k < pairs.len() ==> i <= pairs[k].0 < a.len() && j <= pairs[k].1 < b.len()
            && a[pairs[k].0] == b[pairs[k].1]
    &&& forall|k: int, l: int| #![trigger pairs[k], pairs[l]]
        0 <= k < l < pairs.len() ==> pairs[k].0 < pairs[l].0 && pairs[k].1 < pairs[l].1
}

/// The kept tokens are a common subsequence of both sides, as long as `lcs_len` says, and a position
/// is left out exactly where no pair keeps it.
pub proof fn law_kept_tokens_are_common(a: Seq<Seq<char>>, b: Seq<Seq<char>>, i: int, j: int)
    requires
        0 <= i <= a.len(),
        0 <= j <= b.len(),
    ensures
        common(a, b, aligned(a, b, i, j), i, j),
        aligned(a, b, i, j).len() == lcs_len(a, b, i, j),
        forall|p: int| i <= p < a.len() ==> (#[trigger] unaligned(a, b, i, j).0.contains(p)
            <==> !keeps_left(aligned(a, b, i, j), p)),
        forall|q: int| j <= q < b.len() ==> (#[trigger] unaligned(a, b, i, j).1.contains(q)
            <==> !keeps_right(aligned(a, b, i, j), q)),
    decreases a.len() - i + b.len() - j,
{
    lemma_unaligned_range(a, b, i, j);
    let here = unaligned(a, b, i, j);
    let pairs = aligned(a, b, i, j);
    if !(i < a.len() && j < b.len()) {
        assert forall|p: int| i <= p < a.len() implies #[trigger] here.0.contains(p) by {
            assert(upto(i, a.len() as int)[p - i] == p);
        }
        assert forall|q: int| j <= q < b.len() implies #[trigger] here.1.contains(q) by {
            assert(upto(j, b.len() as int)[q - j] == q);
        }
    } else if a[i] == b[j] {
        law_kept_tokens_are_common(a, b, i + 1, j + 1);
        lemma_unaligned_range(a, b, i + 1, j + 1);
        let rest = aligned(a, b, i + 1, j + 1);
        assert(pairs[0] == (i, j));
        assert forall|p: int| i <= p < a.len() implies keeps_left(pairs, p) == (p == i
            || keeps_left(rest, p)) by {
            lemma_keeps_cons((i, j), rest, p, j);
        }
        assert forall|q: int| j <= q < b.len() implies keeps_right(pairs, q) == (q == j
            || keeps_right(rest, q)) by {
            lemma_keeps_cons((i, j), rest, i, q);
        }
    } else if lcs_len(a, b, i + 1, j) >= lcs_len(a, b, i, j + 1) {
        law_kept_tokens_are_common(a, b, i + 1, j);
        let rest = unaligned(a, b, i + 1, j);
        lemma_contains_cons(i, rest.0);
    } else {
        law_kept_tokens_are_common(a, b, i, j + 1);
        let rest = unaligned(a, b, i, j + 1);
        lemma_contains_cons(j, rest.1);
    }
}

/// Whether a pair keeps the left position `p`.
pub open spec fn keeps_left(pairs: Seq<(int, int)>, p: int) -> bool {
    exists|k: int| 0 <= k < pairs.len() && (#[trigger] pairs[k]).0 == p
}

/// Whether a pair keeps the right position `q`.
pub open spec fn keeps_right(pairs: Seq<(int, int)>, q: int) -> bool {
    exists|k: int| 0 <= k < pairs.len() && (#[trigger] pairs[k]).1 == q
}

proof fn lemma_keeps_cons(head: (int, int), rest: Seq<(int, int)>, p: int, q: int)
    ensures
        keeps_left(seq![head] + rest, p) == (head.0 == p || keeps_left(rest, p)),
        keeps_right(seq![head] + rest, q) == (head.1 == q || keeps_right(rest, q)),
{
    let all = seq![head] + rest;
    assert(all[0] == head);
    if keeps_left(rest, p) {
        let k = choose|k: int| 0 <= k < rest.len() && (#[trigger] rest[k]).0 == p;
        assert(all[k + 1] == rest[k]);
    }
    if keeps_right(rest, q) {
        let k = choose|k: int| 0 <= k < rest.len() && (#[trigger] rest[k]).1 == q;
        assert(all[k + 1] == rest[k]);
    }
    assert forall|k: int| 1 <= k < all.len() implies #[trigger] all[k] == rest[k - 1] by {}
}

proof fn lemma_contains_cons(head: int, rest: Seq<int>)
    ensures
        forall|p: int| #[trigger]
            (seq![head] + rest).contains(p) == (p == head || rest.contains(p)),
{
    let all = seq![head] + rest;
    assert(all[0] == head);
    assert forall|p: int| #[trigger] all.contains(p) == (p == head || rest.contains(p)) by {
        if rest.contains(p) {
            let k = choose|k: int| 0 <= k < rest.len() && rest[k] == p;
            assert(all[k + 1] == p);
        }
        if all.contains(p) && p != head {
            let k = choose|k: int| 0 <= k < all.len() && all[k] == p;
            assert(rest[k - 1] == p);
        }
    }
}

/// No common subsequence is longer than the one that is kept: the fewest tokens are marked.
pub proof fn law_kept_tokens_are_most(
    a: Seq<Seq<char>>,
    b: Seq<Seq<char>>,
    pairs: Seq<(int, int)>,
    i: int,
    j: int,
)
    requires
        0 <= i <= a.len(),
        0 <= j <= b.len(),
        common(a, b, pairs, i, j),
    ensures
        pairs.len() <= lcs_len(a, b, i, j),
    decreases a.len() - i + b.len() - j,
{
    if pairs.len() > 0 {
        let head = pairs[0];
        if a[i] == b[j] {
            let rest = pairs.drop_first();
            assert forall|k: int| 0 <= k < rest.len() implies #[trigger] rest[k] == pairs[k + 1] by {}
            law_kept_tokens_are_most(a, b, rest, i + 1, j + 1);
        } else if head.0 > i {
            law_kept_tokens_are_most(a, b, pairs, i + 1, j);
        } else {
            law_kept_tokens_are_most(a, b, pairs, i, j + 1);
        }
    }
}

/// A line that did not change has nothing marked.
pub proof fn law_same_line_is_unmarked(s: Seq<char>)
    ensures
        emphasis_of(s, s) == (Seq::<(int, int)>::empty(), Seq::<(int, int)>::empty()),
{
    lemma_same_aligns(token_texts(s), 0);
}

proof fn lemma_same_aligns(a: Seq<Seq<char>>, i: int)
    requires
        0 <= i <= a.len(),
    ensures
        unaligned(a, a, i, i) == (Seq::<int>::empty(), Seq::<int>::empty()),
    decreases a.len() - i,
{
    if i < a.len() {
        lemma_same_aligns(a, i + 1);
    } else {
        assert(upto(i, i) =~= Seq::<int>::empty());
    }
}

/// Whether spans follow one another from `from` to `to` without gap or overlap, none of them empty.
pub open spec fn tiles(spans: Seq<(int, int)>, from: int, to: int) -> bool {
    &&& forall|k: int| #![trigger spans[k]]
        0 <= k < spans.len() ==> from <= spans[k].0 < spans[k].1 <= to
    &&& forall|k: int, l: int| #![trigger spans[k], spans[l]]
        0 <= k && l == k + 1 && l < spans.len() ==> spans[k].1 == spans[l].0
    &&& forall|k: int, l: int| #![trigger spans[k], spans[l]]
        0 <= k < l < spans.len() ==> spans[k].1 <= spans[l].0
    &&& spans.len() == 0 ==> from == to
    &&& spans.len() > 0 ==> spans[0].0 == from && spans.last().1 == to
}

/// The tokens of a line follow one another and cover it, in characters and in bytes.
pub proof fn law_tokens_tile_the_line(s: Seq<char>)
    ensures
        tiles(token_spans(s, 0), 0, s.len() as int),
        tiles(token_bytes(s), 0, utf8_len(s) as int),
{
    lemma_tiles(s, 0);
    let spans = token_spans(s, 0);
    let bytes = token_bytes(s);
    assert(s.take(0) =~= Seq::<char>::empty());
    assert(s.take(s.len() as int) =~= s);
    assert forall|k: int| #![trigger bytes[k]] 0 <= k < bytes.len() implies 0 <= bytes[k].0
        < bytes[k].1 <= utf8_len(s) by {
        assert(bytes[k] == byte_span(s, spans[k]));
        lemma_utf8_len_monotonic(s, spans[k].0, spans[k].1);
    }
    assert forall|k: int, l: int| #![trigger bytes[k], bytes[l]]
        0 <= k < l < bytes.len() implies bytes[k].1 <= bytes[l].0 by {
        assert(spans[k].1 <= spans[l].0);
        lemma_utf8_len_monotonic(s, spans[k].1, spans[l].0);
    }
}

proof fn lemma_tiles(s: Seq<char>, i: int)
    requires
        0 <= i <= s.len(),
    ensures
        tiles(token_spans(s, i), i, s.len() as int),
    decreases s.len() - i,
{
    if i < s.len() {
        lemma_token_end(s, i);
        let end = token_end(s, i);
        lemma_tiles(s, end);
        let rest = token_spans(s, end);
        let all = token_spans(s, i);
        assert(all[0] == (i, end));
        assert forall|k: int| 1 <= k < all.len() implies #[trigger] all[k] == rest[k - 1] by {}
    }
}

/// Whether ranges lie within `0..to`, none of them empty, with a gap before each but the first.
pub open spec fn apart(ranges: Seq<(int, int)>, to: int) -> bool {
    &&& forall|k: int| #![trigger ranges[k]]
        0 <= k < ranges.len() ==> 0 <= ranges[k].0 < ranges[k].1 <= to
    &&& forall|k: int, l: int| #![trigger ranges[k], ranges[l]]
        0 <= k < l < ranges.len() ==> ranges[k].1 < ranges[l].0
}

/// Whether a byte lies in one of the ranges.
pub open spec fn covers(ranges: Seq<(int, int)>, p: int) -> bool {
    exists|k: int| 0 <= k < ranges.len() && (#[trigger] ranges[k]).0 <= p < ranges[k].1
}

/// Whether a byte lies in the range of one of the changed tokens.
pub open spec fn in_changed(tokens: Seq<(int, int)>, changed: Seq<int>, p: int) -> bool {
    exists|k: int|
        0 <= k < changed.len() && tokens[#[trigger] changed[k]].0 <= p < tokens[changed[k]].1
}

/// The ranges marked on each side lie within their line, apart from one another, and hold exactly
/// the bytes of the tokens that changed.
pub proof fn law_emphasis_marks_the_changed_tokens(del: Seq<char>, add: Seq<char>)
    ensures
        apart(emphasis_of(del, add).0, utf8_len(del) as int),
        apart(emphasis_of(del, add).1, utf8_len(add) as int),
        forall|p: int| covers(emphasis_of(del, add).0, p) <==> in_changed(
            token_bytes(del),
            unaligned(token_texts(del), token_texts(add), 0, 0).0,
            p,
        ),
        forall|p: int| covers(emphasis_of(del, add).1, p) <==> in_changed(
            token_bytes(add),
            unaligned(token_texts(del), token_texts(add), 0, 0).1,
            p,
        ),
{
    law_tokens_tile_the_line(del);
    law_tokens_tile_the_line(add);
    let changed = unaligned(token_texts(del), token_texts(add), 0, 0);
    lemma_unaligned_range(token_texts(del), token_texts(add), 0, 0);
    lemma_merged(token_bytes(del), changed.0, utf8_len(del) as int);
    lemma_merged(token_bytes(add), changed.1, utf8_len(add) as int);
}

proof fn lemma_merged(tokens: Seq<(int, int)>, changed: Seq<int>, to: int)
    requires
        tiles(tokens, 0, to),
        ascending(changed),
        forall|k: int| 0 <= k < changed.len() ==> 0 <= #[trigger] changed[k] < tokens.len(),
    ensures
        apart(merged(tokens, changed), to),
        changed.len() > 0 ==> merged(tokens, changed).len() > 0 && merged(tokens, changed).last().1
            == tokens[changed.last()].1,
        forall|p: int| covers(merged(tokens, changed), p) <==> in_changed(tokens, changed, p),
    decreases changed.len(),
{
    if changed.len() > 0 {
        let fore = changed.drop_last();
        assert forall|k: int| 0 <= k < fore.len() implies #[trigger] fore[k] == changed[k] by {}
        lemma_merged(tokens, fore, to);
        let before = merged(tokens, fore);
        let now = merged(tokens, changed);
        let r = tokens[changed.last()];
        if fore.len() > 0 {
            assert(changed[fore.len() - 1] < changed[changed.len() - 1]);
            assert(tokens[fore.last()].1 <= r.0);
        }
        assert forall|p: int| covers(now, p) <==> in_changed(tokens, changed, p) by {
            if in_changed(tokens, changed, p) {
                let k = choose|k: int|
                    0 <= k < changed.len() && tokens[#[trigger] changed[k]].0 <= p
                        < tokens[changed[k]].1;
                if k < fore.len() {
                    assert(fore[k] == changed[k]);
                    assert(in_changed(tokens, fore, p));
                    assert(covers(before, p));
                    let l = choose|l: int|
                        0 <= l < before.len() && (#[trigger] before[l]).0 <= p < before[l].1;
                    assert(now[l].0 <= p < now[l].1);
                } else {
                    assert(now[now.len() - 1].0 <= p < now[now.len() - 1].1);
                }
            }
            if covers(now, p) {
                let l = choose|l: int| 0 <= l < now.len() && (#[trigger] now[l]).0 <= p < now[l].1;
                if r.0 <= p < r.1 {
                    assert(changed[changed.len() - 1] == changed.last());
                    assert(in_changed(tokens, changed, p));
                } else {
                    assert(before[l].0 <= p < before[l].1);
                    assert(covers(before, p));
                    assert(in_changed(tokens, fore, p));
                    let k = choose|k: int|
                        0 <= k < fore.len() && tokens[#[trigger] fore[k]].0 <= p < tokens[fore[k]].1;
                    assert(changed[k] == fore[k]);
                }
            }
        }
    }
}

/// Whether a character belongs to a word: a letter or a digit of ASCII, or an underscore.
pub open spec fn in_word(c: char) -> bool {
    ('a' <= c && c <= 'z') || ('A' <= c && c <= 'Z') || ('0' <= c && c <= '9') || c == '_'
}

/// Words are kept whole and everything else is told apart by the character: a token is a run of word
/// characters or one other character, no two words stand side by side, and the token is the text
/// between its ends.
pub proof fn law_tokens_are_words_or_characters(s: Seq<char>, k: int)
    requires
        0 <= k < token_spans(s, 0).len(),
    ensures
        token_texts(s).len() == token_spans(s, 0).len(),
        token_bytes(s).len() == token_spans(s, 0).len(),
        ({
            let t = token_spans(s, 0)[k];
            &&& 0 <= t.0 < t.1 <= s.len()
            &&& t.1 == t.0 + 1 || forall|i: int| t.0 <= i < t.1 ==> in_word(#[trigger] s[i])
            &&& k + 1 < token_spans(s, 0).len() ==> t.1 < s.len() && !(in_word(s[t.1 - 1])
                && in_word(s[t.1]))
            &&& token_texts(s)[k] == s.subrange(t.0, t.1)
            &&& token_bytes(s)[k].0 == encode_utf8(s.take(t.0)).len()
            &&& token_bytes(s)[k].1 == encode_utf8(s.take(t.1)).len()
        }),
{
    lemma_spans_are_words(s, 0, k);
}

proof fn lemma_spans_are_words(s: Seq<char>, i: int, k: int)
    requires
        0 <= i <= s.len(),
        0 <= k < token_spans(s, i).len(),
    ensures
        ({
            let t = token_spans(s, i)[k];
            &&& i <= t.0 < t.1 <= s.len()
            &&& t.1 == t.0 + 1 || forall|j: int| t.0 <= j < t.1 ==> in_word(#[trigger] s[j])
            &&& k + 1 < token_spans(s, i).len() ==> t.1 < s.len() && !(in_word(s[t.1 - 1])
                && in_word(s[t.1]))
        }),
    decreases s.len() - i,
{
    lemma_token_end(s, i);
    let e = token_end(s, i);
    let rest = token_spans(s, e);
    if k == 0 {
        if is_word(s[i]) {
            lemma_run_is_words(s, i);
        }
        if rest.len() > 0 {
            assert(e < s.len());
        }
    } else {
        assert(token_spans(s, i)[k] == rest[k - 1]);
        lemma_spans_are_words(s, e, k - 1);
    }
}

proof fn lemma_run_is_words(s: Seq<char>, i: int)
    requires
        0 <= i <= s.len(),
    ensures
        i <= run_end(s, i) <= s.len(),
        forall|j: int| i <= j < run_end(s, i) ==> in_word(#[trigger] s[j]),
        run_end(s, i) < s.len() ==> !in_word(s[run_end(s, i)]),
    decreases s.len() - i,
{
    if i < s.len() && is_word(s[i]) {
        lemma_run_is_words(s, i + 1);
    }
}

/// Lines that differ are marked: where no range is marked on either of two lines, they are the same.
pub proof fn law_different_lines_are_marked(x: Seq<char>, y: Seq<char>)
    requires
        x != y,
    ensures
        emphasis_of(x, y).0.len() > 0 || emphasis_of(x, y).1.len() > 0,
{
    let a = token_texts(x);
    let b = token_texts(y);
    let changed = unaligned(a, b, 0, 0);
    lemma_merged_some(token_bytes(x), changed.0);
    lemma_merged_some(token_bytes(y), changed.1);
    if changed.0.len() == 0 && changed.1.len() == 0 {
        lemma_all_aligned(a, b, 0, 0);
        assert(a.skip(0) =~= a && b.skip(0) =~= b);
        lemma_tokens_spell(x, 0);
        lemma_tokens_spell(y, 0);
        assert(x.skip(0) =~= x && y.skip(0) =~= y);
    }
}

proof fn lemma_merged_some(tokens: Seq<(int, int)>, changed: Seq<int>)
    ensures
        merged(tokens, changed).len() == 0 <==> changed.len() == 0,
    decreases changed.len(),
{
    if changed.len() > 0 {
        lemma_merged_some(tokens, changed.drop_last());
    }
}

proof fn lemma_all_aligned(a: Seq<Seq<char>>, b: Seq<Seq<char>>, i: int, j: int)
    requires
        0 <= i <= a.len(),
        0 <= j <= b.len(),
        unaligned(a, b, i, j).0.len() == 0,
        unaligned(a, b, i, j).1.len() == 0,
    ensures
        a.skip(i) == b.skip(j),
    decreases a.len() - i,
{
    if i < a.len() && j < b.len() {
        if a[i] == b[j] {
            lemma_all_aligned(a, b, i + 1, j + 1);
            assert(a.skip(i) =~= seq![a[i]] + a.skip(i + 1));
            assert(b.skip(j) =~= seq![b[j]] + b.skip(j + 1));
        }
    } else {
        assert(a.skip(i) =~= b.skip(j));
    }
}

/// The texts one after the other.
pub open spec fn run_together(texts: Seq<Seq<char>>) -> Seq<char>
    decreases texts.len(),
{
    if texts.len() == 0 {
        Seq::empty()
    } else {
        texts[0] + run_together(texts.drop_first())
    }
}

proof fn lemma_tokens_spell(s: Seq<char>, i: int)
    requires
        0 <= i <= s.len(),
    ensures
        run_together(token_spans(s, i).map_values(|t: (int, int)| s.subrange(t.0, t.1))) == s.skip(i),
    decreases s.len() - i,
{
    let spans = token_spans(s, i);
    let texts = spans.map_values(|t: (int, int)| s.subrange(t.0, t.1));
    if i < s.len() {
        lemma_token_end(s, i);
        let e = token_end(s, i);
        lemma_tokens_spell(s, e);
        assert(spans.drop_first() =~= token_spans(s, e));
        assert(texts.drop_first() =~= token_spans(s, e).map_values(
            |t: (int, int)| s.subrange(t.0, t.1),
        ));
        assert(s.subrange(i, e) + s.skip(e) =~= s.skip(i));
    } else {
        assert(texts.len() == 0);
        assert(s.skip(i) =~= Seq::<char>::empty());
    }
}

/// The tokens of a line, one after the other, are the line.
pub proof fn law_tokens_spell_the_line(s: Seq<char>)
    ensures
        run_together(token_texts(s)) == s,
{
    lemma_tokens_spell(s, 0);
    assert(s.skip(0) =~= s);
}

/// Tokens that start both lines alike are kept; and of two that differ, the one of the deleted line is
/// left out first, where as many tokens can be kept without it.
pub proof fn law_deleted_token_is_left_out_first(
    a: Seq<Seq<char>>,
    b: Seq<Seq<char>>,
    pairs: Seq<(int, int)>,
    i: int,
    j: int,
)
    requires
        0 <= i < a.len(),
        0 <= j < b.len(),
    ensures
        a[i] == b[j] ==> unaligned(a, b, i, j) == unaligned(a, b, i + 1, j + 1),
        a[i] != b[j] && common(a, b, pairs, i + 1, j) && pairs.len() == lcs_len(a, b, i, j) ==> {
            &&& unaligned(a, b, i, j).0 == seq![i] + unaligned(a, b, i + 1, j).0
            &&& unaligned(a, b, i, j).1 == unaligned(a, b, i + 1, j).1
        },
{
    if a[i] != b[j] && common(a, b, pairs, i + 1, j) {
        law_kept_tokens_are_most(a, b, pairs, i + 1, j);
    }
}

} // verus!
