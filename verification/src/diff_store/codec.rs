//! The bytes of a stored diff.
//!
//! An entry holds what a diff is made of, and neither its colours nor its changed words. All of its
//! numbers have a fixed width.

use std::sync::Arc;
use vstd::prelude::*;
use vstd::utf8::*;

use crate::bytes::{
    law_le_round_trip, law_le_value_round_trip, le, le_value, lemma_le_len, lemma_widths, push_le,
    read_le,
};
use crate::diff::data::{file_views, DataView, Delta, DiffData, FileEntry, FileView};
use crate::diff::line::{line_views, lineno_view, DiffLine, LineKind, LineNo, LineView};
use crate::text::text_from_utf8;

verus! {

/// What every entry starts with.
pub const MAGIC: [u8; 8] = [0x67, 0x69, 0x74, 0x6b, 0x61, 0x79, 0x44, 0x00];

/// The number of the layout.
pub const VERSION: u16 = 3;

/// The fewest bytes that a line takes.
pub const LINE_MIN_BYTES: usize = 17;

/// The fewest bytes that a file takes.
pub const FILE_MIN_BYTES: usize = 44;

/// The byte that stands for a kind of line.
pub open spec fn kind_byte(k: LineKind) -> u8 {
    match k {
        LineKind::Context => 0,
        LineKind::Add => 1,
        LineKind::Del => 2,
        LineKind::Hunk => 3,
        LineKind::Meta => 4,
        LineKind::FileMeta => 5,
        LineKind::FileName => 6,
        LineKind::Stat => 7,
        LineKind::Blank => 8,
    }
}

/// The byte that stands for a kind of line.
pub fn kind_tag(k: LineKind) -> (t: u8)
    ensures
        t == kind_byte(k),
{
    match k {
        LineKind::Context => 0,
        LineKind::Add => 1,
        LineKind::Del => 2,
        LineKind::Hunk => 3,
        LineKind::Meta => 4,
        LineKind::FileMeta => 5,
        LineKind::FileName => 6,
        LineKind::Stat => 7,
        LineKind::Blank => 8,
    }
}

/// The kind of line that a byte stands for.
pub fn kind_from_tag(t: u8) -> (k: Option<LineKind>)
    ensures
        match k {
            Some(k) => kind_byte(k) == t,
            None => forall|k: LineKind| #[trigger] kind_byte(k) != t,
        },
{
    match t {
        0 => Some(LineKind::Context),
        1 => Some(LineKind::Add),
        2 => Some(LineKind::Del),
        3 => Some(LineKind::Hunk),
        4 => Some(LineKind::Meta),
        5 => Some(LineKind::FileMeta),
        6 => Some(LineKind::FileName),
        7 => Some(LineKind::Stat),
        8 => Some(LineKind::Blank),
        _ => None,
    }
}

/// The byte that stands for what became of a file.
pub open spec fn delta_byte(d: Delta) -> u8 {
    match d {
        Delta::Unmodified => 0,
        Delta::Added => 1,
        Delta::Deleted => 2,
        Delta::Modified => 3,
        Delta::Renamed => 4,
        Delta::Copied => 5,
        Delta::Ignored => 6,
        Delta::Untracked => 7,
        Delta::Typechange => 8,
        Delta::Unreadable => 9,
        Delta::Conflicted => 10,
    }
}

/// The byte that stands for what became of a file.
pub fn delta_tag(d: Delta) -> (t: u8)
    ensures
        t == delta_byte(d),
{
    match d {
        Delta::Unmodified => 0,
        Delta::Added => 1,
        Delta::Deleted => 2,
        Delta::Modified => 3,
        Delta::Renamed => 4,
        Delta::Copied => 5,
        Delta::Ignored => 6,
        Delta::Untracked => 7,
        Delta::Typechange => 8,
        Delta::Unreadable => 9,
        Delta::Conflicted => 10,
    }
}

/// What became of a file that a byte stands for.
pub fn delta_from_tag(t: u8) -> (d: Option<Delta>)
    ensures
        match d {
            Some(d) => delta_byte(d) == t,
            None => forall|d: Delta| #[trigger] delta_byte(d) != t,
        },
{
    match t {
        0 => Some(Delta::Unmodified),
        1 => Some(Delta::Added),
        2 => Some(Delta::Deleted),
        3 => Some(Delta::Modified),
        4 => Some(Delta::Renamed),
        5 => Some(Delta::Copied),
        6 => Some(Delta::Ignored),
        7 => Some(Delta::Untracked),
        8 => Some(Delta::Typechange),
        9 => Some(Delta::Unreadable),
        10 => Some(Delta::Conflicted),
        _ => None,
    }
}

/// Bytes behind their number.
pub open spec fn run_bytes(b: Seq<u8>) -> Seq<u8> {
    le(b.len(), 8) + b
}

/// Zero for nothing; one, then the bytes behind their number.
pub open spec fn opt_run_bytes(b: Option<Seq<u8>>) -> Seq<u8> {
    match b {
        None => seq![0u8],
        Some(b) => seq![1u8] + run_bytes(b),
    }
}

/// The UTF-8 bytes of an optional text.
pub open spec fn opt_utf8(s: Option<Seq<char>>) -> Option<Seq<u8>> {
    match s {
        None => None,
        Some(s) => Some(encode_utf8(s)),
    }
}

/// A number counted from one, with zero for none.
pub open spec fn lineno_value(no: Option<int>) -> nat {
    match no {
        Some(n) => n as nat,
        None => 0,
    }
}

/// A number counted from zero, raised by one, with zero for none.
pub open spec fn index_value(idx: Option<nat>) -> nat {
    match idx {
        Some(n) => n + 1,
        None => 0,
    }
}

/// The bytes of a line.
pub open spec fn line_bytes(l: LineView) -> Seq<u8> {
    seq![kind_byte(l.kind)] + (run_bytes(encode_utf8(l.text)) + (le(lineno_value(l.old_lineno), 4)
        + le(lineno_value(l.new_lineno), 4)))
}

/// The bytes of a file, with `flag` for whether it is binary.
pub open spec fn file_bytes(f: FileView, flag: u8) -> Seq<u8> {
    run_bytes(encode_utf8(f.path)) + (opt_run_bytes(opt_utf8(f.old_path)) + (run_bytes(f.path_bytes)
        + (opt_run_bytes(f.old_path_bytes) + (seq![delta_byte(f.status), flag] + (le(f.additions, 8)
        + (le(f.deletions, 8) + le(index_value(f.diff_line_idx), 8)))))))
}

/// The bytes of the lines, one after the other.
pub open spec fn lines_bytes(lines: Seq<LineView>) -> Seq<u8>
    decreases lines.len(),
{
    if lines.len() == 0 {
        Seq::empty()
    } else {
        line_bytes(lines[0]) + lines_bytes(lines.drop_first())
    }
}

/// The bytes of the files, one after the other.
pub open spec fn files_bytes(files: Seq<FileView>, flags: Seq<u8>) -> Seq<u8>
    decreases files.len(),
{
    if files.len() == 0 {
        Seq::empty()
    } else {
        file_bytes(files[0], flags[0]) + files_bytes(files.drop_first(), flags.drop_first())
    }
}

/// The bytes of a diff, with `flags` for which of its files are binary.
pub open spec fn flagged_bytes(d: DataView, flags: Seq<u8>) -> Seq<u8> {
    MAGIC@ + (le(VERSION as nat, 2) + (le(d.max_chars, 8) + (le(d.lines.len(), 8) + (lines_bytes(
        d.lines,
    ) + (le(d.files.len(), 8) + files_bytes(d.files, flags))))))
}

/// One for each binary file, and zero for each other.
pub open spec fn flags_of(files: Seq<FileView>) -> Seq<u8> {
    files.map_values(|f: FileView| flag_of(f))
}

/// One for a binary file, and zero for another.
pub open spec fn flag_of(f: FileView) -> u8 {
    if f.is_binary {
        1
    } else {
        0
    }
}

/// The bytes of a diff.
pub open spec fn data_bytes(d: DataView) -> Seq<u8> {
    flagged_bytes(d, flags_of(d.files))
}

/// Whether `bytes` are those of the diff `d`, where any byte but zero marks a binary file.
pub open spec fn spells(bytes: Seq<u8>, d: DataView) -> bool {
    exists|flags: Seq<u8>| #[trigger] marks(flags, d.files) && bytes == flagged_bytes(d, flags)
}

/// Whether the flags mark the binary files.
pub open spec fn marks(flags: Seq<u8>, files: Seq<FileView>) -> bool {
    &&& flags.len() == files.len()
    &&& forall|i: int| 0 <= i < files.len() ==> (#[trigger] flags[i] != 0) == files[i].is_binary
}

/// Whether a line holds only what an entry keeps, in numbers that fit.
pub open spec fn line_fits(l: LineView) -> bool {
    &&& l.spans is None
    &&& l.emphasis is None
    &&& l.old_lineno matches Some(n) ==> 0 < n <= u32::MAX
    &&& l.new_lineno matches Some(n) ==> 0 < n <= u32::MAX
    &&& utf8_fits(l.text)
}

/// Whether the length of a text fits.
pub open spec fn utf8_fits(s: Seq<char>) -> bool {
    encode_utf8(s).len() <= usize::MAX
}

/// Whether the numbers of a file fit.
pub open spec fn file_fits(f: FileView) -> bool {
    &&& utf8_fits(f.path)
    &&& f.old_path matches Some(s) ==> utf8_fits(s)
    &&& f.path_bytes.len() <= usize::MAX
    &&& f.old_path_bytes matches Some(b) ==> b.len() <= usize::MAX
    &&& f.additions <= usize::MAX
    &&& f.deletions <= usize::MAX
    &&& f.diff_line_idx matches Some(n) ==> n <= usize::MAX && n < u64::MAX
}

/// Whether a diff holds only what an entry keeps, in numbers that fit.
pub open spec fn fits(d: DataView) -> bool {
    &&& d.max_chars <= usize::MAX
    &&& d.lines.len() <= usize::MAX
    &&& d.files.len() <= usize::MAX
    &&& forall|i: int| 0 <= i < d.lines.len() ==> line_fits(#[trigger] d.lines[i])
    &&& forall|i: int| 0 <= i < d.files.len() ==> file_fits(#[trigger] d.files[i])
}

// Reading: each function takes the bytes that are left, and gives what it read and what is left
// then.
spec fn p_num(b: Seq<u8>, width: nat) -> Option<(nat, Seq<u8>)> {
    if b.len() < width {
        None
    } else {
        Some((le_value(b.take(width as int)), b.skip(width as int)))
    }
}

spec fn p_run(b: Seq<u8>) -> Option<(Seq<u8>, Seq<u8>)> {
    match p_num(b, 8) {
        Some((n, rest)) => if n <= rest.len() {
            Some((rest.take(n as int), rest.skip(n as int)))
        } else {
            None
        },
        None => None,
    }
}

spec fn p_opt_run(b: Seq<u8>) -> Option<(Option<Seq<u8>>, Seq<u8>)> {
    if b.len() == 0 || b[0] > 1 {
        None
    } else if b[0] == 0 {
        Some((None, b.skip(1)))
    } else {
        match p_run(b.skip(1)) {
            Some((x, rest)) => Some((Some(x), rest)),
            None => None,
        }
    }
}

spec fn p_text(b: Seq<u8>) -> Option<(Seq<char>, Seq<u8>)> {
    match p_run(b) {
        Some((x, rest)) => if valid_utf8(x) {
            Some((decode_utf8(x), rest))
        } else {
            None
        },
        None => None,
    }
}

spec fn p_opt_text(b: Seq<u8>) -> Option<(Option<Seq<char>>, Seq<u8>)> {
    match p_opt_run(b) {
        Some((Some(x), rest)) => if valid_utf8(x) {
            Some((Some(decode_utf8(x)), rest))
        } else {
            None
        },
        Some((None, rest)) => Some((None, rest)),
        None => None,
    }
}

spec fn p_lineno(b: Seq<u8>) -> Option<(Option<int>, Seq<u8>)> {
    match p_num(b, 4) {
        Some((n, rest)) => Some(
            (
                if n == 0 {
                    None
                } else {
                    Some(n as int)
                },
                rest,
            ),
        ),
        None => None,
    }
}

spec fn p_index(b: Seq<u8>) -> Option<(Option<nat>, Seq<u8>)> {
    match p_num(b, 8) {
        Some((n, rest)) => if n == 0 {
            Some((None, rest))
        } else if n - 1 <= usize::MAX {
            Some((Some((n - 1) as nat), rest))
        } else {
            None
        },
        None => None,
    }
}

spec fn p_size(b: Seq<u8>) -> Option<(nat, Seq<u8>)> {
    match p_num(b, 8) {
        Some((n, rest)) => if n <= usize::MAX {
            Some((n, rest))
        } else {
            None
        },
        None => None,
    }
}

spec fn p_kind(b: Seq<u8>) -> Option<(LineKind, Seq<u8>)> {
    if b.len() > 0 && exists|k: LineKind| #[trigger] kind_byte(k) == b[0] {
        Some((choose|k: LineKind| #[trigger] kind_byte(k) == b[0], b.skip(1)))
    } else {
        None
    }
}

spec fn p_delta(b: Seq<u8>) -> Option<(Delta, Seq<u8>)> {
    if b.len() > 0 && exists|d: Delta| #[trigger] delta_byte(d) == b[0] {
        Some((choose|d: Delta| #[trigger] delta_byte(d) == b[0], b.skip(1)))
    } else {
        None
    }
}

#[verifier::opaque]
spec fn p_line(b: Seq<u8>) -> Option<(LineView, Seq<u8>)> {
    match p_kind(b) {
        Some((kind, b1)) => match p_text(b1) {
            Some((text, b2)) => match p_lineno(b2) {
                Some((old_lineno, b3)) => match p_lineno(b3) {
                    Some((new_lineno, b4)) => Some(
                        (
                            LineView {
                                text,
                                kind,
                                spans: None,
                                emphasis: None,
                                old_lineno,
                                new_lineno,
                            },
                            b4,
                        ),
                    ),
                    None => None,
                },
                None => None,
            },
            None => None,
        },
        None => None,
    }
}

spec fn p_lines(b: Seq<u8>, n: nat) -> Option<(Seq<LineView>, Seq<u8>)>
    decreases n,
{
    if n == 0 {
        Some((Seq::empty(), b))
    } else {
        match p_line(b) {
            Some((line, b1)) => match p_lines(b1, (n - 1) as nat) {
                Some((lines, b2)) => Some((seq![line] + lines, b2)),
                None => None,
            },
            None => None,
        }
    }
}

// ---- the pieces, read back
proof fn lemma_p_num(b: Seq<u8>, width: nat, n: nat, rest: Seq<u8>)
    requires
        width == 1 || width == 2 || width == 4 || width == 8,
    ensures
        p_num(b, width) == Some((n, rest)) ==> b == le(n, width) + rest && n
            < vstd::arithmetic::power::pow(256, width),
        b == le(n, width) + rest && n < vstd::arithmetic::power::pow(256, width) ==> p_num(b, width)
            == Some((n, rest)),
{
    lemma_le_len(n, width);
    if p_num(b, width) == Some((n, rest)) {
        law_le_value_round_trip(b.take(width as int));
        assert(b =~= b.take(width as int) + b.skip(width as int));
    }
    if b == le(n, width) + rest && n < vstd::arithmetic::power::pow(256, width) {
        law_le_round_trip(n, width);
        assert(b.take(width as int) =~= le(n, width));
        assert(b.skip(width as int) =~= rest);
    }
}

proof fn lemma_p_run(b: Seq<u8>, x: Seq<u8>, rest: Seq<u8>)
    ensures
        p_run(b) == Some((x, rest)) ==> b == run_bytes(x) + rest && x.len() <= b.len(),
        b == run_bytes(x) + rest && x.len() <= u64::MAX ==> p_run(b) == Some((x, rest)),
{
    lemma_widths();
    if p_run(b) == Some((x, rest)) {
        let (n, r) = p_num(b, 8)->0;
        lemma_p_num(b, 8, n, r);
        assert(r =~= x + rest);
        assert(b =~= run_bytes(x) + rest);
    }
    if b == run_bytes(x) + rest && x.len() <= u64::MAX {
        assert(b =~= le(x.len(), 8) + (x + rest));
        lemma_p_num(b, 8, x.len(), x + rest);
        assert((x + rest).take(x.len() as int) =~= x);
        assert((x + rest).skip(x.len() as int) =~= rest);
    }
}

proof fn lemma_p_opt_run(b: Seq<u8>, x: Option<Seq<u8>>, rest: Seq<u8>)
    ensures
        p_opt_run(b) == Some((x, rest)) ==> b == opt_run_bytes(x) + rest && (x matches Some(
            y,
        ) ==> y.len() <= b.len()),
        b == opt_run_bytes(x) + rest && (x matches Some(y) ==> y.len() <= u64::MAX) ==> p_opt_run(b)
            == Some((x, rest)),
{
    if p_opt_run(b) == Some((x, rest)) {
        match x {
            None => {
                assert(b =~= seq![0u8] + rest);
            },
            Some(y) => {
                lemma_p_run(b.skip(1), y, rest);
                assert(b =~= seq![1u8] + b.skip(1));
                assert(b =~= opt_run_bytes(x) + rest);
            },
        }
    }
    if b == opt_run_bytes(x) + rest && (x matches Some(y) ==> y.len() <= u64::MAX) {
        match x {
            None => {
                assert(b.skip(1) =~= rest);
            },
            Some(y) => {
                assert(b.skip(1) =~= run_bytes(y) + rest);
                lemma_p_run(b.skip(1), y, rest);
            },
        }
    }
}

proof fn lemma_p_text(b: Seq<u8>, s: Seq<char>, rest: Seq<u8>)
    ensures
        p_text(b) == Some((s, rest)) ==> b == run_bytes(encode_utf8(s)) + rest && encode_utf8(
            s,
        ).len() <= b.len(),
        b == run_bytes(encode_utf8(s)) + rest && encode_utf8(s).len() <= u64::MAX ==> p_text(b)
            == Some((s, rest)),
{
    if p_text(b) == Some((s, rest)) {
        let x = (p_run(b)->0).0;
        lemma_p_run(b, x, rest);
        decode_utf8_encode_utf8(x);
    }
    if b == run_bytes(encode_utf8(s)) + rest && encode_utf8(s).len() <= u64::MAX {
        lemma_p_run(b, encode_utf8(s), rest);
        encode_utf8_valid_utf8(s);
        encode_utf8_decode_utf8(s);
    }
}

proof fn lemma_p_opt_text(b: Seq<u8>, s: Option<Seq<char>>, rest: Seq<u8>)
    ensures
        p_opt_text(b) == Some((s, rest)) ==> b == opt_run_bytes(opt_utf8(s)) + rest && (s matches Some(
            t,
        ) ==> encode_utf8(t).len() <= b.len()),
        b == opt_run_bytes(opt_utf8(s)) + rest && (s matches Some(t) ==> encode_utf8(t).len()
            <= u64::MAX) ==> p_opt_text(b) == Some((s, rest)),
{
    if p_opt_text(b) == Some((s, rest)) {
        let x = (p_opt_run(b)->0).0;
        lemma_p_opt_run(b, x, rest);
        if x is Some {
            decode_utf8_encode_utf8(x->0);
        }
    }
    if b == opt_run_bytes(opt_utf8(s)) + rest && (s matches Some(t) ==> encode_utf8(t).len()
        <= u64::MAX) {
        lemma_p_opt_run(b, opt_utf8(s), rest);
        if s is Some {
            encode_utf8_valid_utf8(s->0);
            encode_utf8_decode_utf8(s->0);
        }
    }
}

proof fn lemma_p_lineno(b: Seq<u8>, no: Option<int>, rest: Seq<u8>)
    ensures
        p_lineno(b) == Some((no, rest)) ==> b == le(lineno_value(no), 4) + rest && (no matches Some(
            n,
        ) ==> 0 < n <= u32::MAX),
        b == le(lineno_value(no), 4) + rest && (no matches Some(n) ==> 0 < n <= u32::MAX)
            ==> p_lineno(b) == Some((no, rest)),
{
    lemma_widths();
    lemma_p_num(b, 4, lineno_value(no), rest);
}

proof fn lemma_p_kind(b: Seq<u8>, k: LineKind, rest: Seq<u8>)
    ensures
        p_kind(b) == Some((k, rest)) <==> b == seq![kind_byte(k)] + rest,
{
    if p_kind(b) == Some((k, rest)) {
        assert(b =~= seq![kind_byte(k)] + rest);
    }
    if b == seq![kind_byte(k)] + rest {
        assert(kind_byte(k) == b[0]);
        assert(b.skip(1) =~= rest);
    }
}

proof fn lemma_p_delta(b: Seq<u8>, d: Delta, rest: Seq<u8>)
    ensures
        p_delta(b) == Some((d, rest)) <==> b == seq![delta_byte(d)] + rest,
{
    if p_delta(b) == Some((d, rest)) {
        assert(b =~= seq![delta_byte(d)] + rest);
    }
    if b == seq![delta_byte(d)] + rest {
        assert(delta_byte(d) == b[0]);
        assert(b.skip(1) =~= rest);
    }
}

/// Concatenation is associative.
pub proof fn lemma_cat(x: Seq<u8>, y: Seq<u8>, z: Seq<u8>)
    ensures
        (x + y) + z == x + (y + z),
{
    assert((x + y) + z =~= x + (y + z));
}

/// The bytes of a line, with the rest taken into the last field.
proof fn lemma_line_split(l: LineView, rest: Seq<u8>)
    ensures
        line_bytes(l) + rest == seq![kind_byte(l.kind)] + (run_bytes(encode_utf8(l.text)) + (le(
            lineno_value(l.old_lineno),
            4,
        ) + (le(lineno_value(l.new_lineno), 4) + rest))),
{
    let k = seq![kind_byte(l.kind)];
    let t = run_bytes(encode_utf8(l.text));
    let o = le(lineno_value(l.old_lineno), 4);
    let n = le(lineno_value(l.new_lineno), 4);
    lemma_cat(k, t + (o + n), rest);
    lemma_cat(t, o + n, rest);
    lemma_cat(o, n, rest);
}

proof fn lemma_p_line_sound(b: Seq<u8>, l: LineView, rest: Seq<u8>)
    requires
        p_line(b) == Some((l, rest)),
        b.len() <= usize::MAX,
    ensures
        b == line_bytes(l) + rest,
        line_fits(l),
{
    reveal(p_line);
    let b1 = (p_kind(b)->0).1;
    let b2 = (p_text(b1)->0).1;
    let b3 = (p_lineno(b2)->0).1;
    lemma_p_kind(b, l.kind, b1);
    lemma_p_text(b1, l.text, b2);
    lemma_p_lineno(b2, l.old_lineno, b3);
    lemma_p_lineno(b3, l.new_lineno, rest);
    lemma_line_split(l, rest);
}

proof fn lemma_p_line_complete(l: LineView, rest: Seq<u8>)
    requires
        line_fits(l),
    ensures
        p_line(line_bytes(l) + rest) == Some((l, rest)),
{
    reveal(p_line);
    let b3 = le(lineno_value(l.new_lineno), 4) + rest;
    let b2 = le(lineno_value(l.old_lineno), 4) + b3;
    let b1 = run_bytes(encode_utf8(l.text)) + b2;
    lemma_line_split(l, rest);
    lemma_p_kind(line_bytes(l) + rest, l.kind, b1);
    lemma_p_text(b1, l.text, b2);
    lemma_p_lineno(b2, l.old_lineno, b3);
    lemma_p_lineno(b3, l.new_lineno, rest);
}

/// Whether all lines fit.
spec fn lines_fit(lines: Seq<LineView>) -> bool {
    forall|i: int| 0 <= i < lines.len() ==> line_fits(#[trigger] lines[i])
}

proof fn lemma_p_lines_sound(b: Seq<u8>, n: nat, lines: Seq<LineView>, rest: Seq<u8>)
    requires
        p_lines(b, n) == Some((lines, rest)),
        b.len() <= usize::MAX,
    ensures
        b == lines_bytes(lines) + rest,
        lines.len() == n,
        17 * n <= b.len(),
        lines_fit(lines),
    decreases n,
{
    if n == 0 {
        assert(lines_bytes(lines) + rest =~= rest);
    } else {
        let (line, b1) = p_line(b)->0;
        let tail = (p_lines(b1, (n - 1) as nat)->0).0;
        lemma_p_line_sound(b, line, b1);
        lemma_line_len(line);
        lemma_p_lines_sound(b1, (n - 1) as nat, tail, rest);
        assert(lines.drop_first() =~= tail);
        lemma_cat(line_bytes(line), lines_bytes(tail), rest);
        assert forall|i: int| 0 <= i < lines.len() implies line_fits(#[trigger] lines[i]) by {
            if i > 0 {
                assert(lines[i] == tail[i - 1]);
            }
        }
    }
}

proof fn lemma_p_lines_complete(lines: Seq<LineView>, rest: Seq<u8>)
    requires
        lines_fit(lines),
    ensures
        p_lines(lines_bytes(lines) + rest, lines.len()) == Some((lines, rest)),
    decreases lines.len(),
{
    if lines.len() == 0 {
        assert(lines =~= Seq::<LineView>::empty());
        assert(lines_bytes(lines) + rest =~= rest);
    } else {
        let tail = lines.drop_first();
        assert forall|i: int| 0 <= i < tail.len() implies line_fits(#[trigger] tail[i]) by {
            assert(tail[i] == lines[i + 1]);
        }
        lemma_cat(line_bytes(lines[0]), lines_bytes(tail), rest);
        lemma_p_line_complete(lines[0], lines_bytes(tail) + rest);
        lemma_p_lines_complete(tail, rest);
        assert(seq![lines[0]] + tail =~= lines);
    }
}

/// A line takes at least `LINE_MIN_BYTES`.
proof fn lemma_line_len(l: LineView)
    ensures
        line_bytes(l).len() == 17 + encode_utf8(l.text).len(),
{
    lemma_le_len(encode_utf8(l.text).len(), 8);
    lemma_le_len(lineno_value(l.old_lineno), 4);
    lemma_le_len(lineno_value(l.new_lineno), 4);
}

spec fn p_flag(b: Seq<u8>) -> Option<(u8, Seq<u8>)> {
    if b.len() == 0 {
        None
    } else {
        Some((b[0], b.skip(1)))
    }
}

/// The paths of a file.
spec fn p_paths(b: Seq<u8>) -> Option<
    ((Seq<char>, Option<Seq<char>>, Seq<u8>, Option<Seq<u8>>), Seq<u8>),
> {
    match p_text(b) {
        Some((path, b1)) => match p_opt_text(b1) {
            Some((old_path, b2)) => match p_run(b2) {
                Some((path_bytes, b3)) => match p_opt_run(b3) {
                    Some((old_path_bytes, b4)) => Some(
                        ((path, old_path, path_bytes, old_path_bytes), b4),
                    ),
                    None => None,
                },
                None => None,
            },
            None => None,
        },
        None => None,
    }
}

/// What follows the paths of a file.
spec fn p_counts(b: Seq<u8>) -> Option<((Delta, u8, nat, nat, Option<nat>), Seq<u8>)> {
    match p_delta(b) {
        Some((status, b1)) => match p_flag(b1) {
            Some((flag, b2)) => match p_size(b2) {
                Some((additions, b3)) => match p_size(b3) {
                    Some((deletions, b4)) => match p_index(b4) {
                        Some((idx, b5)) => Some(((status, flag, additions, deletions, idx), b5)),
                        None => None,
                    },
                    None => None,
                },
                None => None,
            },
            None => None,
        },
        None => None,
    }
}

/// A file, and the byte that marks it.
#[verifier::opaque]
spec fn p_file(b: Seq<u8>) -> Option<((FileView, u8), Seq<u8>)> {
    match p_paths(b) {
        Some(((path, old_path, path_bytes, old_path_bytes), b1)) => match p_counts(b1) {
            Some(((status, flag, additions, deletions, diff_line_idx), b2)) => Some(
                (
                    (
                        FileView {
                            path,
                            old_path,
                            path_bytes,
                            old_path_bytes,
                            status,
                            is_binary: flag != 0,
                            additions,
                            deletions,
                            diff_line_idx,
                        },
                        flag,
                    ),
                    b2,
                ),
            ),
            None => None,
        },
        None => None,
    }
}

spec fn p_files(b: Seq<u8>, n: nat) -> Option<((Seq<FileView>, Seq<u8>), Seq<u8>)>
    decreases n,
{
    if n == 0 {
        Some(((Seq::empty(), Seq::empty()), b))
    } else {
        match p_file(b) {
            Some(((file, flag), b1)) => match p_files(b1, (n - 1) as nat) {
                Some(((files, flags), b2)) => Some(((seq![file] + files, seq![flag] + flags), b2)),
                None => None,
            },
            None => None,
        }
    }
}

proof fn lemma_p_size(b: Seq<u8>, n: nat, rest: Seq<u8>)
    ensures
        p_size(b) == Some((n, rest)) ==> b == le(n, 8) + rest && n <= usize::MAX,
        b == le(n, 8) + rest && n <= usize::MAX ==> p_size(b) == Some((n, rest)),
{
    lemma_widths();
    lemma_p_num(b, 8, n, rest);
}

proof fn lemma_p_index(b: Seq<u8>, idx: Option<nat>, rest: Seq<u8>)
    ensures
        p_index(b) == Some((idx, rest)) ==> b == le(index_value(idx), 8) + rest && (idx matches Some(
            n,
        ) ==> n <= usize::MAX && n < u64::MAX),
        b == le(index_value(idx), 8) + rest && (idx matches Some(n) ==> n <= usize::MAX && n
            < u64::MAX) ==> p_index(b) == Some((idx, rest)),
{
    lemma_widths();
    lemma_p_num(b, 8, index_value(idx), rest);
    if p_index(b) == Some((idx, rest)) {
        let n = (p_num(b, 8)->0).0;
        assert(n == index_value(idx));
    }
}

proof fn lemma_p_flag(b: Seq<u8>, flag: u8, rest: Seq<u8>)
    ensures
        p_flag(b) == Some((flag, rest)) <==> b == seq![flag] + rest,
{
    if p_flag(b) == Some((flag, rest)) {
        assert(b =~= seq![flag] + rest);
    }
    if b == seq![flag] + rest {
        assert(b.skip(1) =~= rest);
    }
}

/// The bytes of a file's paths, then `rest`.
spec fn paths_then(f: FileView, rest: Seq<u8>) -> Seq<u8> {
    run_bytes(encode_utf8(f.path)) + (opt_run_bytes(opt_utf8(f.old_path)) + (run_bytes(f.path_bytes)
        + (opt_run_bytes(f.old_path_bytes) + rest)))
}

/// The bytes of what follows a file's paths, then `rest`.
spec fn counts_then(f: FileView, flag: u8, rest: Seq<u8>) -> Seq<u8> {
    seq![delta_byte(f.status)] + (seq![flag] + (le(f.additions, 8) + (le(f.deletions, 8) + (le(
        index_value(f.diff_line_idx),
        8,
    ) + rest))))
}

proof fn lemma_file_split(f: FileView, flag: u8, rest: Seq<u8>)
    ensures
        file_bytes(f, flag) + rest == paths_then(f, counts_then(f, flag, rest)),
{
    let a = run_bytes(encode_utf8(f.path));
    let b = opt_run_bytes(opt_utf8(f.old_path));
    let c = run_bytes(f.path_bytes);
    let d = opt_run_bytes(f.old_path_bytes);
    let e = seq![delta_byte(f.status), flag];
    let g = le(f.additions, 8);
    let h = le(f.deletions, 8);
    let i = le(index_value(f.diff_line_idx), 8);
    lemma_cat(a, b + (c + (d + (e + (g + (h + i))))), rest);
    lemma_cat(b, c + (d + (e + (g + (h + i)))), rest);
    lemma_cat(c, d + (e + (g + (h + i))), rest);
    lemma_cat(d, e + (g + (h + i)), rest);
    lemma_cat(e, g + (h + i), rest);
    lemma_cat(g, h + i, rest);
    lemma_cat(h, i, rest);
    assert(e =~= seq![delta_byte(f.status)] + seq![flag]);
    lemma_cat(seq![delta_byte(f.status)], seq![flag], g + (h + (i + rest)));
}

proof fn lemma_p_paths_sound(b: Seq<u8>, f: FileView, rest: Seq<u8>)
    requires
        p_paths(b) == Some(((f.path, f.old_path, f.path_bytes, f.old_path_bytes), rest)),
        b.len() <= usize::MAX,
    ensures
        b == paths_then(f, rest),
        utf8_fits(f.path),
        f.old_path matches Some(s) ==> utf8_fits(s),
        f.path_bytes.len() <= usize::MAX,
        f.old_path_bytes matches Some(x) ==> x.len() <= usize::MAX,
        rest.len() <= b.len(),
{
    let b1 = (p_text(b)->0).1;
    let b2 = (p_opt_text(b1)->0).1;
    let b3 = (p_run(b2)->0).1;
    lemma_p_text(b, f.path, b1);
    lemma_p_opt_text(b1, f.old_path, b2);
    lemma_p_run(b2, f.path_bytes, b3);
    lemma_p_opt_run(b3, f.old_path_bytes, rest);
}

proof fn lemma_p_paths_complete(f: FileView, rest: Seq<u8>)
    requires
        file_fits(f),
    ensures
        p_paths(paths_then(f, rest)) == Some(
            ((f.path, f.old_path, f.path_bytes, f.old_path_bytes), rest),
        ),
{
    let b3 = opt_run_bytes(f.old_path_bytes) + rest;
    let b2 = run_bytes(f.path_bytes) + b3;
    let b1 = opt_run_bytes(opt_utf8(f.old_path)) + b2;
    let b = run_bytes(encode_utf8(f.path)) + b1;
    lemma_p_text(b, f.path, b1);
    lemma_p_opt_text(b1, f.old_path, b2);
    lemma_p_run(b2, f.path_bytes, b3);
    lemma_p_opt_run(b3, f.old_path_bytes, rest);
}

proof fn lemma_p_counts_sound(b: Seq<u8>, f: FileView, flag: u8, rest: Seq<u8>)
    requires
        p_counts(b) == Some(
            ((f.status, flag, f.additions, f.deletions, f.diff_line_idx), rest),
        ),
    ensures
        b == counts_then(f, flag, rest),
        f.additions <= usize::MAX,
        f.deletions <= usize::MAX,
        f.diff_line_idx matches Some(n) ==> n <= usize::MAX && n < u64::MAX,
{
    let b1 = (p_delta(b)->0).1;
    let b2 = (p_flag(b1)->0).1;
    let b3 = (p_size(b2)->0).1;
    let b4 = (p_size(b3)->0).1;
    lemma_p_delta(b, f.status, b1);
    lemma_p_flag(b1, flag, b2);
    lemma_p_size(b2, f.additions, b3);
    lemma_p_size(b3, f.deletions, b4);
    lemma_p_index(b4, f.diff_line_idx, rest);
}

proof fn lemma_p_counts_complete(f: FileView, flag: u8, rest: Seq<u8>)
    requires
        file_fits(f),
    ensures
        p_counts(counts_then(f, flag, rest)) == Some(
            ((f.status, flag, f.additions, f.deletions, f.diff_line_idx), rest),
        ),
{
    let b4 = le(index_value(f.diff_line_idx), 8) + rest;
    let b3 = le(f.deletions, 8) + b4;
    let b2 = le(f.additions, 8) + b3;
    let b1 = seq![flag] + b2;
    let b = seq![delta_byte(f.status)] + b1;
    lemma_p_delta(b, f.status, b1);
    lemma_p_flag(b1, flag, b2);
    lemma_p_size(b2, f.additions, b3);
    lemma_p_size(b3, f.deletions, b4);
    lemma_p_index(b4, f.diff_line_idx, rest);
}

/// A file takes at least `FILE_MIN_BYTES`.
proof fn lemma_file_len(f: FileView, flag: u8)
    ensures
        44 <= file_bytes(f, flag).len(),
{
    lemma_le_len(encode_utf8(f.path).len(), 8);
    lemma_le_len(f.path_bytes.len(), 8);
    lemma_le_len(f.additions, 8);
    lemma_le_len(f.deletions, 8);
    lemma_le_len(index_value(f.diff_line_idx), 8);
}

/// Whether all files fit.
spec fn files_fit(files: Seq<FileView>) -> bool {
    forall|i: int| 0 <= i < files.len() ==> file_fits(#[trigger] files[i])
}

proof fn lemma_p_file_sound(b: Seq<u8>, f: FileView, flag: u8, rest: Seq<u8>)
    requires
        p_file(b) == Some(((f, flag), rest)),
        b.len() <= usize::MAX,
    ensures
        b == file_bytes(f, flag) + rest,
        file_fits(f),
        (flag != 0) == f.is_binary,
{
    reveal(p_file);
    let b1 = (p_paths(b)->0).1;
    lemma_p_paths_sound(b, f, b1);
    lemma_p_counts_sound(b1, f, flag, rest);
    lemma_file_split(f, flag, rest);
}

proof fn lemma_p_file_complete(f: FileView, flag: u8, rest: Seq<u8>)
    requires
        file_fits(f),
        (flag != 0) == f.is_binary,
    ensures
        p_file(file_bytes(f, flag) + rest) == Some(((f, flag), rest)),
{
    reveal(p_file);
    lemma_file_split(f, flag, rest);
    lemma_p_paths_complete(f, counts_then(f, flag, rest));
    lemma_p_counts_complete(f, flag, rest);
}

proof fn lemma_p_files_sound(
    b: Seq<u8>,
    n: nat,
    files: Seq<FileView>,
    flags: Seq<u8>,
    rest: Seq<u8>,
)
    requires
        p_files(b, n) == Some(((files, flags), rest)),
        b.len() <= usize::MAX,
    ensures
        b == files_bytes(files, flags) + rest,
        files.len() == n,
        44 * n <= b.len(),
        files_fit(files),
        marks(flags, files),
    decreases n,
{
    if n == 0 {
        assert(files_bytes(files, flags) + rest =~= rest);
    } else {
        let ((file, flag), b1) = p_file(b)->0;
        let (tail, tail_flags) = (p_files(b1, (n - 1) as nat)->0).0;
        lemma_p_file_sound(b, file, flag, b1);
        lemma_file_len(file, flag);
        lemma_p_files_sound(b1, (n - 1) as nat, tail, tail_flags, rest);
        assert(files.drop_first() =~= tail);
        assert(flags.drop_first() =~= tail_flags);
        lemma_cat(file_bytes(file, flag), files_bytes(tail, tail_flags), rest);
        assert forall|i: int| 0 <= i < files.len() implies file_fits(#[trigger] files[i]) by {
            if i > 0 {
                assert(files[i] == tail[i - 1]);
            }
        }
        assert forall|i: int| 0 <= i < files.len() implies (#[trigger] flags[i] != 0)
            == files[i].is_binary by {
            if i > 0 {
                assert(files[i] == tail[i - 1]);
                assert(flags[i] == tail_flags[i - 1]);
            }
        }
    }
}

proof fn lemma_p_files_complete(files: Seq<FileView>, flags: Seq<u8>, rest: Seq<u8>)
    requires
        files_fit(files),
        marks(flags, files),
    ensures
        p_files(files_bytes(files, flags) + rest, files.len()) == Some(((files, flags), rest)),
    decreases files.len(),
{
    if files.len() == 0 {
        assert(files =~= Seq::<FileView>::empty());
        assert(flags =~= Seq::<u8>::empty());
        assert(files_bytes(files, flags) + rest =~= rest);
    } else {
        let tail = files.drop_first();
        let tail_flags = flags.drop_first();
        assert forall|i: int| 0 <= i < tail.len() implies file_fits(#[trigger] tail[i]) by {
            assert(tail[i] == files[i + 1]);
        }
        assert forall|i: int| 0 <= i < tail.len() implies (#[trigger] tail_flags[i] != 0)
            == tail[i].is_binary by {
            assert(tail_flags[i] == flags[i + 1]);
        }
        assert((flags[0] != 0) == files[0].is_binary);
        lemma_cat(file_bytes(files[0], flags[0]), files_bytes(tail, tail_flags), rest);
        lemma_p_file_complete(files[0], flags[0], files_bytes(tail, tail_flags) + rest);
        lemma_p_files_complete(tail, tail_flags, rest);
        assert(seq![files[0]] + tail =~= files);
        assert(seq![flags[0]] + tail_flags =~= flags);
    }
}

/// A whole diff, with nothing left.
spec fn p_data(b: Seq<u8>) -> Option<DataView> {
    if b.len() < 8 || b.take(8) != MAGIC@ {
        None
    } else {
        match p_num(b.skip(8), 2) {
            Some((version, b1)) => if version != VERSION {
                None
            } else {
                match p_size(b1) {
                    Some((max_chars, b2)) => match p_num(b2, 8) {
                        Some((n_lines, b3)) => match p_lines(b3, n_lines) {
                            Some((lines, b4)) => match p_num(b4, 8) {
                                Some((n_files, b5)) => match p_files(b5, n_files) {
                                    Some(((files, flags), b6)) => if b6.len() == 0 {
                                        Some(DataView { lines, files, max_chars })
                                    } else {
                                        None
                                    },
                                    None => None,
                                },
                                None => None,
                            },
                            None => None,
                        },
                        None => None,
                    },
                    None => None,
                }
            },
            None => None,
        }
    }
}

proof fn lemma_p_data_sound(b: Seq<u8>, d: DataView)
    requires
        p_data(b) == Some(d),
        b.len() <= usize::MAX,
    ensures
        spells(b, d),
        fits(d),
{
    lemma_widths();
    let b0 = b.skip(8);
    let b1 = (p_num(b0, 2)->0).1;
    let b2 = (p_size(b1)->0).1;
    let (n_lines, b3) = p_num(b2, 8)->0;
    let b4 = (p_lines(b3, n_lines)->0).1;
    let (n_files, b5) = p_num(b4, 8)->0;
    let ((files, flags), b6) = p_files(b5, n_files)->0;
    assert(b =~= MAGIC@ + b0);
    lemma_p_num(b0, 2, VERSION as nat, b1);
    lemma_p_size(b1, d.max_chars, b2);
    lemma_p_num(b2, 8, n_lines, b3);
    lemma_p_lines_sound(b3, n_lines, d.lines, b4);
    lemma_p_num(b4, 8, n_files, b5);
    lemma_p_files_sound(b5, n_files, d.files, flags, b6);
    assert(files_bytes(d.files, flags) + b6 =~= files_bytes(d.files, flags));
    assert(b == flagged_bytes(d, flags));
}

proof fn lemma_p_data_complete(b: Seq<u8>, d: DataView)
    requires
        spells(b, d),
        fits(d),
    ensures
        p_data(b) == Some(d),
{
    lemma_widths();
    let flags = choose|flags: Seq<u8>| #[trigger]
        marks(flags, d.files) && b == flagged_bytes(d, flags);
    let b5 = files_bytes(d.files, flags);
    let b4 = le(d.files.len(), 8) + b5;
    let b3 = lines_bytes(d.lines) + b4;
    let b2 = le(d.lines.len(), 8) + b3;
    let b1 = le(d.max_chars, 8) + b2;
    let b0 = le(VERSION as nat, 2) + b1;
    assert(b == MAGIC@ + b0);
    assert(b.take(8) =~= MAGIC@);
    assert(b.skip(8) =~= b0);
    lemma_p_num(b0, 2, VERSION as nat, b1);
    lemma_p_size(b1, d.max_chars, b2);
    lemma_p_num(b2, 8, d.lines.len(), b3);
    lemma_p_lines_complete(d.lines, b4);
    lemma_p_num(b4, 8, d.files.len(), b5);
    assert(b5 + Seq::<u8>::empty() =~= b5);
    lemma_p_files_complete(d.files, flags, Seq::<u8>::empty());
}

/// Appends bytes behind their number.
pub fn put_bytes(out: &mut Vec<u8>, b: &[u8])
    ensures
        final(out)@ == old(out)@ + run_bytes(b@),
{
    let ghost before = out@;
    push_le(out, b.len() as u64, 8);
    out.extend_from_slice(b);
    assert(out@ =~= before + run_bytes(b@));
}

/// Appends optional bytes.
pub fn put_opt_bytes(out: &mut Vec<u8>, b: Option<&[u8]>)
    ensures
        final(out)@ == old(out)@ + opt_run_bytes(
            match b {
                Some(b) => Some(b@),
                None => None,
            },
        ),
{
    let ghost before = out@;
    match b {
        None => {
            out.push(0);
            assert(out@ =~= before + seq![0u8]);
        },
        Some(b) => {
            out.push(1);
            put_bytes(out, b);
            assert(out@ =~= before + (seq![1u8] + run_bytes(b@)));
        },
    }
}

fn put_line(out: &mut Vec<u8>, l: &DiffLine)
    ensures
        final(out)@ == old(out)@ + line_bytes(l@),
        line_fits(stored_line(l@)),
{
    let ghost before = out@;
    out.push(kind_tag(l.kind));
    let text = l.text.as_str().as_bytes();
    assert(text@.len() == text.len());
    put_bytes(out, text);
    let old_no: u32 = match l.old_lineno {
        Some(no) => no.get(),
        None => 0,
    };
    let new_no: u32 = match l.new_lineno {
        Some(no) => no.get(),
        None => 0,
    };
    push_le(out, old_no as u64, 4);
    push_le(out, new_no as u64, 4);
    assert(out@ =~= before + line_bytes(l@));
}

/// Appends the paths of a file.
fn put_paths(out: &mut Vec<u8>, f: &FileEntry)
    ensures
        forall|rest: Seq<u8>| #[trigger] (final(out)@ + rest) == old(out)@ + paths_then(f@, rest),
        utf8_fits(f@.path),
        f@.old_path matches Some(s) ==> utf8_fits(s),
{
    let ghost b0 = out@;
    let ghost v = f@;
    let path = f.path.as_str().as_bytes();
    assert(path@.len() == path.len());
    put_bytes(out, path);
    let ghost b1 = out@;
    match &f.old_path {
        Some(old) => {
            let old = old.as_str().as_bytes();
            assert(old@.len() == old.len());
            put_opt_bytes(out, Some(old))
        },
        None => put_opt_bytes(out, None),
    }
    let ghost b2 = out@;
    assert(b2 == b1 + opt_run_bytes(opt_utf8(v.old_path)));
    put_bytes(out, &f.path_bytes);
    let ghost b3 = out@;
    match &f.old_path_bytes {
        Some(old) => put_opt_bytes(out, Some(old.as_slice())),
        None => put_opt_bytes(out, None),
    }
    assert(out@ == b3 + opt_run_bytes(v.old_path_bytes));
    proof {
        assert forall|rest: Seq<u8>| #[trigger] (out@ + rest) == b0 + paths_then(v, rest) by {
            let r3 = opt_run_bytes(v.old_path_bytes) + rest;
            let r2 = run_bytes(v.path_bytes) + r3;
            let r1 = opt_run_bytes(opt_utf8(v.old_path)) + r2;
            lemma_cat(b3, opt_run_bytes(v.old_path_bytes), rest);
            lemma_cat(b2, run_bytes(v.path_bytes), r3);
            lemma_cat(b1, opt_run_bytes(opt_utf8(v.old_path)), r2);
            lemma_cat(b0, run_bytes(encode_utf8(v.path)), r1);
        }
    }
}

/// Appends what follows the paths of a file.
fn put_counts(out: &mut Vec<u8>, f: &FileEntry)
    requires
        f.diff_line_idx matches Some(idx) ==> idx < u64::MAX,
    ensures
        final(out)@ == old(out)@ + counts_then(f@, flag_of(f@), Seq::empty()),
{
    let ghost before = out@;
    out.push(delta_tag(f.status));
    out.push(
        if f.is_binary {
            1
        } else {
            0
        },
    );
    push_le(out, f.additions as u64, 8);
    push_le(out, f.deletions as u64, 8);
    let idx: u64 = match f.diff_line_idx {
        Some(idx) => idx as u64 + 1,
        None => 0,
    };
    push_le(out, idx, 8);
    assert(out@ =~= before + counts_then(f@, flag_of(f@), Seq::empty()));
}

fn put_file(out: &mut Vec<u8>, f: &FileEntry)
    requires
        f.diff_line_idx matches Some(idx) ==> idx < u64::MAX,
    ensures
        final(out)@ == old(out)@ + file_bytes(f@, flag_of(f@)),
        file_fits(f@),
{
    put_paths(out, f);
    put_counts(out, f);
    proof {
        assert(f.path_bytes@.len() == f.path_bytes.len());
        if f.old_path_bytes is Some {
            assert(f.old_path_bytes->0@.len() == f.old_path_bytes->0.len());
        }
        let none = Seq::<u8>::empty();
        lemma_file_split(f@, flag_of(f@), none);
        assert(file_bytes(f@, flag_of(f@)) + none =~= file_bytes(f@, flag_of(f@)));
    }
}

proof fn lemma_lines_bytes_push(lines: Seq<LineView>, i: int)
    requires
        0 <= i < lines.len(),
    ensures
        lines_bytes(lines.take(i + 1)) == lines_bytes(lines.take(i)) + line_bytes(lines[i]),
    decreases i,
{
    reveal_with_fuel(lines_bytes, 2);
    if i == 0 {
        assert(lines.take(1).drop_first() =~= Seq::<LineView>::empty());
        assert(lines_bytes(lines.take(1)) =~= lines_bytes(lines.take(0)) + line_bytes(lines[0]));
    } else {
        let tail = lines.drop_first();
        lemma_lines_bytes_push(tail, i - 1);
        assert(lines.take(i + 1).drop_first() =~= tail.take(i));
        assert(lines.take(i).drop_first() =~= tail.take(i - 1));
        lemma_cat(line_bytes(lines[0]), lines_bytes(tail.take(i - 1)), line_bytes(lines[i]));
    }
}

proof fn lemma_files_bytes_push(files: Seq<FileView>, flags: Seq<u8>, i: int)
    requires
        0 <= i < files.len(),
        flags.len() == files.len(),
    ensures
        files_bytes(files.take(i + 1), flags.take(i + 1)) == files_bytes(files.take(i), flags.take(i))
            + file_bytes(files[i], flags[i]),
    decreases i,
{
    reveal_with_fuel(files_bytes, 2);
    if i == 0 {
        assert(files.take(1).drop_first() =~= Seq::<FileView>::empty());
        assert(files_bytes(files.take(1), flags.take(1)) =~= files_bytes(
            files.take(0),
            flags.take(0),
        ) + file_bytes(files[0], flags[0]));
    } else {
        let tail = files.drop_first();
        let tail_flags = flags.drop_first();
        lemma_files_bytes_push(tail, tail_flags, i - 1);
        assert(files.take(i + 1).drop_first() =~= tail.take(i));
        assert(files.take(i).drop_first() =~= tail.take(i - 1));
        assert(flags.take(i + 1).drop_first() =~= tail_flags.take(i));
        assert(flags.take(i).drop_first() =~= tail_flags.take(i - 1));
        lemma_cat(
            file_bytes(files[0], flags[0]),
            files_bytes(tail.take(i - 1), tail_flags.take(i - 1)),
            file_bytes(files[i], flags[i]),
        );
    }
}

/// The bytes of a diff, without its colours and changed words.
pub fn encode(data: &DiffData) -> (out: Vec<u8>)
    requires
        forall|i: int| #![trigger data.files@[i]]
            0 <= i < data.files@.len() ==> (data.files@[i].diff_line_idx matches Some(idx) ==> idx
                < u64::MAX),
    ensures
        out@ == data_bytes(data@),
        fits(stored(data@)),
{
    let ghost d = data@;
    let ghost flags = flags_of(d.files);
    let mut out: Vec<u8> = Vec::new();
    out.extend_from_slice(&MAGIC);
    push_le(&mut out, VERSION as u64, 2);
    push_le(&mut out, data.max_chars as u64, 8);
    push_le(&mut out, data.lines.len() as u64, 8);
    let ghost head = out@;
    assert(head =~= MAGIC@ + (le(VERSION as nat, 2) + (le(d.max_chars, 8) + le(d.lines.len(), 8))));
    let mut i: usize = 0;
    assert(head + lines_bytes(d.lines.take(0)) =~= head);
    while i < data.lines.len()
        invariant
            i <= data.lines.len(),
            d == data@,
            out@ == head + lines_bytes(d.lines.take(i as int)),
            forall|j: int| 0 <= j < i ==> line_fits(stored_line(#[trigger] d.lines[j])),
        decreases data.lines.len() - i,
    {
        put_line(&mut out, &data.lines[i]);
        proof {
            lemma_lines_bytes_push(d.lines, i as int);
            lemma_cat(head, lines_bytes(d.lines.take(i as int)), line_bytes(d.lines[i as int]));
        }
        i += 1;
    }
    assert(d.lines.take(i as int) =~= d.lines);
    push_le(&mut out, data.files.len() as u64, 8);
    let ghost fore = out@;
    let mut k: usize = 0;
    assert(fore + files_bytes(d.files.take(0), flags.take(0)) =~= fore);
    while k < data.files.len()
        invariant
            k <= data.files.len(),
            d == data@,
            flags == flags_of(d.files),
            forall|i: int| #![trigger data.files@[i]]
                0 <= i < data.files@.len() ==> (data.files@[i].diff_line_idx matches Some(idx) ==> idx
                    < u64::MAX),
            out@ == fore + files_bytes(d.files.take(k as int), flags.take(k as int)),
            forall|j: int| 0 <= j < k ==> file_fits(#[trigger] d.files[j]),
        decreases data.files.len() - k,
    {
        put_file(&mut out, &data.files[k]);
        proof {
            lemma_files_bytes_push(d.files, flags, k as int);
            lemma_cat(
                fore,
                files_bytes(d.files.take(k as int), flags.take(k as int)),
                file_bytes(d.files[k as int], flags[k as int]),
            );
        }
        k += 1;
    }
    assert(d.files.take(k as int) =~= d.files);
    assert(flags.take(k as int) =~= flags);
    assert(out@ =~= data_bytes(d));
    out
}

/// Bytes that are read from the front. No read goes past the end.
pub struct Reader<'a> {
    b: &'a [u8],
    pos: usize,
}

impl<'a> Reader<'a> {
    /// Whether the next byte to read lies within the bytes, or behind the last.
    pub closed spec fn wf(self) -> bool {
        self.pos <= self.b@.len()
    }

    /// The bytes that are left.
    pub closed spec fn rest(self) -> Seq<u8> {
        self.b@.skip(self.pos as int)
    }

    /// Starts at the first byte.
    pub fn new(b: &'a [u8]) -> (r: Reader<'a>)
        ensures
            r.wf(),
            r.rest() == b@,
    {
        assert(b@.skip(0) =~= b@);
        Reader { b, pos: 0 }
    }

    /// Whether nothing is left.
    fn at_end(&self) -> (r: bool)
        requires
            self.wf(),
        ensures
            r == (self.rest().len() == 0),
    {
        self.pos == self.b.len()
    }

    /// The next `n` bytes; `None` where fewer are left.
    fn take(&mut self, n: usize) -> (s: Option<&'a [u8]>)
        requires
            old(self).wf(),
        ensures
            final(self).wf(),
            match s {
                Some(s) => n <= old(self).rest().len() && s@ == old(self).rest().take(n as int)
                    && final(self).rest() == old(self).rest().skip(n as int),
                None => n > old(self).rest().len() && final(self).rest() == old(self).rest(),
            },
            final(self).rest().len() <= usize::MAX,
    {
        let ghost before = self.rest();
        let b: &'a [u8] = self.b;
        if n > b.len() - self.pos {
            return None;
        }
        let end: usize = self.pos + n;
        let s: &'a [u8] = &b[self.pos..end];
        self.pos = end;
        assert(s@ =~= before.take(n as int));
        assert(self.rest() =~= before.skip(n as int));
        Some(s)
    }

    /// The next number of `width` bytes.
    fn number(&mut self, width: usize) -> (n: Option<u64>)
        requires
            old(self).wf(),
            width <= 8,
        ensures
            final(self).wf(),
            match n {
                Some(n) => p_num(old(self).rest(), width as nat) == Some(
                    (n as nat, final(self).rest()),
                ),
                None => p_num(old(self).rest(), width as nat) is None,
            },
    {
        match self.take(width) {
            Some(s) => {
                assert(s@.subrange(0, width as int) =~= s@);
                Some(read_le(s, 0, width))
            },
            None => None,
        }
    }

    /// The next byte.
    fn byte(&mut self) -> (t: Option<u8>)
        requires
            old(self).wf(),
        ensures
            final(self).wf(),
            match t {
                Some(t) => p_flag(old(self).rest()) == Some((t, final(self).rest())),
                None => p_flag(old(self).rest()) is None,
            },
    {
        match self.take(1) {
            Some(s) => Some(s[0]),
            None => None,
        }
    }

    /// The next number, as a size in memory.
    fn size(&mut self) -> (n: Option<usize>)
        requires
            old(self).wf(),
        ensures
            final(self).wf(),
            match n {
                Some(n) => p_size(old(self).rest()) == Some((n as nat, final(self).rest())),
                None => p_size(old(self).rest()) is None,
            },
    {
        match self.number(8) {
            Some(n) => if n <= usize::MAX as u64 {
                Some(n as usize)
            } else {
                None
            },
            None => None,
        }
    }

    /// The next line number.
    fn lineno(&mut self) -> (no: Option<Option<LineNo>>)
        requires
            old(self).wf(),
        ensures
            final(self).wf(),
            match no {
                Some(no) => p_lineno(old(self).rest()) == Some(
                    (lineno_view(no), final(self).rest()),
                ),
                None => p_lineno(old(self).rest()) is None,
            },
    {
        match self.number(4) {
            Some(n) => {
                proof {
                    lemma_widths();
                    lemma_p_num(old(self).rest(), 4, n as nat, self.rest());
                }
                Some(LineNo::new(n as u32))
            },
            None => None,
        }
    }

    /// The next index.
    fn index(&mut self) -> (idx: Option<Option<usize>>)
        requires
            old(self).wf(),
        ensures
            final(self).wf(),
            match idx {
                Some(Some(idx)) => p_index(old(self).rest()) == Some(
                    (Some(idx as nat), final(self).rest()),
                ),
                Some(None) => p_index(old(self).rest()) == Some(
                    (None::<nat>, final(self).rest()),
                ),
                None => p_index(old(self).rest()) is None,
            },
    {
        match self.number(8) {
            Some(0) => Some(None),
            Some(n) => if n - 1 <= usize::MAX as u64 {
                Some(Some((n - 1) as usize))
            } else {
                None
            },
            None => None,
        }
    }

    /// The next bytes that stand behind their number.
    fn bytes(&mut self) -> (s: Option<&'a [u8]>)
        requires
            old(self).wf(),
        ensures
            final(self).wf(),
            match s {
                Some(s) => p_run(old(self).rest()) == Some((s@, final(self).rest())),
                None => p_run(old(self).rest()) is None,
            },
    {
        match self.number(8) {
            Some(n) => if n <= usize::MAX as u64 {
                self.take(n as usize)
            } else {
                proof {
                    lemma_rest_len(self);
                }
                None
            },
            None => None,
        }
    }

    /// The next text.
    fn string(&mut self) -> (s: Option<String>)
        requires
            old(self).wf(),
        ensures
            final(self).wf(),
            match s {
                Some(s) => p_text(old(self).rest()) == Some((s@, final(self).rest())),
                None => p_text(old(self).rest()) is None,
            },
    {
        match self.bytes() {
            Some(b) => text_from_utf8(b),
            None => None,
        }
    }

    /// The next optional bytes; `None` where they cannot be read.
    fn opt_bytes(&mut self) -> (s: Option<Option<Vec<u8>>>)
        requires
            old(self).wf(),
        ensures
            final(self).wf(),
            match s {
                Some(Some(x)) => p_opt_run(old(self).rest()) == Some(
                    (Some(x@), final(self).rest()),
                ),
                Some(None) => p_opt_run(old(self).rest()) == Some(
                    (None::<Seq<u8>>, final(self).rest()),
                ),
                None => p_opt_run(old(self).rest()) is None,
            },
    {
        match self.byte() {
            Some(0) => Some(None),
            Some(1) => match self.bytes() {
                Some(b) => {
                    let mut v: Vec<u8> = Vec::new();
                    v.extend_from_slice(b);
                    assert(v@ =~= b@);
                    Some(Some(v))
                },
                None => None,
            },
            _ => None,
        }
    }

    /// The next optional text; `None` where it cannot be read.
    fn opt_string(&mut self) -> (s: Option<Option<String>>)
        requires
            old(self).wf(),
        ensures
            final(self).wf(),
            match s {
                Some(Some(x)) => p_opt_text(old(self).rest()) == Some(
                    (Some(x@), final(self).rest()),
                ),
                Some(None) => p_opt_text(old(self).rest()) == Some(
                    (None::<Seq<char>>, final(self).rest()),
                ),
                None => p_opt_text(old(self).rest()) is None,
            },
    {
        match self.opt_bytes() {
            Some(Some(b)) => match text_from_utf8(&b) {
                Some(s) => Some(Some(s)),
                None => None,
            },
            Some(None) => Some(None),
            None => None,
        }
    }

    /// The next number, as a count of elements that take at least `min_elem` bytes each; `None`
    /// where the bytes left cannot hold so many.
    pub fn count(&mut self, min_elem: usize) -> (n: Option<usize>)
        requires
            old(self).wf(),
            min_elem > 0,
        ensures
            final(self).wf(),
            match n {
                Some(n) => {
                    &&& old(self).rest().len() >= 8
                    &&& n == le_value(old(self).rest().take(8))
                    &&& final(self).rest() == old(self).rest().skip(8)
                    &&& n <= final(self).rest().len() / min_elem as nat
                },
                None => old(self).rest().len() < 8 || le_value(old(self).rest().take(8)) > (old(
                    self,
                ).rest().len() - 8) / min_elem as int,
            },
    {
        match self.number(8) {
            Some(n) => {
                let left: usize = self.b.len() - self.pos;
                assert(self.rest().len() == left);
                if n <= (left / min_elem) as u64 {
                    Some(n as usize)
                } else {
                    None
                }
            },
            None => None,
        }
    }
}

proof fn lemma_rest_len(r: &Reader)
    requires
        r.wf(),
    ensures
        r.rest().len() <= usize::MAX,
{
    assert(r.b@.len() == r.b.len());
}

/// The next line.
fn read_line(r: &mut Reader) -> (line: Option<DiffLine>)
    requires
        old(r).wf(),
    ensures
        final(r).wf(),
        match line {
            Some(line) => p_line(old(r).rest()) == Some((line@, final(r).rest())),
            None => p_line(old(r).rest()) is None,
        },
{
    proof {
        reveal(p_line);
    }
    let kind = match r.byte() {
        Some(t) => match kind_from_tag(t) {
            Some(kind) => kind,
            None => return None,
        },
        None => return None,
    };
    proof {
        lemma_p_kind(old(r).rest(), kind, r.rest());
        lemma_p_flag(old(r).rest(), kind_byte(kind), r.rest());
    }
    let text = match r.string() {
        Some(text) => text,
        None => return None,
    };
    let old_lineno = match r.lineno() {
        Some(no) => no,
        None => return None,
    };
    let new_lineno = match r.lineno() {
        Some(no) => no,
        None => return None,
    };
    Some(
        DiffLine {
            text: Arc::new(text),
            kind,
            spans: None,
            emphasis: None,
            old_lineno,
            new_lineno,
        },
    )
}

/// The next file, and the byte that marks it.
fn read_file(r: &mut Reader) -> (file: Option<(FileEntry, u8)>)
    requires
        old(r).wf(),
    ensures
        final(r).wf(),
        match file {
            Some((file, flag)) => p_file(old(r).rest()) == Some(((file@, flag), final(r).rest())),
            None => p_file(old(r).rest()) is None,
        },
{
    proof {
        reveal(p_file);
    }
    let path = match r.string() {
        Some(path) => path,
        None => return None,
    };
    let old_path = match r.opt_string() {
        Some(path) => path,
        None => return None,
    };
    let mut path_bytes: Vec<u8> = Vec::new();
    match r.bytes() {
        Some(b) => {
            path_bytes.extend_from_slice(b);
            assert(path_bytes@ =~= b@);
        },
        None => return None,
    }
    let old_path_bytes = match r.opt_bytes() {
        Some(path) => path,
        None => return None,
    };
    let ghost mid = r.rest();
    let status = match r.byte() {
        Some(t) => match delta_from_tag(t) {
            Some(status) => status,
            None => return None,
        },
        None => return None,
    };
    proof {
        lemma_p_delta(mid, status, r.rest());
        lemma_p_flag(mid, delta_byte(status), r.rest());
    }
    let flag: u8 = match r.byte() {
        Some(flag) => flag,
        None => return None,
    };
    let additions: usize = match r.size() {
        Some(n) => n,
        None => return None,
    };
    let deletions: usize = match r.size() {
        Some(n) => n,
        None => return None,
    };
    let diff_line_idx = match r.index() {
        Some(idx) => idx,
        None => return None,
    };
    let file = FileEntry {
        path,
        old_path,
        path_bytes,
        old_path_bytes,
        status,
        is_binary: flag != 0,
        additions,
        deletions,
        diff_line_idx,
    };
    Some((file, flag))
}

/// The next `n` lines.
fn read_lines(r: &mut Reader, n: usize) -> (lines: Option<Vec<DiffLine>>)
    requires
        old(r).wf(),
    ensures
        final(r).wf(),
        match lines {
            Some(lines) => p_lines(old(r).rest(), n as nat) == Some(
                (line_views(lines@), final(r).rest()),
            ),
            None => p_lines(old(r).rest(), n as nat) is None,
        },
{
    let ghost all = p_lines(r.rest(), n as nat);
    let mut lines: Vec<DiffLine> = Vec::with_capacity(n);
    let mut i: usize = 0;
    proof {
        if all is Some {
            assert(line_views(lines@) + (all->0).0 =~= (all->0).0);
        }
    }
    while i < n
        invariant
            r.wf(),
            i <= n,
            all == p_lines(old(r).rest(), n as nat),
            match p_lines(r.rest(), (n - i) as nat) {
                Some((more, left)) => all == Some((line_views(lines@) + more, left)),
                None => all is None,
            },
        decreases n - i,
    {
        let ghost before = line_views(lines@);
        let line = match read_line(r) {
            Some(line) => line,
            None => return None,
        };
        let ghost v = line@;
        lines.push(line);
        i += 1;
        proof {
            assert(line_views(lines@) =~= before.push(v));
            match p_lines(r.rest(), (n - i) as nat) {
                Some((more, left)) => {
                    assert(before + (seq![v] + more) =~= line_views(lines@) + more);
                },
                None => {},
            }
        }
    }
    assert(line_views(lines@) + Seq::<LineView>::empty() =~= line_views(lines@));
    Some(lines)
}

/// The next `n` files.
fn read_files(r: &mut Reader, n: usize) -> (files: Option<Vec<FileEntry>>)
    requires
        old(r).wf(),
    ensures
        final(r).wf(),
        match files {
            Some(files) => p_files(old(r).rest(), n as nat) matches Some(((all, flags), left))
                && all == file_views(files@) && left == final(r).rest(),
            None => p_files(old(r).rest(), n as nat) is None,
        },
{
    let ghost all = p_files(r.rest(), n as nat);
    let mut files: Vec<FileEntry> = Vec::with_capacity(n);
    let ghost mut flags: Seq<u8> = Seq::empty();
    let mut i: usize = 0;
    proof {
        if all is Some {
            let (fs, gs) = (all->0).0;
            assert(file_views(files@) + fs =~= fs);
            assert(flags + gs =~= gs);
        }
    }
    while i < n
        invariant
            r.wf(),
            i <= n,
            all == p_files(old(r).rest(), n as nat),
            match p_files(r.rest(), (n - i) as nat) {
                Some(((more, marks), left)) => all == Some(
                    ((file_views(files@) + more, flags + marks), left),
                ),
                None => all is None,
            },
        decreases n - i,
    {
        let ghost before = file_views(files@);
        let ghost flags_before = flags;
        let (file, flag) = match read_file(r) {
            Some(read) => read,
            None => return None,
        };
        let ghost v = file@;
        files.push(file);
        i += 1;
        proof {
            flags = flags.push(flag);
            assert(file_views(files@) =~= before.push(v));
            match p_files(r.rest(), (n - i) as nat) {
                Some(((more, marks), left)) => {
                    assert(before + (seq![v] + more) =~= file_views(files@) + more);
                    assert(flags_before + (seq![flag] + marks) =~= flags + marks);
                },
                None => {},
            }
        }
    }
    assert(file_views(files@) + Seq::<FileView>::empty() =~= file_views(files@));
    Some(files)
}

/// The diff that the bytes hold, without colours and changed words; `None` for bytes that are those
/// of no diff.
pub fn decode(bytes: &[u8]) -> (data: Option<DiffData>)
    ensures
        match data {
            Some(data) => spells(bytes@, data@) && fits(data@),
            None => forall|d: DataView| !(#[trigger] spells(bytes@, d) && fits(d)),
        },
{
    let data = read_data(bytes);
    proof {
        assert(bytes@.len() == bytes.len());
        match &data {
            Some(data) => lemma_p_data_sound(bytes@, data@),
            None => {
                assert forall|d: DataView| !(#[trigger] spells(bytes@, d) && fits(d)) by {
                    if spells(bytes@, d) && fits(d) {
                        lemma_p_data_complete(bytes@, d);
                    }
                }
            },
        }
    }
    data
}

/// The diff that the bytes hold.
fn read_data(bytes: &[u8]) -> (data: Option<DiffData>)
    ensures
        match data {
            Some(data) => p_data(bytes@) == Some(data@),
            None => p_data(bytes@) is None,
        },
{
    let mut r = Reader::new(bytes);
    match r.take(8) {
        Some(magic) => {
            let mut i: usize = 0;
            while i < 8
                invariant
                    i <= 8,
                    magic@.len() == 8,
                    magic@ == bytes@.take(8),
                    bytes@.len() >= 8,
                    magic@.take(i as int) == MAGIC@.take(i as int),
                decreases 8 - i,
            {
                if magic[i] != MAGIC[i] {
                    return None;
                }
                i += 1;
                assert(magic@.take(i as int) =~= magic@.take(i - 1).push(magic@[i - 1]));
                assert(MAGIC@.take(i as int) =~= MAGIC@.take(i - 1).push(MAGIC@[i - 1]));
            }
            assert(magic@ =~= magic@.take(8));
            assert(MAGIC@ =~= MAGIC@.take(8));
        },
        None => return None,
    }
    match r.number(2) {
        Some(version) => if version != VERSION as u64 {
            return None;
        },
        None => return None,
    }
    let max_chars: usize = match r.size() {
        Some(n) => n,
        None => return None,
    };
    let ghost b2 = r.rest();
    proof {
        lemma_rest_len(&r);
    }
    let n_lines: usize = match r.count(LINE_MIN_BYTES) {
        Some(n) => n,
        None => {
            proof {
                lemma_too_many_lines(b2);
            }
            return None;
        },
    };
    let lines = match read_lines(&mut r, n_lines) {
        Some(lines) => lines,
        None => return None,
    };
    let ghost b4 = r.rest();
    proof {
        lemma_rest_len(&r);
    }
    let n_files: usize = match r.count(FILE_MIN_BYTES) {
        Some(n) => n,
        None => {
            proof {
                lemma_too_many_files(b4);
            }
            return None;
        },
    };
    let files = match read_files(&mut r, n_files) {
        Some(files) => files,
        None => return None,
    };
    if r.at_end() {
        Some(DiffData::with_max_chars(lines, files, max_chars))
    } else {
        None
    }
}

/// Lines that the bytes left cannot hold cannot be read.
proof fn lemma_too_many_lines(b: Seq<u8>)
    requires
        b.len() <= usize::MAX,
        b.len() < 8 || le_value(b.take(8)) > (b.len() - 8) / 17,
    ensures
        p_num(b, 8) matches Some((n, rest)) ==> p_lines(rest, n) is None,
{
    if b.len() >= 8 {
        let (n, rest) = p_num(b, 8)->0;
        if p_lines(rest, n) is Some {
            let (lines, left) = p_lines(rest, n)->0;
            lemma_p_lines_sound(rest, n, lines, left);
        }
    }
}

/// Files that the bytes left cannot hold cannot be read.
proof fn lemma_too_many_files(b: Seq<u8>)
    requires
        b.len() <= usize::MAX,
        b.len() < 8 || le_value(b.take(8)) > (b.len() - 8) / 44,
    ensures
        p_num(b, 8) matches Some((n, rest)) ==> p_files(rest, n) is None,
{
    if b.len() >= 8 {
        let (n, rest) = p_num(b, 8)->0;
        if p_files(rest, n) is Some {
            let ((files, flags), left) = p_files(rest, n)->0;
            lemma_p_files_sound(rest, n, files, flags, left);
        }
    }
}

/// Bytes are those of one diff at most.
pub proof fn law_bytes_spell_one_diff(bytes: Seq<u8>, d: DataView, e: DataView)
    requires
        spells(bytes, d),
        spells(bytes, e),
        fits(d),
        fits(e),
    ensures
        d == e,
{
    lemma_p_data_complete(bytes, d);
    lemma_p_data_complete(bytes, e);
}

/// The bytes written for a diff are read as that diff: no other reading of them is right, so that
/// `decode` gives back what `encode` was given.
pub proof fn law_encoding_round_trips(d: DataView)
    requires
        fits(d),
    ensures
        spells(data_bytes(d), d),
        forall|e: DataView| #[trigger] spells(data_bytes(d), e) && fits(e) ==> e == d,
{
    assert(marks(flags_of(d.files), d.files));
    assert forall|e: DataView| #[trigger] spells(data_bytes(d), e) && fits(e) implies e == d by {
        law_bytes_spell_one_diff(data_bytes(d), d, e);
    }
}

/// A diff keeps all but its colours and changed words: what is written for it is what is written
/// for the diff without them.
pub open spec fn stored(d: DataView) -> DataView {
    DataView { lines: d.lines.map_values(|l: LineView| stored_line(l)), ..d }
}

/// A line without its colours and changed words.
pub open spec fn stored_line(l: LineView) -> LineView {
    LineView { spans: None, emphasis: None, ..l }
}

/// What is written for a diff is read back as that diff without its colours and changed words, as
/// `encode` says that it fits.
pub proof fn law_encoded_diff_is_read_back(d: DataView, back: DataView)
    requires
        fits(stored(d)),
        fits(back),
        spells(data_bytes(d), back),
    ensures
        back == stored(d),
{
    law_colours_are_not_stored(d);
    law_encoding_round_trips(stored(d));
}

/// Colours and changed words leave no trace in the bytes.
pub proof fn law_colours_are_not_stored(d: DataView)
    ensures
        data_bytes(stored(d)) == data_bytes(d),
{
    lemma_stored_lines(d.lines);
}

proof fn lemma_stored_lines(lines: Seq<LineView>)
    ensures
        lines_bytes(lines.map_values(|l: LineView| stored_line(l))) == lines_bytes(lines),
    decreases lines.len(),
{
    let bare = lines.map_values(|l: LineView| stored_line(l));
    if lines.len() > 0 {
        lemma_stored_lines(lines.drop_first());
        assert(bare.drop_first() =~= lines.drop_first().map_values(|l: LineView| stored_line(l)));
        assert(line_bytes(bare[0]) == line_bytes(lines[0]));
    }
}

/// A proper prefix of the bytes of a diff is not the bytes of any diff.
pub proof fn law_truncated_bytes_spell_nothing(d: DataView, e: DataView, cut: int)
    requires
        fits(d),
        fits(e),
        0 <= cut < data_bytes(d).len(),
    ensures
        !spells(data_bytes(d).take(cut), e),
{
    let b = data_bytes(d);
    let short = b.take(cut);
    if spells(short, e) {
        let flags = choose|flags: Seq<u8>| #[trigger]
            marks(flags, e.files) && short == flagged_bytes(e, flags);
        lemma_prefix_free(e, flags, b, cut);
        assert(marks(flags_of(d.files), d.files));
        assert(spells(b, d));
        lemma_p_data_complete(b, d);
    }
}

/// The bytes of a diff with more behind them are not the bytes of any diff.
pub proof fn law_bytes_with_more_spell_nothing(b: Seq<u8>, d: DataView, e: DataView, more: Seq<u8>)
    requires
        spells(b, d),
        fits(d),
        fits(e),
        more.len() > 0,
    ensures
        !spells(b + more, e),
{
    let flags = choose|flags: Seq<u8>| #[trigger]
        marks(flags, d.files) && b == flagged_bytes(d, flags);
    assert((b + more).take(b.len() as int) =~= b);
    if spells(b + more, e) {
        lemma_prefix_free(d, flags, b + more, b.len() as int);
        lemma_p_data_complete(b + more, e);
    }
}

/// Bytes with another front, which tells the format and its version, are not the bytes of any diff.
pub proof fn law_another_front_spells_nothing(b: Seq<u8>, e: DataView)
    requires
        b.take(10) != MAGIC@ + le(VERSION as nat, 2),
    ensures
        !spells(b, e),
{
    lemma_le_len(VERSION as nat, 2);
    if spells(b, e) {
        let flags = choose|flags: Seq<u8>| #[trigger]
            marks(flags, e.files) && b == flagged_bytes(e, flags);
        assert(flagged_bytes(e, flags).take(10) =~= MAGIC@ + le(VERSION as nat, 2));
    }
}

/// Bytes behind those of a whole diff leave something over when read.
proof fn lemma_prefix_free(e: DataView, flags: Seq<u8>, b: Seq<u8>, cut: int)
    requires
        fits(e),
        marks(flags, e.files),
        0 <= cut < b.len(),
        b.take(cut) == flagged_bytes(e, flags),
    ensures
        p_data(b) is None,
{
    let over = b.skip(cut);
    assert(b =~= b.take(cut) + over);
    lemma_widths();
    let f = files_bytes(e.files, flags);
    let b5 = f + over;
    let b4 = le(e.files.len(), 8) + b5;
    let b3 = lines_bytes(e.lines) + b4;
    let b2 = le(e.lines.len(), 8) + b3;
    let b1 = le(e.max_chars, 8) + b2;
    let b0 = le(VERSION as nat, 2) + b1;
    assert(b == MAGIC@ + b0) by {
        let c4 = le(e.files.len(), 8) + f;
        let c3 = lines_bytes(e.lines) + c4;
        let c2 = le(e.lines.len(), 8) + c3;
        let c1 = le(e.max_chars, 8) + c2;
        let c0 = le(VERSION as nat, 2) + c1;
        lemma_cat(MAGIC@, c0, over);
        lemma_cat(le(VERSION as nat, 2), c1, over);
        lemma_cat(le(e.max_chars, 8), c2, over);
        lemma_cat(le(e.lines.len(), 8), c3, over);
        lemma_cat(lines_bytes(e.lines), c4, over);
        lemma_cat(le(e.files.len(), 8), f, over);
    }
    assert(b.take(8) =~= MAGIC@);
    assert(b.skip(8) =~= b0);
    lemma_p_num(b0, 2, VERSION as nat, b1);
    lemma_p_size(b1, e.max_chars, b2);
    lemma_p_num(b2, 8, e.lines.len(), b3);
    lemma_p_lines_complete(e.lines, b4);
    lemma_p_num(b4, 8, e.files.len(), b5);
    lemma_p_files_complete(e.files, flags, over);
}

/// Every kind of line and every fate of a file has a byte of its own.
pub proof fn law_tags_are_told_apart(k: LineKind, l: LineKind, d: Delta, e: Delta)
    ensures
        kind_byte(k) == kind_byte(l) ==> k == l,
        delta_byte(d) == delta_byte(e) ==> d == e,
{
}

/// Bytes behind their number are told apart from what follows them.
pub proof fn law_runs_are_told_apart(a: Seq<u8>, b: Seq<u8>, x: Seq<u8>, y: Seq<u8>)
    requires
        a.len() <= u64::MAX,
        b.len() <= u64::MAX,
        run_bytes(a) + x == run_bytes(b) + y,
    ensures
        a == b,
        x == y,
{
    lemma_p_run(run_bytes(a) + x, a, x);
    lemma_p_run(run_bytes(b) + y, b, y);
}

} // verus!
