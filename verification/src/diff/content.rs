//! What the diff pane shows for a row: the header, the change counts and the patch.

use std::collections::hash_map::DefaultHasher;
use std::hash::Hasher;
use vstd::prelude::*;
use vstd::std_specs::hash::DefaultHasherAdditionalSpecFns;
use vstd::string::*;
use vstd::utf8::encode_utf8;

use crate::bytes::{le, push_le};
use crate::chars::{lines, lines_from};
use crate::diff::data::{
    file_views, law_widest_bounds_every_line, widest, DataView, DiffData, DiffSettings, FileEntry,
    FileView,
};
use crate::diff::line::{is_change, line_views, plain_line, DiffLine, LineKind, LineView};
use crate::diff::patch::{
    append_diff_body, body_start, counts_fit, delta_path, delta_views, entry_of, knows,
    law_patch_is_counted, law_patch_lines_are_marked, patch_views, pieces_of, total_counts,
    with_patch, DeltaInfo, DeltaView, PatchLine, PatchView,
};
use crate::diff::row::{CommitStats, RangeEnds};
use crate::diff::time::{commit_time, format_commit_time};
use crate::diff_store::codec::{kind_byte, kind_tag};
use crate::oid::Oid;
use crate::text::{append_chars, chars_of, lemma_encode_injective, lossy_text, text_lossy};

verus! {

/// A diff as git gives it: the changed files, the block of change counts, and the patch.
pub struct GitDiff {
    pub deltas: Vec<DeltaInfo>,
    pub stats: Option<String>,
    pub patch: Vec<PatchLine>,
}

/// What git gives of a diff.
pub struct GitDiffView {
    pub deltas: Seq<DeltaView>,
    pub stats: Option<Seq<char>>,
    pub patch: Seq<PatchView>,
}

impl View for GitDiff {
    type V = GitDiffView;

    open spec fn view(&self) -> GitDiffView {
        GitDiffView {
            deltas: delta_views(self.deltas@),
            stats: match self.stats {
                Some(s) => Some(s@),
                None => None,
            },
            patch: patch_views(self.patch@),
        }
    }
}

/// The diff that holds nothing.
pub open spec fn no_data() -> DataView {
    DataView { lines: Seq::empty(), files: Seq::empty(), max_chars: 0 }
}

/// The diff under its header.
pub open spec fn under(header: Seq<LineView>, diff: Option<GitDiffView>, show_stats: bool) -> DataView {
    match diff {
        Some(diff) => {
            let body = with_patch(
                body_start(header, Seq::empty(), diff.deltas, diff.stats, show_stats),
                diff.patch,
            );
            DataView { lines: body.lines, files: body.files, max_chars: widest(body.lines) }
        },
        None => no_data(),
    }
}

/// The view of an optional diff.
pub open spec fn opt_diff(diff: Option<GitDiff>) -> Option<GitDiffView> {
    match diff {
        Some(diff) => Some(diff@),
        None => None,
    }
}

/// The diff under its header; nothing at all where git could not make it.
pub fn build_diff_data(header: Vec<DiffLine>, diff: &Option<GitDiff>, settings: DiffSettings) -> (data:
    DiffData)
    ensures
        data@ == under(line_views(header@), opt_diff(*diff), settings.show_stats),
{
    let diff = match diff {
        Some(diff) => diff,
        None => {
            let data = DiffData::empty();
            assert(data@.lines =~= Seq::<LineView>::empty());
            assert(data@.files =~= Seq::<FileView>::empty());
            return data;
        },
    };
    let mut out = header;
    let mut files: Vec<FileEntry> = Vec::new();
    assert(file_views(files@) =~= Seq::<FileView>::empty());
    let stats: Option<&str> = match &diff.stats {
        Some(s) => Some(s.as_str()),
        None => None,
    };
    assert(counts_fit(file_views(files@), diff.patch@.len() as int));
    append_diff_body(
        &mut out,
        &mut files,
        &diff.deltas,
        stats,
        &diff.patch,
        settings.show_stats,
    );
    DiffData::new(out, files)
}

fn blank() -> (line: DiffLine)
    ensures
        line@ == plain_line(Seq::empty(), LineKind::Blank),
{
    let empty = String::new();
    DiffLine::new(&empty, LineKind::Blank)
}

/// What git knows of a commit that the header shows.
pub struct CommitInfo {
    pub oid: Oid,
    /// The author's name and address.
    pub author: String,
    /// When the commit was authored, in seconds since the beginning of 1970.
    pub secs: i64,
    /// How far the author's clock was ahead of Greenwich, in minutes.
    pub tz_offset_min: i32,
    pub message: Vec<u8>,
}

/// The header of a commit: its name, its author, the date where there is one, and the message,
/// indented, between blank lines.
pub open spec fn commit_rows(
    oid: Oid,
    author: Seq<char>,
    date: Seq<char>,
    message: Seq<char>,
) -> Seq<LineView> {
    seq![
        plain_line("commit "@ + oid.hex(), LineKind::Meta),
        plain_line("Author: "@ + author, LineKind::Meta),
    ] + (if date.len() > 0 {
        seq![plain_line("Date:   "@ + date, LineKind::Meta)]
    } else {
        Seq::empty()
    }) + seq![plain_line(Seq::empty(), LineKind::Blank)] + lines_from(message, 0).map_values(
        |l: Seq<char>| plain_line("    "@ + l, LineKind::Meta),
    ) + seq![plain_line(Seq::empty(), LineKind::Blank)]
}

/// The header of a commit, for the given date.
pub fn commit_header(oid: Oid, author: &str, date: &str, message: &str) -> (header: Vec<DiffLine>)
    ensures
        line_views(header@) == commit_rows(oid, author@, date@, message@),
{
    let mut out: Vec<DiffLine> = Vec::new();
    let name = oid.to_hex(40);
    assert(oid.hex().take(40) =~= oid.hex());
    let line = two("commit ", &name);
    out.push(line);
    let line = two("Author: ", author);
    out.push(line);
    if !date.is_empty() {
        let line = two("Date:   ", date);
        out.push(line);
    }
    out.push(blank());
    let ghost front = line_views(out@);
    assert(front =~= seq![
        plain_line("commit "@ + oid.hex(), LineKind::Meta),
        plain_line("Author: "@ + author@, LineKind::Meta),
    ] + (if date@.len() > 0 {
        seq![plain_line("Date:   "@ + date@, LineKind::Meta)]
    } else {
        Seq::empty()
    }) + seq![plain_line(Seq::empty(), LineKind::Blank)]);
    let chars = chars_of(message);
    let texts = lines(&chars);
    let ghost rows = lines_from(message@, 0).map_values(
        |l: Seq<char>| plain_line("    "@ + l, LineKind::Meta),
    );
    let mut i: usize = 0;
    assert(front + rows.take(0) =~= front);
    while i < texts.len()
        invariant
            i <= texts@.len(),
            texts@.len() == lines_from(message@, 0).len(),
            forall|k: int| #![trigger texts@[k]]
                0 <= k < texts@.len() ==> texts@[k]@ == lines_from(message@, 0)[k],
            rows == lines_from(message@, 0).map_values(
                |l: Seq<char>| plain_line("    "@ + l, LineKind::Meta),
            ),
            line_views(out@) == front + rows.take(i as int),
        decreases texts.len() - i,
    {
        let ghost here = line_views(out@);
        let mut text = String::from_str("    ");
        append_chars(&mut text, texts[i]);
        out.push(DiffLine::new(&text, LineKind::Meta));
        assert(line_views(out@) =~= here.push(rows[i as int]));
        assert(front + rows.take(i + 1) =~= (front + rows.take(i as int)).push(rows[i as int]));
        i += 1;
    }
    assert(rows.take(i as int) =~= rows);
    let ghost here = line_views(out@);
    out.push(blank());
    assert(line_views(out@) =~= here.push(plain_line(Seq::empty(), LineKind::Blank)));
    assert(line_views(out@) =~= commit_rows(oid, author@, date@, message@));
    out
}

/// A header line of a label and a value.
fn two(label: &str, value: &str) -> (line: DiffLine)
    ensures
        line@ == plain_line(label@ + value@, LineKind::Meta),
{
    let mut text = String::from_str(label);
    text.append(value);
    DiffLine::new(&text, LineKind::Meta)
}

/// The header of a range: the two ends, and the subject of each.
pub open spec fn range_rows(ends: RangeEnds, base: Seq<char>, head: Seq<char>) -> Seq<LineView> {
    seq![
        plain_line(
            "Range "@ + ends.base.hex().take(12) + ".."@ + ends.head.hex().take(12),
            LineKind::Meta,
        ),
        plain_line("  from  "@ + ends.base.hex().take(8) + "  "@ + base, LineKind::Meta),
        plain_line("  to    "@ + ends.head.hex().take(8) + "  "@ + head, LineKind::Meta),
        plain_line(Seq::empty(), LineKind::Blank),
    ]
}

/// The header of a range.
pub fn range_header(ends: RangeEnds, base_subject: &str, head_subject: &str) -> (header: Vec<
    DiffLine,
>)
    ensures
        line_views(header@) == range_rows(ends, base_subject@, head_subject@),
{
    let mut out: Vec<DiffLine> = Vec::new();
    let mut text = String::from_str("Range ");
    text.append(&ends.base.to_hex(12));
    text.append("..");
    text.append(&ends.head.to_hex(12));
    out.push(DiffLine::new(&text, LineKind::Meta));
    let mut text = String::from_str("  from  ");
    text.append(&ends.base.to_hex(8));
    text.append("  ");
    text.append(base_subject);
    out.push(DiffLine::new(&text, LineKind::Meta));
    let mut text = String::from_str("  to    ");
    text.append(&ends.head.to_hex(8));
    text.append("  ");
    text.append(head_subject);
    out.push(DiffLine::new(&text, LineKind::Meta));
    out.push(blank());
    assert(line_views(out@) =~= range_rows(ends, base_subject@, head_subject@));
    out
}

/// The header of a row that stands for no commit.
pub open spec fn title_rows(title: Seq<char>) -> Seq<LineView> {
    seq![plain_line(title, LineKind::Meta), plain_line(Seq::empty(), LineKind::Blank)]
}

/// The diff under a title.
pub fn virtual_diff(title: &str, diff: &Option<GitDiff>, settings: DiffSettings) -> (data: DiffData)
    ensures
        data@ == under(title_rows(title@), opt_diff(*diff), settings.show_stats),
{
    let mut header: Vec<DiffLine> = Vec::new();
    header.push(DiffLine::new(title, LineKind::Meta));
    header.push(blank());
    assert(line_views(header@) =~= title_rows(title@));
    build_diff_data(header, diff, settings)
}

/// The diff of the working tree against the index.
pub fn get_working_tree_diff(diff: &Option<GitDiff>, settings: DiffSettings) -> (data: DiffData)
    ensures
        data@ == under(
            title_rows("Uncommitted changes (working tree)"@),
            opt_diff(*diff),
            settings.show_stats,
        ),
{
    virtual_diff("Uncommitted changes (working tree)", diff, settings)
}

/// The diff of the index against the last commit.
pub fn get_staged_diff(diff: &Option<GitDiff>, settings: DiffSettings) -> (data: DiffData)
    ensures
        data@ == under(
            title_rows("Staged changes (index)"@),
            opt_diff(*diff),
            settings.show_stats,
        ),
{
    virtual_diff("Staged changes (index)", diff, settings)
}

/// The subject of a commit; nothing where there is none.
pub open spec fn subject_of(bytes: Option<Seq<u8>>) -> Seq<char> {
    match bytes {
        Some(b) => lossy_text(b),
        None => Seq::empty(),
    }
}

fn subject_text(bytes: &Option<Vec<u8>>) -> (s: String)
    ensures
        s@ == subject_of(
            match *bytes {
                Some(b) => Some(b@),
                None => None,
            },
        ),
{
    match bytes {
        Some(b) => text_lossy(b),
        None => String::new(),
    }
}

/// The combined diff of a range.
pub fn get_range_diff(
    ends: RangeEnds,
    base_subject: &Option<Vec<u8>>,
    head_subject: &Option<Vec<u8>>,
    diff: &Option<GitDiff>,
    settings: DiffSettings,
) -> (data: DiffData)
    ensures
        data@ == under(
            range_rows(
                ends,
                subject_of(
                    match *base_subject {
                        Some(b) => Some(b@),
                        None => None,
                    },
                ),
                subject_of(
                    match *head_subject {
                        Some(b) => Some(b@),
                        None => None,
                    },
                ),
            ),
            opt_diff(*diff),
            settings.show_stats,
        ),
{
    let base = subject_text(base_subject);
    let head = subject_text(head_subject);
    build_diff_data(range_header(ends, &base, &head), diff, settings)
}

/// What git gives for a row.
pub enum RowContent {
    /// A commit, or `None` where git does not know it.
    Commit(Option<CommitInfo>, Option<GitDiff>),
    Uncommitted(Option<GitDiff>),
    Staged(Option<GitDiff>),
    /// The ends of a range, and the subjects of the two.
    Range(RangeEnds, Option<Vec<u8>>, Option<Vec<u8>>, Option<GitDiff>),
}

/// What the diff pane shows for a row.
pub open spec fn shown(content: RowContent, show_stats: bool) -> DataView {
    match content {
        RowContent::Commit(None, _) => no_data(),
        RowContent::Commit(Some(c), diff) => under(
            commit_rows(
                c.oid,
                c.author@,
                commit_time(c.secs, c.tz_offset_min as int, true),
                lossy_text(c.message@),
            ),
            opt_diff(diff),
            show_stats,
        ),
        RowContent::Uncommitted(diff) => under(
            title_rows("Uncommitted changes (working tree)"@),
            opt_diff(diff),
            show_stats,
        ),
        RowContent::Staged(diff) => under(
            title_rows("Staged changes (index)"@),
            opt_diff(diff),
            show_stats,
        ),
        RowContent::Range(ends, base, head, diff) => under(
            range_rows(
                ends,
                subject_of(
                    match base {
                        Some(b) => Some(b@),
                        None => None,
                    },
                ),
                subject_of(
                    match head {
                        Some(b) => Some(b@),
                        None => None,
                    },
                ),
            ),
            opt_diff(diff),
            show_stats,
        ),
    }
}

/// What the diff pane shows for a row.
pub fn get_diff_data(content: &RowContent, settings: DiffSettings) -> (data: DiffData)
    ensures
        data@ == shown(*content, settings.show_stats),
{
    match content {
        RowContent::Commit(info, diff) => match info {
            Some(c) => {
                let date = format_commit_time(c.secs, c.tz_offset_min, true);
                let message = text_lossy(&c.message);
                build_diff_data(commit_header(c.oid, &c.author, &date, &message), diff, settings)
            },
            None => {
                let none: Option<GitDiff> = None;
                build_diff_data(Vec::new(), &none, settings)
            },
        },
        RowContent::Uncommitted(diff) => get_working_tree_diff(diff, settings),
        RowContent::Staged(diff) => get_staged_diff(diff, settings),
        RowContent::Range(ends, base, head, diff) => get_range_diff(
            *ends,
            base,
            head,
            diff,
            settings,
        ),
    }
}

/// Whether every deleted and added line starts with its marker.
pub open spec fn all_marked(rows: Seq<LineView>) -> bool {
    forall|k: int| 0 <= k < rows.len() ==> (#[trigger] rows[k]).marked()
}

/// Every deleted and added line that the diff pane shows starts with its marker, so that its body can
/// be taken.
pub proof fn law_shown_lines_are_marked(content: RowContent, show_stats: bool)
    ensures
        all_marked(shown(content, show_stats).lines),
{
    match content {
        RowContent::Commit(None, _) => {},
        RowContent::Commit(Some(c), diff) => {
            let date = commit_time(c.secs, c.tz_offset_min as int, true);
            lemma_under_marked(
                commit_rows(c.oid, c.author@, date, lossy_text(c.message@)),
                opt_diff(diff),
                show_stats,
            );
        },
        RowContent::Uncommitted(diff) => lemma_under_marked(
            title_rows("Uncommitted changes (working tree)"@),
            opt_diff(diff),
            show_stats,
        ),
        RowContent::Staged(diff) => lemma_under_marked(
            title_rows("Staged changes (index)"@),
            opt_diff(diff),
            show_stats,
        ),
        RowContent::Range(ends, base, head, diff) => {
            let b = subject_of(
                match base {
                    Some(b) => Some(b@),
                    None => None,
                },
            );
            let h = subject_of(
                match head {
                    Some(b) => Some(b@),
                    None => None,
                },
            );
            lemma_under_marked(range_rows(ends, b, h), opt_diff(diff), show_stats);
        },
    }
}

proof fn lemma_under_marked(header: Seq<LineView>, diff: Option<GitDiffView>, show_stats: bool)
    requires
        forall|k: int| 0 <= k < header.len() ==> !is_change((#[trigger] header[k]).kind),
    ensures
        all_marked(under(header, diff, show_stats).lines),
{
    if let Some(d) = diff {
        let start = body_start(header, Seq::empty(), d.deltas, d.stats, show_stats);
        assert forall|k: int| 0 <= k < start.lines.len() implies (
        #[trigger] start.lines[k]).marked() by {
            if k < header.len() {
                assert(start.lines[k] == header[k]);
            }
        }
        law_patch_lines_are_marked(start, d.patch);
    }
}

/// What is fed to the hasher for the lines of a diff: how many there are, then the text of each, a
/// byte that no text holds, and its kind.
pub open spec fn content_written(rows: Seq<LineView>) -> Seq<Seq<u8>>
    decreases rows.len(),
{
    if rows.len() == 0 {
        Seq::empty()
    } else {
        content_written(rows.drop_last()) + seq![
            encode_utf8(rows.last().text),
            seq![0xffu8],
            seq![kind_byte(rows.last().kind)],
        ]
    }
}

/// A fingerprint of a diff: of the text and the kind of every line.
pub fn hash_diff_content(data: &DiffData) -> (h: u64)
    ensures
        h == DefaultHasher::spec_finish(
            seq![le(data@.lines.len(), 8)] + content_written(data@.lines),
        ),
{
    let ghost rows = data@.lines;
    let mut len: Vec<u8> = Vec::new();
    push_le(&mut len, data.lines.len() as u64, 8);
    assert(len@ =~= le(rows.len(), 8));
    let mut h = DefaultHasher::new();
    h.write(&len);
    let ghost front = h@;
    assert(front =~= seq![le(rows.len(), 8)]);
    let mut i: usize = 0;
    assert(rows.take(0) =~= Seq::<LineView>::empty());
    assert(front + content_written(rows.take(0)) =~= front);
    while i < data.lines.len()
        invariant
            i <= data.lines@.len(),
            rows == data@.lines,
            h@ == front + content_written(rows.take(i as int)),
        decreases data.lines.len() - i,
    {
        let ghost here = h@;
        let ghost row = rows[i as int];
        h.write(data.lines[i].text.as_str().as_bytes());
        let mark: [u8; 1] = [0xff];
        let kind: [u8; 1] = [kind_tag(data.lines[i].kind)];
        h.write(&mark);
        h.write(&kind);
        assert(mark@ =~= seq![0xffu8]);
        assert(kind@ =~= seq![kind_byte(row.kind)]);
        proof {
            assert(rows.take(i + 1).drop_last() =~= rows.take(i as int));
            let more = seq![encode_utf8(row.text), seq![0xffu8], seq![kind_byte(row.kind)]];
            assert(h@ =~= here + more);
            assert(front + content_written(rows.take(i + 1)) =~= here + more);
        }
        i += 1;
    }
    assert(rows.take(i as int) =~= rows);
    h.finish()
}

/// Diffs that differ in the text or the kind of a line, or in the number of lines, feed the hasher
/// differently.
pub proof fn law_contents_are_told_apart(a: Seq<LineView>, b: Seq<LineView>)
    requires
        seq![le(a.len(), 8)] + content_written(a) == seq![le(b.len(), 8)] + content_written(b),
    ensures
        a.len() == b.len(),
        forall|i: int| #![trigger a[i]]
            0 <= i < a.len() ==> a[i].text == b[i].text && a[i].kind == b[i].kind,
{
    assert((seq![le(a.len(), 8)] + content_written(a)).skip(1) =~= content_written(a));
    assert((seq![le(b.len(), 8)] + content_written(b)).skip(1) =~= content_written(b));
    lemma_content_injective(a, b);
}

proof fn lemma_content_len(a: Seq<LineView>)
    ensures
        content_written(a).len() == 3 * a.len(),
    decreases a.len(),
{
    if a.len() > 0 {
        lemma_content_len(a.drop_last());
    }
}

proof fn lemma_content_injective(a: Seq<LineView>, b: Seq<LineView>)
    requires
        content_written(a) == content_written(b),
    ensures
        a.len() == b.len(),
        forall|i: int| #![trigger a[i]]
            0 <= i < a.len() ==> a[i].text == b[i].text && a[i].kind == b[i].kind,
    decreases a.len(),
{
    lemma_content_len(a);
    lemma_content_len(b);
    if a.len() > 0 {
        let x = content_written(a);
        let y = content_written(b);
        let n = x.len() as int;
        lemma_content_len(a.drop_last());
        lemma_content_len(b.drop_last());
        assert(x.take(n - 3) =~= content_written(a.drop_last()));
        assert(y.take(n - 3) =~= content_written(b.drop_last()));
        lemma_content_injective(a.drop_last(), b.drop_last());
        assert(x[n - 3] == encode_utf8(a.last().text) && y[n - 3] == encode_utf8(b.last().text));
        lemma_encode_injective(a.last().text, b.last().text);
        assert(x[n - 1][0] == kind_byte(a.last().kind) && y[n - 1][0] == kind_byte(b.last().kind));
        assert forall|i: int| #![trigger a[i]] 0 <= i < a.len() implies a[i].text == b[i].text
            && a[i].kind == b[i].kind by {
            if i < a.len() - 1 {
                assert(a.drop_last()[i] == a[i] && b.drop_last()[i] == b[i]);
            }
        }
    }
}

/// The counts that git gives for a row.
pub enum DiffCounts {
    /// The changed files alone.
    Files(usize),
    /// The changed files, and the lines added and deleted.
    Lines { files: usize, insertions: usize, deletions: usize },
}

/// The change counts of a row, from those that git gives.
pub open spec fn stats_of(counts: DiffCounts) -> CommitStats {
    match counts {
        DiffCounts::Files(files) => CommitStats { files, lines: None },
        DiffCounts::Lines { files, insertions, deletions } => CommitStats {
            files,
            lines: Some((insertions, deletions)),
        },
    }
}

/// The change counts of a row.
pub fn commit_stats(counts: DiffCounts) -> (stats: CommitStats)
    ensures
        stats == stats_of(counts),
{
    match counts {
        DiffCounts::Files(files) => CommitStats { files, lines: None },
        DiffCounts::Lines { files, insertions, deletions } => CommitStats {
            files,
            lines: Some((insertions, deletions)),
        },
    }
}

/// The diff that is shown for a row.
pub open spec fn diff_of(content: RowContent) -> Option<GitDiffView> {
    match content {
        RowContent::Commit(None, _) => None,
        RowContent::Commit(Some(_), diff) => opt_diff(diff),
        RowContent::Uncommitted(diff) => opt_diff(diff),
        RowContent::Staged(diff) => opt_diff(diff),
        RowContent::Range(_, _, _, diff) => opt_diff(diff),
    }
}

/// Whether every piece of the patch belongs to a listed file.
pub open spec fn pieces_listed(d: GitDiffView) -> bool {
    forall|k: int| #![trigger d.patch[k]]
        0 <= k < d.patch.len() ==> exists|i: int|
            0 <= i < d.deltas.len() && delta_path(#[trigger] d.deltas[i]) == d.patch[k].path
}

/// Whether git's counts are those of its diff: the listed files, and the added and deleted lines of
/// the patch.
pub open spec fn counts_tell(counts: DiffCounts, d: GitDiffView) -> bool {
    match counts {
        DiffCounts::Files(files) => files == d.deltas.len(),
        DiffCounts::Lines { files, insertions, deletions } => {
            &&& files == d.deltas.len()
            &&& insertions == pieces_of(d.patch, '+')
            &&& deletions == pieces_of(d.patch, '-')
        },
    }
}

/// The counts in the list of commits agree with the pane: as many files as the pane lists, and as many
/// added and deleted lines as it counts for them together. This holds where git's counts are those of
/// its own diff. Without the lines, the number of files is the same.
pub proof fn law_list_agrees_with_the_pane(
    content: RowContent,
    show_stats: bool,
    d: GitDiffView,
    counts: DiffCounts,
)
    requires
        diff_of(content) == Some(d),
        pieces_listed(d),
        counts_tell(counts, d),
    ensures
        stats_of(counts).files == shown(content, show_stats).files.len(),
        match counts {
            DiffCounts::Files(_) => stats_of(counts).lines is None,
            DiffCounts::Lines { .. } => stats_of(counts).lines matches Some((added, deleted)) && (
                added as nat,
                deleted as nat,
            ) == total_counts(shown(content, show_stats).files),
        },
{
    match content {
        RowContent::Commit(None, _) => {},
        RowContent::Commit(Some(c), _) => {
            let date = commit_time(c.secs, c.tz_offset_min as int, true);
            lemma_under_counts(
                commit_rows(c.oid, c.author@, date, lossy_text(c.message@)),
                d,
                show_stats,
            );
        },
        RowContent::Uncommitted(_) => lemma_under_counts(
            title_rows("Uncommitted changes (working tree)"@),
            d,
            show_stats,
        ),
        RowContent::Staged(_) => lemma_under_counts(
            title_rows("Staged changes (index)"@),
            d,
            show_stats,
        ),
        RowContent::Range(ends, base, head, _) => {
            let b = subject_of(
                match base {
                    Some(b) => Some(b@),
                    None => None,
                },
            );
            let h = subject_of(
                match head {
                    Some(b) => Some(b@),
                    None => None,
                },
            );
            lemma_under_counts(range_rows(ends, b, h), d, show_stats);
        },
    }
}

proof fn lemma_under_counts(header: Seq<LineView>, d: GitDiffView, show_stats: bool)
    requires
        pieces_listed(d),
    ensures
        under(header, Some(d), show_stats).files.len() == d.deltas.len(),
        total_counts(under(header, Some(d), show_stats).files) == (
            pieces_of(d.patch, '+'),
            pieces_of(d.patch, '-'),
        ),
{
    let start = body_start(header, Seq::empty(), d.deltas, d.stats, show_stats);
    let entries = d.deltas.map_values(|x: DeltaView| entry_of(x));
    assert(start.files =~= entries);
    assert forall|k: int| 0 <= k < d.patch.len() implies knows(
        start.files,
        (#[trigger] d.patch[k]).path,
    ) by {
        let i = choose|i: int|
            0 <= i < d.deltas.len() && delta_path(#[trigger] d.deltas[i]) == d.patch[k].path;
        assert(start.files[i].path_bytes == d.patch[k].path);
    }
    law_patch_is_counted(start, d.patch);
    lemma_new_counts(d.deltas);
}

/// A listed file has no counts yet.
proof fn lemma_new_counts(deltas: Seq<DeltaView>)
    ensures
        total_counts(deltas.map_values(|x: DeltaView| entry_of(x))) == (0nat, 0nat),
    decreases deltas.len(),
{
    let entries = deltas.map_values(|x: DeltaView| entry_of(x));
    if deltas.len() > 0 {
        lemma_new_counts(deltas.drop_last());
        assert(entries.drop_last() =~= deltas.drop_last().map_values(|x: DeltaView| entry_of(x)));
    }
}

/// The header of a commit: its name in full, its author, the date where there is one, a blank line, the
/// message line by line, each behind four spaces, and a blank line. All of it but the blank lines is
/// of one kind, and none of it has numbers.
pub proof fn law_commit_header_shows_the_commit(
    oid: Oid,
    author: Seq<char>,
    date: Seq<char>,
    message: Seq<char>,
    k: int,
)
    requires
        0 <= k < lines_from(message, 0).len(),
    ensures
        ({
            let rows = commit_rows(oid, author, date, message);
            let said = lines_from(message, 0);
            let d: int = if date.len() > 0 {
                1
            } else {
                0
            };
            &&& rows.len() == 4 + d + said.len()
            &&& rows[0] == plain_line("commit "@ + oid.hex(), LineKind::Meta)
            &&& rows[1] == plain_line("Author: "@ + author, LineKind::Meta)
            &&& date.len() > 0 ==> rows[2] == plain_line("Date:   "@ + date, LineKind::Meta)
            &&& rows[2 + d] == plain_line(Seq::empty(), LineKind::Blank)
            &&& rows[3 + d + k] == plain_line("    "@ + said[k], LineKind::Meta)
            &&& rows.last() == plain_line(Seq::empty(), LineKind::Blank)
        }),
{
}

/// A line of a header is its text in its kind, and nothing more.
pub proof fn law_plain_line_is_its_text(text: Seq<char>, kind: LineKind)
    ensures
        ({
            let l = plain_line(text, kind);
            &&& l.text == text && l.kind == kind
            &&& l.spans is None && l.emphasis is None
            &&& l.old_lineno is None && l.new_lineno is None
        }),
{
}

/// The header of a range: the first twelve digits of both ends, then each with its first eight and its
/// subject, and a blank line.
pub proof fn law_range_header_shows_both_ends(ends: RangeEnds, base: Seq<char>, head: Seq<char>)
    ensures
        ({
            let rows = range_rows(ends, base, head);
            &&& rows.len() == 4
            &&& rows[0].text == "Range "@ + ends.base.hex().take(12) + ".."@ + ends.head.hex().take(12)
            &&& rows[1].text == "  from  "@ + ends.base.hex().take(8) + "  "@ + base
            &&& rows[2].text == "  to    "@ + ends.head.hex().take(8) + "  "@ + head
            &&& rows[3].text.len() == 0
            &&& rows[0].kind == LineKind::Meta && rows[1].kind == LineKind::Meta && rows[2].kind
                == LineKind::Meta && rows[3].kind == LineKind::Blank
        }),
{
}

/// What the pane shows of a row is its header, then git's diff; a commit that git does not know, and a
/// row without a diff, show nothing. The header of the working tree and that of the index name them.
/// The widest line counts its characters.
pub proof fn law_pane_shows_header_and_diff(content: RowContent, show_stats: bool, d: GitDiffView)
    ensures
        diff_of(content) is None ==> {
            let all = shown(content, show_stats);
            all.lines.len() == 0 && all.files.len() == 0 && all.max_chars == 0
        },
        diff_of(content) == Some(d) ==> {
            let all = shown(content, show_stats);
            let header = match content {
                RowContent::Commit(Some(c), _) => commit_rows(
                    c.oid,
                    c.author@,
                    commit_time(c.secs, c.tz_offset_min as int, true),
                    lossy_text(c.message@),
                ),
                RowContent::Uncommitted(_) => seq![
                    plain_line("Uncommitted changes (working tree)"@, LineKind::Meta),
                    plain_line(Seq::empty(), LineKind::Blank),
                ],
                RowContent::Staged(_) => seq![
                    plain_line("Staged changes (index)"@, LineKind::Meta),
                    plain_line(Seq::empty(), LineKind::Blank),
                ],
                RowContent::Range(ends, base, head, _) => range_rows(
                    ends,
                    if base is Some {
                        lossy_text(base->0@)
                    } else {
                        Seq::empty()
                    },
                    if head is Some {
                        lossy_text(head->0@)
                    } else {
                        Seq::empty()
                    },
                ),
                RowContent::Commit(None, _) => Seq::empty(),
            };
            let body = with_patch(
                body_start(header, Seq::empty(), d.deltas, d.stats, show_stats),
                d.patch,
            );
            &&& all.lines == body.lines
            &&& all.files == body.files
            &&& forall|i: int| 0 <= i < all.lines.len() ==> (#[trigger] all.lines[i]).text.len()
                <= all.max_chars
        },
        match content {
            RowContent::Commit(c, diff) => diff_of(content) is Some <==> c is Some && diff is Some,
            RowContent::Uncommitted(diff) | RowContent::Staged(diff) | RowContent::Range(
                _,
                _,
                _,
                diff,
            ) => diff_of(content) is Some <==> diff is Some,
        },
{
    if diff_of(content) == Some(d) {
        law_widest_bounds_every_line(shown(content, show_stats).lines);
    }
}

/// The change counts of a row are git's.
pub proof fn law_change_counts_are_gits(files: usize, insertions: usize, deletions: usize)
    ensures
        stats_of(DiffCounts::Files(files)).files == files,
        stats_of(DiffCounts::Files(files)).lines is None,
        stats_of(DiffCounts::Lines { files, insertions, deletions }).files == files,
        stats_of(DiffCounts::Lines { files, insertions, deletions }).lines == Some(
            (insertions, deletions),
        ),
{
}

} // verus!
