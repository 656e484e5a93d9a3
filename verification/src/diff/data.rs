//! A whole diff: its lines, its files, and the settings that shape it.

use vstd::prelude::*;
use vstd::string::*;

use crate::diff::line::{line_views, DiffLine, LineView};

verus! {

/// What became of a file.
#[derive(Clone, Copy, PartialEq, Eq, Structural, Debug)]
pub enum Delta {
    Unmodified,
    Added,
    Deleted,
    Modified,
    Renamed,
    Copied,
    Ignored,
    Untracked,
    Typechange,
    Unreadable,
    Conflicted,
}

/// A file of a diff.
#[derive(Clone)]
pub struct FileEntry {
    /// The path after the change, for display.
    pub path: String,
    /// The path that a renamed or copied file comes from, for display.
    pub old_path: Option<String>,
    /// The path after the change: what the file is known by.
    pub path_bytes: Vec<u8>,
    /// The path that a renamed or copied file comes from.
    pub old_path_bytes: Option<Vec<u8>>,
    pub status: Delta,
    pub is_binary: bool,
    pub additions: usize,
    pub deletions: usize,
    /// The line at which the file's patch starts; `None` for a file without one.
    pub diff_line_idx: Option<usize>,
}

/// What a file of a diff holds.
pub struct FileView {
    pub path: Seq<char>,
    pub old_path: Option<Seq<char>>,
    pub path_bytes: Seq<u8>,
    pub old_path_bytes: Option<Seq<u8>>,
    pub status: Delta,
    pub is_binary: bool,
    pub additions: nat,
    pub deletions: nat,
    pub diff_line_idx: Option<nat>,
}

impl View for FileEntry {
    type V = FileView;

    open spec fn view(&self) -> FileView {
        FileView {
            path: self.path@,
            old_path: match self.old_path {
                Some(old) => Some(old@),
                None => None,
            },
            path_bytes: self.path_bytes@,
            old_path_bytes: match self.old_path_bytes {
                Some(old) => Some(old@),
                None => None,
            },
            status: self.status,
            is_binary: self.is_binary,
            additions: self.additions as nat,
            deletions: self.deletions as nat,
            diff_line_idx: match self.diff_line_idx {
                Some(idx) => Some(idx as nat),
                None => None,
            },
        }
    }
}

/// What the files hold.
pub open spec fn file_views(files: Seq<FileEntry>) -> Seq<FileView> {
    files.map_values(|f: FileEntry| f@)
}

/// A diff.
pub struct DiffData {
    pub lines: Vec<DiffLine>,
    pub files: Vec<FileEntry>,
    /// The number of characters of the widest line.
    pub max_chars: usize,
}

/// What a diff holds.
pub struct DataView {
    pub lines: Seq<LineView>,
    pub files: Seq<FileView>,
    pub max_chars: nat,
}

impl View for DiffData {
    type V = DataView;

    open spec fn view(&self) -> DataView {
        DataView {
            lines: line_views(self.lines@),
            files: file_views(self.files@),
            max_chars: self.max_chars as nat,
        }
    }
}

/// The number of characters of the widest line.
pub open spec fn widest(lines: Seq<LineView>) -> nat
    decreases lines.len(),
{
    if lines.len() == 0 {
        0
    } else if lines.last().text.len() > widest(lines.drop_last()) {
        lines.last().text.len()
    } else {
        widest(lines.drop_last())
    }
}

impl DiffData {
    /// The diff with these lines and files.
    pub fn new(lines: Vec<DiffLine>, files: Vec<FileEntry>) -> (data: DiffData)
        ensures
            data@ == (DataView {
                lines: line_views(lines@),
                files: file_views(files@),
                max_chars: widest(line_views(lines@)),
            }),
    {
        let ghost views = line_views(lines@);
        let mut max_chars: usize = 0;
        let mut i: usize = 0;
        assert(views.take(0) =~= Seq::<LineView>::empty());
        while i < lines.len()
            invariant
                i <= lines.len(),
                views == line_views(lines@),
                max_chars == widest(views.take(i as int)),
            decreases lines.len() - i,
        {
            let n: usize = lines[i].text.as_str().unicode_len();
            assert(views.take(i + 1).drop_last() =~= views.take(i as int));
            assert(views.take(i + 1).last().text == lines@[i as int].text@);
            if n > max_chars {
                max_chars = n;
            }
            i += 1;
        }
        assert(views.take(i as int) =~= views);
        DiffData::with_max_chars(lines, files, max_chars)
    }

    /// The diff with these lines and files, whose widest line is known.
    pub fn with_max_chars(lines: Vec<DiffLine>, files: Vec<FileEntry>, max_chars: usize) -> (data:
        DiffData)
        ensures
            data@ == (DataView {
                lines: line_views(lines@),
                files: file_views(files@),
                max_chars: max_chars as nat,
            }),
            data.lines == lines,
            data.files == files,
            data.max_chars == max_chars,
    {
        DiffData { lines, files, max_chars }
    }

    /// The diff that holds nothing.
    pub fn empty() -> (data: DiffData)
        ensures
            data.lines@.len() == 0,
            data.files@.len() == 0,
            data.max_chars == 0,
    {
        DiffData { lines: Vec::new(), files: Vec::new(), max_chars: 0 }
    }
}

/// The most characters that a line has: none is wider than `widest`, and one is as wide.
pub proof fn law_widest_bounds_every_line(lines: Seq<LineView>)
    ensures
        forall|i: int| 0 <= i < lines.len() ==> (#[trigger] lines[i]).text.len() <= widest(lines),
        lines.len() > 0 ==> exists|i: int|
            0 <= i < lines.len() && (#[trigger] lines[i]).text.len() == widest(lines),
    decreases lines.len(),
{
    if lines.len() > 0 {
        let fore = lines.drop_last();
        law_widest_bounds_every_line(fore);
        assert forall|i: int| 0 <= i < lines.len() implies (#[trigger] lines[i]).text.len()
            <= widest(lines) by {
            if i < fore.len() {
                assert(fore[i] == lines[i]);
            }
        }
        if lines.last().text.len() > widest(fore) || fore.len() == 0 {
            assert(lines[lines.len() - 1].text.len() == widest(lines));
        } else {
            let i = choose|i: int|
                0 <= i < fore.len() && (#[trigger] fore[i]).text.len() == widest(fore);
            assert(lines[i].text.len() == widest(lines));
        }
    }
}

/// What shapes a diff: the lines of context, whether white space counts, and what is looked for;
/// `show_stats` asks for the block of change counts above the patch.
#[derive(Clone, Copy, PartialEq, Eq, Structural, Hash, Debug)]
pub struct DiffSettings {
    pub context: u32,
    pub ignore_ws: bool,
    pub show_stats: bool,
    pub detect_renames: bool,
    pub detect_copies: bool,
}

} // verus!
