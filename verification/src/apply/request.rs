//! What is to be written, and why it was not.

use vstd::prelude::*;
use vstd::string::*;

use crate::bytes::copy_bytes;
use crate::diff::data::{Delta, FileEntry};
use crate::diff::hunk::HunkRange;
use crate::diff::row::{kind_of, CommitKind};
use crate::oid::Oid;
use crate::text::{lossy_text, text_lossy};

verus! {

/// What a click on a row's diff does.
#[derive(Clone, Copy, PartialEq, Eq, Structural, Debug)]
pub enum ApplyAction {
    /// Uncommitted changes go into the index.
    Stage,
    /// Staged changes leave the index.
    Unstage,
    /// The changes of a commit or of a range are undone in the working tree.
    Revert,
}

/// What a click on the diff of a row of that kind does.
pub open spec fn action_for(kind: CommitKind) -> ApplyAction {
    match kind {
        CommitKind::Uncommitted => ApplyAction::Stage,
        CommitKind::Staged => ApplyAction::Unstage,
        CommitKind::Real | CommitKind::Range => ApplyAction::Revert,
    }
}

impl ApplyAction {
    /// The name of the action.
    pub open spec fn name(self) -> Seq<char> {
        match self {
            ApplyAction::Stage => "Stage"@,
            ApplyAction::Unstage => "Unstage"@,
            ApplyAction::Revert => "Revert"@,
        }
    }

    /// The name of the action within a sentence.
    pub open spec fn lower_name(self) -> Seq<char> {
        match self {
            ApplyAction::Stage => "stage"@,
            ApplyAction::Unstage => "unstage"@,
            ApplyAction::Revert => "revert"@,
        }
    }

    /// What a click on the diff of the row that is kept under `oid` does.
    pub fn of(oid: Oid) -> (action: ApplyAction)
        ensures
            action == action_for(kind_of(oid)),
    {
        match CommitKind::of(oid) {
            CommitKind::Uncommitted => ApplyAction::Stage,
            CommitKind::Staged => ApplyAction::Unstage,
            CommitKind::Real | CommitKind::Range => ApplyAction::Revert,
        }
    }

    /// The name of the action.
    pub fn verb(self) -> (s: &'static str)
        ensures
            s@ == self.name(),
    {
        match self {
            ApplyAction::Stage => "Stage",
            ApplyAction::Unstage => "Unstage",
            ApplyAction::Revert => "Revert",
        }
    }

    /// The name of the action within a sentence.
    pub fn lower_verb(self) -> (s: &'static str)
        ensures
            s@ == self.lower_name(),
    {
        match self {
            ApplyAction::Stage => "stage",
            ApplyAction::Unstage => "unstage",
            ApplyAction::Revert => "revert",
        }
    }
}

/// One write that was asked for.
#[derive(Clone, Debug)]
pub struct ApplyRequest {
    /// The name under which the row of the diff is kept.
    pub oid: Oid,
    /// The path of the file.
    pub path: Vec<u8>,
    /// The path that a renamed or copied file comes from.
    pub old_path: Option<Vec<u8>>,
    /// What became of the file, as it was shown.
    pub status: Delta,
    /// The hunk; `None` for the whole file.
    pub hunk: Option<HunkRange>,
}

impl ApplyRequest {
    /// The path that the file was renamed from. A copy has none: what it was copied from is no part
    /// of the change.
    pub open spec fn renamed_from(self) -> Option<Seq<u8>> {
        if self.status == Delta::Renamed {
            match self.old_path {
                Some(old) => Some(old@),
                None => None,
            }
        } else {
            None
        }
    }

    /// What a click does.
    pub open spec fn action(self) -> ApplyAction {
        action_for(kind_of(self.oid))
    }

    /// The write for a file of the diff that is shown.
    pub fn for_entry(oid: Oid, file: &FileEntry, hunk: Option<HunkRange>) -> (req: ApplyRequest)
        ensures
            req.oid == oid,
            req.path@ == file@.path_bytes,
            match req.old_path {
                Some(old) => file@.old_path_bytes == Some(old@),
                None => file@.old_path_bytes is None,
            },
            req.status == file.status,
            req.hunk == hunk,
    {
        let old_path = match &file.old_path_bytes {
            Some(old) => Some(copy_bytes(old)),
            None => None,
        };
        ApplyRequest {
            oid,
            path: copy_bytes(&file.path_bytes),
            old_path,
            status: file.status,
            hunk,
        }
    }

    /// The path that the file was renamed from.
    pub fn rename_source(&self) -> (old: Option<&[u8]>)
        ensures
            match old {
                Some(old) => self.renamed_from() == Some(old@),
                None => self.renamed_from() is None,
            },
    {
        match self.status {
            Delta::Renamed => match &self.old_path {
                Some(old) => Some(old.as_slice()),
                None => None,
            },
            _ => None,
        }
    }

    /// Whether the file was shown as deleted.
    pub fn shown_deleted(&self) -> (r: bool)
        ensures
            r == (self.status == Delta::Deleted),
    {
        self.status == Delta::Deleted
    }

    /// The path for messages.
    pub fn display_path(&self) -> (s: String)
        ensures
            s@ == lossy_text(self.path@),
    {
        text_lossy(&self.path)
    }
}

/// The causes that git's errors are told apart by.
#[derive(Clone, Copy, PartialEq, Eq, Structural, Debug)]
pub enum GitCode {
    /// A patch did not fit.
    ApplyFail,
    /// There is no commit yet.
    UnbornBranch,
    NotFound,
    Other,
}

/// An error of git.
#[derive(Clone, Debug)]
pub struct GitError {
    pub code: GitCode,
    pub message: String,
}

/// Why a write did not happen.
#[derive(Debug)]
pub enum ApplyError {
    /// The file is no longer what the diff showed.
    Stale,
    /// The file in the working tree is not what the commit left, and the revert would discard it.
    ChangedSinceCommit,
    /// What is not written by this program.
    Unsupported,
    /// One hunk of a renamed or copied file: to apply it would move or add the whole file.
    RenameNeedsWholeFile,
    /// The hunk also holds changes that were hidden because white space is ignored.
    HiddenByWhitespace,
    Git(GitError),
}

/// What is said of a write that did not happen.
pub open spec fn message_of(error: ApplyError, action: ApplyAction, path: Seq<char>) -> Seq<char> {
    let front = action.name() + " failed — "@ + path;
    match error {
        ApplyError::Stale => front + " has changed since this diff was shown"@,
        ApplyError::ChangedSinceCommit => front
            + " no longer matches that commit; nothing changed"@,
        ApplyError::Unsupported => front + " is not a supported target"@,
        ApplyError::RenameNeedsWholeFile => front
            + " was renamed, which moves the whole file; "@ + action.lower_name()
            + " the file instead of a hunk"@,
        ApplyError::HiddenByWhitespace => front
            + ": this hunk also holds changes that \"ignore whitespace\" is hiding; turn it off to "@
            + action.lower_name() + " it"@,
        ApplyError::Git(e) => front + ": "@ + e.message@,
    }
}

impl ApplyError {
    /// What is said of the write.
    pub fn user_message(&self, action: ApplyAction, path: &str) -> (s: String)
        ensures
            s@ == message_of(*self, action, path@),
    {
        let mut s = String::from_str(action.verb());
        s.append(" failed — ");
        s.append(path);
        match self {
            ApplyError::Stale => s.append(" has changed since this diff was shown"),
            ApplyError::ChangedSinceCommit => s.append(
                " no longer matches that commit; nothing changed",
            ),
            ApplyError::Unsupported => s.append(" is not a supported target"),
            ApplyError::RenameNeedsWholeFile => {
                s.append(" was renamed, which moves the whole file; ");
                s.append(action.lower_verb());
                s.append(" the file instead of a hunk");
            },
            ApplyError::HiddenByWhitespace => {
                s.append(
                    ": this hunk also holds changes that \"ignore whitespace\" is hiding; turn it off to ",
                );
                s.append(action.lower_verb());
                s.append(" it");
            },
            ApplyError::Git(e) => {
                s.append(": ");
                s.append(&e.message);
            },
        }
        s
    }

    /// The error of git that was the cause.
    pub fn detail(&self) -> (e: Option<&GitError>)
        ensures
            match e {
                Some(e) => *self == ApplyError::Git(*e),
                None => *self !is Git,
            },
    {
        match self {
            ApplyError::Git(e) => Some(e),
            _ => None,
        }
    }
}

impl From<GitError> for ApplyError {
    fn from(e: GitError) -> (r: ApplyError) {
        ApplyError::Git(e)
    }
}

impl vstd::std_specs::convert::FromSpecImpl<GitError> for ApplyError {
    open spec fn obeys_from_spec() -> bool {
        true
    }

    open spec fn from_spec(e: GitError) -> ApplyError {
        ApplyError::Git(e)
    }
}

/// The action follows the row: the name of twenty bytes 0xFF stands for the uncommitted changes, which
/// are staged, the one of 0xFE for the staged changes, which are unstaged, and what any other name
/// stands for is reverted.
pub proof fn law_action_follows_the_row(req: ApplyRequest)
    ensures
        (forall|i: int| 0 <= i < 20 ==> req.oid.bytes@[i] == 0xFF) ==> req.action()
            == ApplyAction::Stage,
        (forall|i: int| 0 <= i < 20 ==> req.oid.bytes@[i] == 0xFE) ==> req.action()
            == ApplyAction::Unstage,
        (exists|i: int| 0 <= i < 20 && req.oid.bytes@[i] != 0xFF) && (exists|i: int|
            0 <= i < 20 && req.oid.bytes@[i] != 0xFE) ==> req.action() == ApplyAction::Revert,
{
    if forall|i: int| 0 <= i < 20 ==> req.oid.bytes@[i] == 0xFE {
        assert(req.oid.bytes@[0] == 0xFE);
    }
}

/// A renamed file comes from its old path, and no other file comes from any.
pub proof fn law_only_renames_have_a_source(req: ApplyRequest)
    ensures
        req.status == Delta::Renamed && req.old_path is Some ==> req.renamed_from() == Some(
            req.old_path->0@,
        ),
        req.status != Delta::Renamed || req.old_path is None ==> req.renamed_from() is None,
{
}

/// Every message names the action and the file, in that order; and where git failed, it ends with
/// what git said.
pub proof fn law_message_names_action_and_file(
    error: ApplyError,
    action: ApplyAction,
    path: Seq<char>,
)
    ensures
        ({
            let said = message_of(error, action, path);
            let verb = match action {
                ApplyAction::Stage => "Stage"@,
                ApplyAction::Unstage => "Unstage"@,
                ApplyAction::Revert => "Revert"@,
            };
            let lower = match action {
                ApplyAction::Stage => "stage"@,
                ApplyAction::Unstage => "unstage"@,
                ApplyAction::Revert => "revert"@,
            };
            let front = verb + " failed — "@ + path;
            &&& front.is_prefix_of(said)
            &&& error matches ApplyError::Git(e) ==> said.skip(front.len() as int) == ": "@
                + e.message@
            &&& error is RenameNeedsWholeFile ==> said.skip(front.len() as int)
                == " was renamed, which moves the whole file; "@ + lower
                + " the file instead of a hunk"@
            &&& error is HiddenByWhitespace ==> said.skip(front.len() as int)
                == ": this hunk also holds changes that \"ignore whitespace\" is hiding; turn it off to "@
                + lower + " it"@
            &&& error is Stale ==> said.skip(front.len() as int)
                == " has changed since this diff was shown"@
            &&& error is ChangedSinceCommit ==> said.skip(front.len() as int)
                == " no longer matches that commit; nothing changed"@
            &&& error is Unsupported ==> said.skip(front.len() as int)
                == " is not a supported target"@
        }),
{
    let said = message_of(error, action, path);
    let verb = action.name();
    let front = verb + " failed — "@ + path;
    assert(said.subrange(0, front.len() as int) =~= front);
    let rest = said.skip(front.len() as int);
    match error {
        ApplyError::Git(e) => {
            assert(rest =~= ": "@ + e.message@);
        },
        ApplyError::RenameNeedsWholeFile => {
            assert(rest =~= " was renamed, which moves the whole file; "@ + action.lower_name()
                + " the file instead of a hunk"@);
        },
        ApplyError::HiddenByWhitespace => {
            assert(rest
                =~= ": this hunk also holds changes that \"ignore whitespace\" is hiding; turn it off to "@
                + action.lower_name() + " it"@);
        },
        ApplyError::Stale => {
            assert(rest =~= " has changed since this diff was shown"@);
        },
        ApplyError::ChangedSinceCommit => {
            assert(rest =~= " no longer matches that commit; nothing changed"@);
        },
        ApplyError::Unsupported => {
            assert(rest =~= " is not a supported target"@);
        },
    }
}

} // verus!
