//! The store: where its entries lie, what a read gives, and how an entry is written.

use vstd::prelude::*;
use vstd::string::*;
use vstd::utf8::encode_utf8;

use crate::chars::{
    first_at, law_first_place_is_the_first, law_parts_lie_between_separators,
    law_written_number_is_read, split,
};
use crate::diff::data::{DataView, DiffData, DiffSettings};
use crate::diff::options::utf8_of;
use crate::diff::row::{DiffSource, RowScope};
use crate::diff_store::codec::{
    data_bytes, decode, encode, fits, law_encoded_diff_is_read_back, spells, stored,
};
use crate::diff_store::key::{entry_key, join_path, joined_path, row_key, StoreContext};
use crate::diff_store::prune::is_temp;
use crate::oid::Oid;
use crate::text::{decimal, decimal_of};

verus! {

/// The store of diffs on disk.
pub struct DiffStore {
    root: Vec<u8>,
    context: StoreContext,
    min_build_ms: u64,
    warned: bool,
}

/// What a read of an entry gives.
pub enum Loaded {
    /// There is no entry.
    Miss,
    /// The entry holds no diff, and is to be removed.
    Corrupt,
    /// The diff; the entry counts as used now.
    Hit(DiffData),
}

impl DiffStore {
    /// The directory of the store.
    pub closed spec fn dir(self) -> Seq<u8> {
        self.root@
    }

    /// The fingerprint of the repository.
    pub closed spec fn digest(self) -> Seq<u8> {
        self.context.digest@
    }

    /// How long a diff has to take, in milliseconds, to be stored.
    pub closed spec fn threshold(self) -> u64 {
        self.min_build_ms
    }

    /// Whether a failed write was reported.
    pub closed spec fn has_warned(self) -> bool {
        self.warned
    }

    /// The store in the directory `root`.
    pub fn at(root: Vec<u8>, context: StoreContext, min_build_ms: u64) -> (store: DiffStore)
        ensures
            store.dir() == root@,
            store.digest() == context.digest@,
            store.threshold() == min_build_ms,
            !store.has_warned(),
    {
        DiffStore { root, context, min_build_ms, warned: false }
    }

    /// The directory of the store.
    pub fn root(&self) -> (root: &[u8])
        ensures
            root@ == self.dir(),
    {
        &self.root
    }

    /// How long a diff has to take, in milliseconds, to be stored.
    pub fn min_build(&self) -> (ms: u64)
        ensures
            ms == self.threshold(),
    {
        self.min_build_ms
    }

    /// Whether a diff that took so long to build is to be stored.
    pub fn worth_storing(&self, build_ms: u64) -> (r: bool)
        ensures
            r == (build_ms >= self.threshold()),
    {
        build_ms >= self.min_build_ms
    }

    /// Changes how long a diff has to take to be stored.
    pub fn set_min_build(&mut self, ms: u64)
        ensures
            final(self).threshold() == ms,
            final(self).dir() == old(self).dir(),
            final(self).digest() == old(self).digest(),
            final(self).has_warned() == old(self).has_warned(),
    {
        self.min_build_ms = ms;
    }

    /// Notes that a write failed: whether it is the first time, and is to be reported.
    pub fn warn_once(&mut self) -> (first: bool)
        ensures
            first == !old(self).has_warned(),
            final(self).has_warned(),
            final(self).threshold() == old(self).threshold(),
            final(self).dir() == old(self).dir(),
            final(self).digest() == old(self).digest(),
    {
        let first = !self.warned;
        self.warned = true;
        first
    }

    /// The key of a row; `None` for a row that is not stored, and where git refuses to give one.
    pub fn key(&self, scope: &RowScope, settings: DiffSettings) -> (key: Option<Oid>)
        ensures
            match key {
                Some(key) => row_key(self.digest(), scope.source, utf8_of(scope.paths@), settings)
                    == Some(key.bytes@),
                None => row_key(self.digest(), scope.source, utf8_of(scope.paths@), settings) is None,
            },
    {
        entry_key(&self.context, scope.source, &scope.paths, settings)
    }

    /// The file of the entry with that key.
    pub fn entry_path(&self, key: Oid) -> (path: Vec<u8>)
        ensures
            path@ == joined_path(self.dir(), encode_utf8(key.hex())),
    {
        let name = key.to_hex(40);
        assert(key.hex().take(40) =~= key.hex());
        join_path(&self.root, &name)
    }

    /// What the bytes of an entry give; `None` where there are none.
    pub fn load(bytes: Option<&[u8]>) -> (loaded: Loaded)
        ensures
            match (bytes, loaded) {
                (None, Loaded::Miss) => true,
                (Some(b), Loaded::Hit(data)) => spells(b@, data@) && fits(data@),
                (Some(b), Loaded::Corrupt) => forall|d: DataView|
                    !(#[trigger] spells(b@, d) && fits(d)),
                _ => false,
            },
    {
        match bytes {
            None => Loaded::Miss,
            Some(b) => match decode(b) {
                Some(data) => Loaded::Hit(data),
                None => Loaded::Corrupt,
            },
        }
    }

    /// The key and the bytes under which a diff is stored; `None` for a row that is not stored, and
    /// where git refuses to give a key.
    pub fn save(&self, scope: &RowScope, settings: DiffSettings, data: &DiffData) -> (entry: Option<
        (Oid, Vec<u8>),
    >)
        requires
            forall|i: int| #![trigger data.files@[i]]
                0 <= i < data.files@.len() ==> (data.files@[i].diff_line_idx matches Some(idx) ==> idx
                    < u64::MAX),
        ensures
            match entry {
                Some((key, bytes)) => row_key(
                    self.digest(),
                    scope.source,
                    utf8_of(scope.paths@),
                    settings,
                ) == Some(key.bytes@) && bytes@ == data_bytes(data@) && fits(stored(data@)),
                None => row_key(self.digest(), scope.source, utf8_of(scope.paths@), settings) is None,
            },
    {
        match self.key(scope, settings) {
            Some(key) => Some((key, encode(data))),
            None => None,
        }
    }
}

/// An error of the file system.
pub struct IoError {
    /// Whether the file was there already.
    pub already_exists: bool,
    pub message: String,
}

/// How many names are tried for a temporary file.
pub const TEMP_NAMES: u32 = 64;

/// The name of a temporary file for the entry with that key.
pub open spec fn temp_name_of(key: Oid, pid: nat, n: nat) -> Seq<char> {
    key.hex() + ".tmp."@ + decimal_of(pid) + "."@ + decimal_of(n)
}

/// The name of a temporary file for the entry with that key.
pub fn temp_name(key: Oid, pid: u32, n: u32) -> (name: String)
    ensures
        name@ == temp_name_of(key, pid as nat, n as nat),
{
    let mut name = key.to_hex(40);
    assert(key.hex().take(40) =~= key.hex());
    name.append(".tmp.");
    name.append(&decimal(pid as u64));
    name.append(".");
    name.append(&decimal(n as u64));
    name
}

/// What is to be done next to write an entry.
pub enum WriteStep {
    /// Make the directory of the store.
    MakeDir,
    /// Create the temporary file with that number, which must not exist.
    Create(u32),
    /// Write the bytes to it.
    Write(u32),
    /// Give it the name of the entry.
    Rename(u32),
    /// Remove it, for it could not be written.
    RemoveTemp(u32, IoError),
}

/// What is to be done next, or how the writing ended.
pub enum WriteNext {
    Do(WriteStep),
    Finish(Result<(), IoError>),
}

/// Whether `next` is what is to be done after the step `last`, of which `outcome` came. Where all
/// names are taken, the error says so.
pub open spec fn write_after(last: WriteStep, outcome: Result<(), IoError>, next: WriteNext) -> bool {
    match (last, outcome) {
        (WriteStep::MakeDir, Ok(_)) => next == WriteNext::Do(WriteStep::Create(0)),
        (WriteStep::Create(n), Ok(_)) => next == WriteNext::Do(WriteStep::Write(n)),
        (WriteStep::Create(n), Err(e)) => if !e.already_exists {
            next == WriteNext::Finish(Err(e))
        } else if n + 1 < TEMP_NAMES {
            next == WriteNext::Do(WriteStep::Create((n + 1) as u32))
        } else {
            next matches WriteNext::Finish(Err(e)) && e.already_exists && e.message@
                == "no free temp name"@
        },
        (WriteStep::Write(n), Ok(_)) => next == WriteNext::Do(WriteStep::Rename(n)),
        (WriteStep::Write(n), Err(e)) => next == WriteNext::Do(WriteStep::RemoveTemp(n, e)),
        (WriteStep::RemoveTemp(_, e), _) => next == WriteNext::Finish(Err(e)),
        (WriteStep::Rename(_), done) => next == WriteNext::Finish(done),
        (WriteStep::MakeDir, Err(e)) => next == WriteNext::Finish(Err(e)),
    }
}

/// What is to be done after the step `last`, of which `outcome` came. The first step is `MakeDir`.
pub fn write_atomic(last: WriteStep, outcome: Result<(), IoError>) -> (next: WriteNext)
    requires
        last matches WriteStep::Create(n) ==> n < TEMP_NAMES,
    ensures
        write_after(last, outcome, next),
{
    match last {
        WriteStep::MakeDir => match outcome {
            Ok(()) => WriteNext::Do(WriteStep::Create(0)),
            Err(e) => WriteNext::Finish(Err(e)),
        },
        WriteStep::Create(n) => match outcome {
            Ok(()) => WriteNext::Do(WriteStep::Write(n)),
            Err(e) => if !e.already_exists {
                WriteNext::Finish(Err(e))
            } else if n + 1 < TEMP_NAMES {
                WriteNext::Do(WriteStep::Create(n + 1))
            } else {
                WriteNext::Finish(
                    Err(
                        IoError {
                            already_exists: true,
                            message: String::from_str("no free temp name"),
                        },
                    ),
                )
            },
        },
        WriteStep::Write(n) => match outcome {
            Ok(()) => WriteNext::Do(WriteStep::Rename(n)),
            Err(e) => WriteNext::Do(WriteStep::RemoveTemp(n, e)),
        },
        WriteStep::Rename(_) => WriteNext::Finish(outcome),
        WriteStep::RemoveTemp(_, e) => WriteNext::Finish(Err(e)),
    }
}

/// An entry gets its name only when all of its bytes were written, to a file that this writer
/// created: no reader sees a part of it, nor the bytes of two writers.
pub proof fn law_entry_appears_whole(last: WriteStep, outcome: Result<(), IoError>, next: WriteNext)
    requires
        write_after(last, outcome, next),
    ensures
        next matches WriteNext::Do(WriteStep::Rename(n)) ==> last == WriteStep::Write(n)
            && outcome is Ok,
        next matches WriteNext::Do(WriteStep::Write(n)) ==> last == WriteStep::Create(n)
            && outcome is Ok,
        (next matches WriteNext::Finish(done) && done is Ok) ==> last is Rename && outcome is Ok,
{
}

/// What is stored under the key of a diff is read back as that diff without its colours and changed
/// words: no other reading of it is right.
pub proof fn law_store_gives_back_what_it_took(d: DataView, back: DataView)
    requires
        fits(stored(d)),
        fits(back),
        spells(data_bytes(d), back),
    ensures
        back == stored(d),
{
    law_encoded_diff_is_read_back(d, back);
}

/// An entry is written in four steps where none fails: the directory is made, a temporary file created,
/// its bytes written, and the entry's name given to it. A name that is taken leads to the next one, up
/// to sixty-four of them; a file that could not be written is removed; and every other failure ends
/// the writing with its error.
pub proof fn law_entry_is_written_in_four_steps(
    n: u32,
    next: WriteNext,
    e: IoError,
    outcome: Result<(), IoError>,
)
    requires
        n < 64,
    ensures
        write_after(WriteStep::MakeDir, Ok(()), next) <==> next == WriteNext::Do(
            WriteStep::Create(0),
        ),
        write_after(WriteStep::Create(n), Ok(()), next) <==> next == WriteNext::Do(
            WriteStep::Write(n),
        ),
        write_after(WriteStep::Write(n), Ok(()), next) <==> next == WriteNext::Do(
            WriteStep::Rename(n),
        ),
        write_after(WriteStep::Rename(n), outcome, next) <==> next == WriteNext::Finish(outcome),
        write_after(WriteStep::MakeDir, Err(e), next) <==> next == WriteNext::Finish(Err(e)),
        e.already_exists && n < 63 ==> (write_after(WriteStep::Create(n), Err(e), next) <==> next
            == WriteNext::Do(WriteStep::Create((n + 1) as u32))),
        e.already_exists && n == 63 && write_after(WriteStep::Create(n), Err(e), next) ==> (
        next matches WriteNext::Finish(done) && done is Err),
        !e.already_exists ==> (write_after(WriteStep::Create(n), Err(e), next) <==> next
            == WriteNext::Finish(Err(e))),
        write_after(WriteStep::Write(n), Err(e), next) <==> next == WriteNext::Do(
            WriteStep::RemoveTemp(n, e),
        ),
        write_after(WriteStep::RemoveTemp(n, e), outcome, next) <==> next == WriteNext::Finish(
            Err(e),
        ),
{
}

/// The name of a temporary file starts with that of its entry, and tells it as temporary; the name of
/// an entry does not.
pub proof fn law_temporary_names_are_told(key: Oid, pid: nat, n: nat)
    ensures
        key.hex().is_prefix_of(temp_name_of(key, pid, n)),
        is_temp(temp_name_of(key, pid, n)),
        !is_temp(key.hex()),
{
    reveal_strlit(".tmp.");
    let name = temp_name_of(key, pid, n);
    assert(name.subrange(0, 40) =~= key.hex());
    law_first_place_is_the_first(name, ".tmp."@, 0);
    assert(name.subrange(40, 45) =~= ".tmp."@);
    if first_at(name, ".tmp."@, 0) is None {
        assert(name.subrange(40, 40int + ".tmp."@.len()) != ".tmp."@);
    }
    law_first_place_is_the_first(key.hex(), ".tmp."@, 0);
    if first_at(key.hex(), ".tmp."@, 0) is Some {
        let k = first_at(key.hex(), ".tmp."@, 0)->0;
        assert(key.hex().subrange(k, k + 5)[0] == '.');
        assert(key.hex()[k] == '.');
        crate::oid::law_name_is_written_in_hexadecimal(key, k / 2);
    }
}

/// No two writers share a temporary file: the name tells the entry, the process and the try apart.
pub proof fn law_temporary_names_are_told_apart(
    key: Oid,
    pid: nat,
    n: nat,
    key2: Oid,
    pid2: nat,
    n2: nat,
)
    requires
        temp_name_of(key, pid, n) == temp_name_of(key2, pid2, n2),
    ensures
        key.hex() == key2.hex(),
        pid == pid2,
        n == n2,
{
    reveal_strlit(".tmp.");
    reveal_strlit(".");
    let a = temp_name_of(key, pid, n);
    let b = temp_name_of(key2, pid2, n2);
    assert(a.take(40) =~= key.hex());
    assert(b.take(40) =~= key2.hex());
    let x = decimal_of(pid);
    let y = decimal_of(n);
    let x2 = decimal_of(pid2);
    let y2 = decimal_of(n2);
    assert("."@ =~= seq!['.']);
    assert(a.skip(45) =~= x.push('.') + y);
    assert(b.skip(45) =~= x2.push('.') + y2);
    lemma_decimal_has_no_stop(pid);
    lemma_decimal_has_no_stop(n);
    lemma_decimal_has_no_stop(pid2);
    lemma_decimal_has_no_stop(n2);
    law_parts_lie_between_separators(x, y, '.');
    law_parts_lie_between_separators(y, Seq::empty(), '.');
    law_parts_lie_between_separators(x2, y2, '.');
    law_parts_lie_between_separators(y2, Seq::empty(), '.');
    let p = split(x.push('.') + y, '.');
    let q = split(x2.push('.') + y2, '.');
    assert(p =~= seq![x, y]);
    assert(q =~= seq![x2, y2]);
    assert(p[0] == q[0] && p[1] == q[1]);
    let top = pid + n + pid2 + n2;
    law_written_number_is_read(pid, top);
    law_written_number_is_read(n, top);
    law_written_number_is_read(pid2, top);
    law_written_number_is_read(n2, top);
}

proof fn lemma_decimal_has_no_stop(n: nat)
    ensures
        !decimal_of(n).contains('.'),
{
    law_written_number_is_read(n, n);
    let s = decimal_of(n);
    if s.contains('.') {
        let i = choose|i: int| 0 <= i < s.len() && s[i] == '.';
        assert('0' <= s[i] <= '9');
    }
}

} // verus!
