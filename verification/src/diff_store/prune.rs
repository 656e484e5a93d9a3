//! Keeping the store within its budget: what is left over from broken writes goes, and then the
//! entries that were not used for longest.

use vstd::prelude::*;

use crate::chars::{find, first_at, law_first_place_is_the_first};
use crate::order::{insertion_sort, sorted};
use crate::text::chars_of;

verus! {

/// The bytes of entries that are kept.
pub const DEFAULT_BUDGET_BYTES: u64 = 268_435_456;

/// How old a temporary file has to be to count as left over, in nanoseconds: one hour.
pub const TEMP_MAX_AGE: i128 = 3_600_000_000_000;

/// A file in the directory of the store. Times are in nanoseconds since the beginning of 1970.
pub struct StoredFile {
    pub name: String,
    /// Whether it is an ordinary file.
    pub is_file: bool,
    pub modified: i128,
    pub size: u64,
}

/// What becomes of a file in the directory of the store.
#[derive(Clone, Copy, PartialEq, Eq, Structural, Debug)]
pub enum FileFate {
    /// It is not of the store.
    Ignore,
    /// A temporary file that is left over.
    Sweep,
    /// A temporary file that is being written.
    Spare,
    /// An entry.
    Entry,
}

/// Whether the name is that of a temporary file.
pub open spec fn is_temp(name: Seq<char>) -> bool {
    first_at(name, ".tmp."@, 0) is Some
}

/// What becomes of a file, at the time `now`.
pub open spec fn fate_of(name: Seq<char>, is_file: bool, modified: int, now: int) -> FileFate {
    if !is_file {
        FileFate::Ignore
    } else if !is_temp(name) {
        FileFate::Entry
    } else if now - modified >= TEMP_MAX_AGE {
        FileFate::Sweep
    } else {
        FileFate::Spare
    }
}

/// What becomes of a file, at the time `now`.
pub fn file_fate(file: &StoredFile, now: i128) -> (fate: FileFate)
    ensures
        fate == fate_of(file.name@, file.is_file, file.modified as int, now as int),
{
    if !file.is_file {
        return FileFate::Ignore;
    }
    let name = chars_of(&file.name);
    let mark = chars_of(".tmp.");
    if find(&name, &mark).is_none() {
        return FileFate::Entry;
    }
    match file.modified.checked_add(TEMP_MAX_AGE) {
        Some(due) => if due <= now {
            FileFate::Sweep
        } else {
            FileFate::Spare
        },
        None => FileFate::Spare,
    }
}

/// Whether the first of two entries was used longer ago; of two used at the same time, the one that
/// was listed first.
pub open spec fn used_before(a: (i128, usize), b: (i128, usize)) -> bool {
    a.0 < b.0 || a.0 == b.0 && a.1 < b.1
}

/// The sum of the numbers from `i` on.
pub open spec fn sum_from(sizes: Seq<u64>, i: int) -> nat
    decreases sizes.len() - i,
{
    if 0 <= i < sizes.len() {
        sizes[i] as nat + sum_from(sizes, i + 1)
    } else {
        0
    }
}

/// Whether `order` lists the entries, each once, those used longest ago first.
pub open spec fn by_age(order: Seq<usize>, entries: Seq<(i128, u64)>) -> bool {
    &&& order.len() == entries.len()
    &&& forall|k: int| 0 <= k < order.len() ==> #[trigger] order[k] < entries.len()
    &&& forall|k: int, l: int| #![trigger order[k], order[l]]
        0 <= k < l < order.len() ==> used_before(
            (entries[order[k] as int].0, order[k]),
            (entries[order[l] as int].0, order[l]),
        )
}

/// The entries of the store on the way to the budget.
pub struct Pruner {
    /// The entries, those used longest ago first.
    order: Vec<usize>,
    /// The size of each entry, in that order.
    sizes: Vec<u64>,
    /// How many of them were dealt with.
    done: usize,
    total: u64,
    kept: usize,
    budget: u64,
}

impl Pruner {
    /// The entries in the order in which they go.
    pub closed spec fn order(self) -> Seq<usize> {
        self.order@
    }

    /// Their sizes.
    pub closed spec fn sizes(self) -> Seq<u64> {
        self.sizes@
    }

    /// How many of them were dealt with.
    pub closed spec fn done(self) -> int {
        self.done as int
    }

    /// The bytes of the entries that are there.
    pub closed spec fn bytes(self) -> int {
        self.total as int
    }

    /// The number of the entries that are there.
    pub closed spec fn count(self) -> int {
        self.kept as int
    }

    /// The bytes of entries that are kept.
    pub closed spec fn limit(self) -> int {
        self.budget as int
    }

    /// Whether every entry has its size, and those that were dealt with are among them; an entry
    /// that was not yet dealt with is there.
    pub closed spec fn wf(self) -> bool {
        &&& self.order@.len() == self.sizes@.len()
        &&& self.done <= self.order@.len()
        &&& self.order@.len() - self.done <= self.kept
    }

    /// Starts with all entries, each given by when it was used last and by its size.
    pub fn new(entries: &[(i128, u64)], budget: u64) -> (p: Pruner)
        requires
            entry_bytes(entries@, entries@.len() as int) <= u64::MAX,
        ensures
            p.wf(),
            by_age(p.order(), entries@),
            p.sizes() == p.order().map_values(|i: usize| entries@[i as int].1),
            p.done() == 0,
            p.bytes() == entry_bytes(entries@, entries@.len() as int),
            p.count() == entries@.len(),
            p.limit() == budget,
    {
        let mut keys: Vec<(i128, usize)> = Vec::new();
        let mut total: u64 = 0;
        let mut i: usize = 0;
        while i < entries.len()
            invariant
                i <= entries@.len(),
                entry_bytes(entries@, entries@.len() as int) <= u64::MAX,
                total == entry_bytes(entries@, i as int),
                keys@.len() == i,
                forall|k: int| 0 <= k < i ==> #[trigger] keys@[k] == (entries@[k].0, k as usize),
            decreases entries.len() - i,
        {
            proof {
                lemma_entry_bytes_grow(entries@, i + 1, entries@.len() as int);
            }
            total += entries[i].1;
            keys.push((entries[i].0, i));
            i += 1;
        }
        let ghost unsorted = keys@;
        let ghost lt = |a: (i128, usize), b: (i128, usize)| used_before(a, b);
        let less = |a: (i128, usize), b: (i128, usize)| -> (r: bool)
            ensures
                r == used_before(a, b),
            { a.0 < b.0 || (a.0 == b.0 && a.1 < b.1) };
        insertion_sort(&mut keys, less, Ghost(lt));
        proof {
            lemma_sorted_keys(unsorted, keys@, entries@);
        }
        let mut order: Vec<usize> = Vec::new();
        let mut sizes: Vec<u64> = Vec::new();
        let mut k: usize = 0;
        while k < keys.len()
            invariant
                k <= keys@.len(),
                order@.len() == k,
                sizes@.len() == k,
                forall|j: int| 0 <= j < keys@.len() ==> (#[trigger] keys@[j]).1 < entries@.len(),
                forall|j: int| 0 <= j < k ==> #[trigger] order@[j] == keys@[j].1,
                forall|j: int| 0 <= j < k ==> #[trigger] sizes@[j] == entries@[keys@[j].1 as int].1,
            decreases keys.len() - k,
        {
            order.push(keys[k].1);
            sizes.push(entries[keys[k].1].1);
            k += 1;
        }
        assert(sizes@ =~= order@.map_values(|i: usize| entries@[i as int].1));
        let kept: usize = order.len();
        Pruner { order, sizes, done: 0, total, kept, budget }
    }

    /// The entry that goes next; `None` once the budget is kept, or nothing is left to go.
    pub fn next(&self) -> (entry: Option<usize>)
        requires
            self.wf(),
        ensures
            entry == if self.bytes() > self.limit() && self.done() < self.order().len() {
                Some(self.order()[self.done()])
            } else {
                None
            },
    {
        if self.total > self.budget && self.done < self.order.len() {
            Some(self.order[self.done])
        } else {
            None
        }
    }

    /// Notes whether the entry that was to go is gone.
    pub fn removed(&mut self, gone: bool)
        requires
            old(self).wf(),
            old(self).done() < old(self).order().len(),
        ensures
            final(self).wf(),
            final(self).order() == old(self).order(),
            final(self).sizes() == old(self).sizes(),
            final(self).limit() == old(self).limit(),
            final(self).done() == old(self).done() + 1,
            final(self).count() == old(self).count() - if gone {
                1int
            } else {
                0
            },
            final(self).bytes() == if !gone {
                old(self).bytes()
            } else if old(self).bytes() > old(self).sizes()[old(self).done()] {
                old(self).bytes() - old(self).sizes()[old(self).done()]
            } else {
                0
            },
    {
        let len: usize = self.order.len();
        if gone {
            let size: u64 = self.sizes[self.done];
            self.total = if self.total > size {
                self.total - size
            } else {
                0
            };
            self.kept = self.kept - 1;
        }
        assert(self.done < len);
        self.done = self.done + 1;
    }

    /// The bytes of the entries that are there.
    pub fn total_bytes(&self) -> (n: u64)
        ensures
            n == self.bytes(),
    {
        self.total
    }

    /// The number of the entries that are there.
    pub fn entries_kept(&self) -> (n: usize)
        ensures
            n == self.count(),
    {
        self.kept
    }
}

/// The bytes of the first `n` entries.
pub open spec fn entry_bytes(entries: Seq<(i128, u64)>, n: int) -> nat
    decreases n,
{
    if n <= 0 {
        0
    } else {
        entry_bytes(entries, n - 1) + entries[n - 1].1 as nat
    }
}

proof fn lemma_entry_bytes_grow(entries: Seq<(i128, u64)>, i: int, n: int)
    requires
        i <= n,
    ensures
        entry_bytes(entries, i) <= entry_bytes(entries, n),
    decreases n - i,
{
    if i < n {
        lemma_entry_bytes_grow(entries, i, n - 1);
    }
}

proof fn lemma_sorted_keys(
    unsorted: Seq<(i128, usize)>,
    keys: Seq<(i128, usize)>,
    entries: Seq<(i128, u64)>,
)
    requires
        sorted(keys, |a: (i128, usize), b: (i128, usize)| used_before(a, b)),
        keys.to_multiset() == unsorted.to_multiset(),
        unsorted.len() == entries.len() == keys.len(),
        entries.len() <= usize::MAX,
        forall|k: int|
            0 <= k < unsorted.len() ==> #[trigger] unsorted[k] == (entries[k].0, k as usize),
    ensures
        forall|k: int| #![trigger keys[k]]
            0 <= k < keys.len() ==> keys[k].1 < entries.len() && keys[k].0
                == entries[keys[k].1 as int].0,
        forall|k: int, l: int| #![trigger keys[k], keys[l]]
            0 <= k < l < keys.len() ==> used_before(keys[k], keys[l]),
{
    broadcast use vstd::seq_lib::group_to_multiset_ensures;

    assert forall|k: int| #![trigger keys[k]] 0 <= k < keys.len() implies keys[k].1 < entries.len()
        && keys[k].0 == entries[keys[k].1 as int].0 by {
        assert(keys.to_multiset().count(keys[k]) > 0);
        assert(unsorted.contains(keys[k]));
        let l = choose|l: int| 0 <= l < unsorted.len() && unsorted[l] == keys[k];
        assert(unsorted[l] == keys[k]);
    }
    assert(unsorted.no_duplicates()) by {
        assert forall|k: int, l: int| 0 <= k < unsorted.len() && 0 <= l < unsorted.len() && k != l
            implies unsorted[k] != unsorted[l] by {}
    }
    unsorted.lemma_multiset_has_no_duplicates();
    keys.lemma_multiset_has_no_duplicates_conv();
    assert forall|k: int, l: int| #![trigger keys[k], keys[l]]
        0 <= k < l < keys.len() implies used_before(keys[k], keys[l]) by {
        let lt = |a: (i128, usize), b: (i128, usize)| used_before(a, b);
        assert(!lt(keys[l], keys[k]));
        assert(keys[k] != keys[l]);
    }
}

/// The bytes that are there once the store is within the budget, where every entry that is to go
/// goes.
pub open spec fn bytes_after(sizes: Seq<u64>, total: int, budget: int, done: int) -> int
    decreases sizes.len() - done,
{
    if total > budget && 0 <= done < sizes.len() {
        bytes_after(sizes, total - sizes[done], budget, done + 1)
    } else {
        total
    }
}

/// Where every entry that is to go goes, the store ends within the budget; and it loses nothing that
/// it need not: before the last entry went, it was over the budget.
pub proof fn law_prune_keeps_the_budget(sizes: Seq<u64>, budget: int, done: int)
    requires
        0 <= budget,
        0 <= done <= sizes.len(),
    ensures
        bytes_after(sizes, sum_from(sizes, done) as int, budget, done) <= budget,
        exists|k: int|
            done <= k <= sizes.len() && bytes_after(
                sizes,
                sum_from(sizes, done) as int,
                budget,
                done,
            ) == #[trigger] sum_from(sizes, k) && (k > done ==> sum_from(sizes, k - 1) > budget),
    decreases sizes.len() - done,
{
    let total = sum_from(sizes, done) as int;
    if total > budget && done < sizes.len() {
        law_prune_keeps_the_budget(sizes, budget, done + 1);
        let k = choose|k: int|
            done + 1 <= k <= sizes.len() && bytes_after(
                sizes,
                sum_from(sizes, done + 1) as int,
                budget,
                done + 1,
            ) == #[trigger] sum_from(sizes, k) && (k > done + 1 ==> sum_from(sizes, k - 1) > budget);
        assert(sum_from(sizes, k) >= 0);
        assert(k > done ==> sum_from(sizes, k - 1) > budget);
    } else {
        assert(sum_from(sizes, done) == total);
    }
}

/// A temporary file that was just written is neither swept nor counted; an entry is never swept.
pub proof fn law_fresh_temporary_files_stay(name: Seq<char>, modified: int, now: int)
    ensures
        is_temp(name) && now - modified < TEMP_MAX_AGE ==> fate_of(name, true, modified, now)
            == FileFate::Spare,
        !is_temp(name) ==> fate_of(name, true, modified, now) == FileFate::Entry,
        fate_of(name, true, modified, now) == FileFate::Sweep ==> is_temp(name) && now - modified
            >= TEMP_MAX_AGE,
{
}

/// A temporary file is told by its name, which holds `.tmp.` somewhere; it is swept an hour after it
/// was last written, and spared until then. Every other file is an entry, and what is no file is left
/// alone.
pub proof fn law_files_are_told_by_name_and_age(name: Seq<char>, modified: int, now: int)
    ensures
        fate_of(name, false, modified, now) == FileFate::Ignore,
        (exists|i: int|
            0 <= i && i + 5 <= name.len() && #[trigger] name.subrange(i, i + 5) == ".tmp."@)
            ==> fate_of(name, true, modified, now) == if now >= modified + 3_600_000_000_000 {
            FileFate::Sweep
        } else {
            FileFate::Spare
        },
        (forall|i: int|
            0 <= i && i + 5 <= name.len() ==> #[trigger] name.subrange(i, i + 5) != ".tmp."@)
            ==> fate_of(name, true, modified, now) == FileFate::Entry,
{
    reveal_strlit(".tmp.");
    law_first_place_is_the_first(name, ".tmp."@, 0);
}

/// Of two entries, the one that was used longer ago goes first, and of two that were used at the same
/// time the one that was listed first.
pub proof fn law_entries_go_by_age(
    order: Seq<usize>,
    entries: Seq<(i128, u64)>,
    k: int,
    l: int,
)
    requires
        by_age(order, entries),
        0 <= k < l < order.len(),
    ensures
        order.len() == entries.len(),
        order[k] != order[l],
        entries[order[k] as int].0 < entries[order[l] as int].0 || (entries[order[k] as int].0
            == entries[order[l] as int].0 && order[k] < order[l]),
{
    assert(used_before(
        (entries[order[k] as int].0, order[k]),
        (entries[order[l] as int].0, order[l]),
    ));
}

/// The bytes of entries add up, each once.
pub proof fn law_entry_bytes_add_up(entries: Seq<(i128, u64)>, n: int)
    requires
        0 <= n < entries.len(),
    ensures
        entry_bytes(entries, 0) == 0,
        entry_bytes(entries, n + 1) == entry_bytes(entries, n) + entries[n].1,
{
}

} // verus!
