//! A cache with a budget: each entry has a weight, and the entries that were put in longest ago go
//! once the weights together exceed the budget.

use std::collections::HashMap;
use std::hash::Hash;
use vstd::pervasive::cloned;
use vstd::prelude::*;
use vstd::std_specs::hash::obeys_key_model;

verus! {

struct Entry<V> {
    value: V,
    /// When the entry was put in: the smallest was put in longest ago.
    last_used: u64,
    weight: usize,
}

/// What the cache holds under a key.
pub struct Slot<V> {
    pub value: V,
    pub weight: nat,
    /// When it was put in.
    pub used: nat,
}

/// The cache.
pub struct DiffCache<K, V> {
    entries: HashMap<K, Entry<V>>,
    total: usize,
    budget: usize,
    clock: u64,
}

/// Whether the type can be used for keys: its hashes and comparisons can be relied on, and a clone
/// of a key is that key.
pub open spec fn is_key_type<K: Clone>() -> bool {
    &&& obeys_key_model::<K>()
    &&& forall|a: K, b: K| #[trigger] cloned::<K>(a, b) ==> a == b
}

/// The weights together.
pub open spec fn weight_of<K, V>(m: Map<K, Slot<V>>) -> nat
    decreases m.dom().len(),
    when m.dom().finite()
{
    if m.dom().len() == 0 {
        0
    } else {
        let k = m.dom().choose();
        m[k].weight + weight_of(m.remove(k))
    }
}

/// Whether the entry under the key was put in longest ago.
pub open spec fn is_oldest<K, V>(m: Map<K, Slot<V>>, k: K) -> bool {
    &&& m.contains_key(k)
    &&& forall|j: K| #[trigger] m.contains_key(j) ==> m[k].used <= m[j].used
}

/// The key of the entry that was put in longest ago.
pub open spec fn oldest<K, V>(m: Map<K, Slot<V>>) -> K {
    choose|k: K| is_oldest(m, k)
}

/// What is left once the entries that were put in longest ago have gone, one by one, until the
/// budget is kept or one entry is left.
pub open spec fn within<K, V>(m: Map<K, Slot<V>>, budget: nat) -> Map<K, Slot<V>>
    decreases m.dom().len(),
    when m.dom().finite()
{
    if weight_of(m) > budget && m.dom().len() > 1 && m.contains_key(oldest(m)) {
        within(m.remove(oldest(m)), budget)
    } else {
        m
    }
}

/// Whether no two entries were put in at the same time, and none after `clock`.
pub open spec fn stamped<K, V>(m: Map<K, Slot<V>>, clock: nat) -> bool {
    &&& m.dom().finite()
    &&& forall|k: K| #[trigger] m.contains_key(k) ==> m[k].used <= clock
    &&& forall|j: K, k: K| #![trigger m.contains_key(j), m.contains_key(k)]
        m.contains_key(j) && m.contains_key(k) && m[j].used == m[k].used ==> j == k
}

proof fn lemma_weight_remove<K, V>(m: Map<K, Slot<V>>, k: K)
    requires
        m.dom().finite(),
        m.contains_key(k),
    ensures
        weight_of(m) == m[k].weight + weight_of(m.remove(k)),
    decreases m.dom().len(),
{
    let c = m.dom().choose();
    if c != k {
        lemma_weight_remove(m.remove(c), k);
        lemma_weight_remove(m.remove(k), c);
        assert(m.remove(c).remove(k) =~= m.remove(k).remove(c));
    }
}

proof fn lemma_weight_insert<K, V>(m: Map<K, Slot<V>>, k: K, s: Slot<V>)
    requires
        m.dom().finite(),
    ensures
        weight_of(m.insert(k, s)) == s.weight + weight_of(m.remove(k)),
{
    lemma_weight_remove(m.insert(k, s), k);
    assert(m.insert(k, s).remove(k) =~= m.remove(k));
}

proof fn lemma_remove_absent<K, V>(m: Map<K, Slot<V>>, k: K)
    requires
        !m.contains_key(k),
    ensures
        m.remove(k) == m,
{
    assert(m.remove(k) =~= m);
}

/// The entry that was put in longest ago is the one that `oldest` names.
proof fn lemma_oldest<K, V>(m: Map<K, Slot<V>>, clock: nat, k: K)
    requires
        stamped(m, clock),
        is_oldest(m, k),
    ensures
        oldest(m) == k,
{
    let o = oldest(m);
    assert(is_oldest(m, o));
    assert(m.contains_key(o) && m.contains_key(k));
}

impl<V> Entry<V> {
    spec fn slot(self) -> Slot<V> {
        Slot { value: self.value, weight: self.weight as nat, used: self.last_used as nat }
    }
}

impl<K, V> View for DiffCache<K, V> {
    type V = Map<K, Slot<V>>;

    closed spec fn view(&self) -> Map<K, Slot<V>> {
        Map::new(|k: K| self.entries@.contains_key(k), |k: K| self.entries@[k].slot())
    }
}

impl<K: Clone + Eq + Hash, V> DiffCache<K, V> {
    /// Whether the weights are summed up right, and the entries told apart by when they were put in.
    pub open spec fn wf(self) -> bool {
        &&& is_key_type::<K>()
        &&& stamped(self@, self.inserted())
        &&& self.total_weight() == weight_of(self@)
    }

    /// What is kept of the weights together.
    pub closed spec fn total_weight(self) -> nat {
        self.total as nat
    }

    /// The budget.
    pub closed spec fn limit(self) -> nat {
        self.budget as nat
    }

    /// How often something was put in.
    pub closed spec fn inserted(self) -> nat {
        self.clock as nat
    }

    /// The empty cache.
    pub fn new(budget: usize) -> (c: DiffCache<K, V>)
        requires
            is_key_type::<K>(),
        ensures
            c.wf(),
            c@ == Map::<K, Slot<V>>::empty(),
            c.limit() == budget,
            c.inserted() == 0,
    {
        let c = DiffCache { entries: HashMap::new(), total: 0, budget, clock: 0 };
        assert(c@ =~= Map::<K, Slot<V>>::empty());
        c
    }

    /// Takes an entry out.
    pub fn remove(&mut self, key: &K) -> (value: Option<V>)
        requires
            old(self).wf(),
        ensures
            final(self).wf(),
            final(self)@ == old(self)@.remove(*key),
            final(self).limit() == old(self).limit(),
            final(self).inserted() == old(self).inserted(),
            match value {
                Some(v) => old(self)@.contains_key(*key) && v == old(self)@[*key].value,
                None => !old(self)@.contains_key(*key),
            },
    {
        broadcast use vstd::std_specs::hash::group_hash_axioms;

        let ghost before = self@;
        let removed = self.entries.remove(key);
        assert(self@ =~= before.remove(*key));
        match removed {
            Some(entry) => {
                proof {
                    lemma_weight_remove(before, *key);
                }
                self.total = self.total - entry.weight;
                Some(entry.value)
            },
            None => {
                proof {
                    lemma_remove_absent(before, *key);
                }
                None
            },
        }
    }

    /// Whether there is an entry under the key.
    pub fn contains(&self, key: &K) -> (r: bool)
        requires
            self.wf(),
        ensures
            r == self@.contains_key(*key),
    {
        broadcast use vstd::std_specs::hash::group_hash_axioms;

        self.entries.contains_key(key)
    }

    /// The key of the entry that was put in longest ago.
    fn oldest_key(&self) -> (key: Option<K>)
        requires
            is_key_type::<K>(),
            stamped(self@, self.clock as nat),
            self@.dom().len() > 0,
        ensures
            key matches Some(key) && is_oldest(self@, key),
    {
        broadcast use vstd::std_specs::hash::group_hash_axioms;

        let ghost m = self@;
        let mut best: Option<(&K, u64)> = None;
        assert(m.dom() =~= self.entries@.dom());
        for (k, e) in it: self.entries.iter()
            invariant
                m == self@,
                m.dom() == self.entries@.dom(),
                it.seq().len() == m.dom().len(),
                forall|i: int| #![trigger it.seq()[i]]
                    0 <= i < it.seq().len() ==> self.entries@.contains_key(*it.seq()[i].0)
                        && self.entries@[*it.seq()[i].0] == *it.seq()[i].1,
                match best {
                    Some((b, used)) => m.contains_key(*b) && m[*b].used == used && forall|i: int|
                        0 <= i < it.index() ==> used <= (#[trigger] it.seq()[i]).1.last_used,
                    None => it.index() == 0,
                },
        {
            assert(m.contains_key(*k) && m[*k] == e.slot());
            best = match best {
                Some((b, used)) => if e.last_used < used {
                    Some((k, e.last_used))
                } else {
                    Some((b, used))
                },
                None => Some((k, e.last_used)),
            };
        }
        match best {
            Some((b, used)) => {
                let key = b.clone();
                assert(cloned::<K>(*b, key));
                assert forall|j: K| #[trigger] m.contains_key(j) implies m[*b].used
                    <= m[j].used by {
                    assert(self.entries@.contains_key(j));
                }
                Some(key)
            },
            None => None,
        }
    }

    /// Puts an entry in, in place of one under the same key; then the entries that were put in
    /// longest ago go until the budget is kept. One entry always stays.
    pub fn insert(&mut self, key: K, value: V, weight: usize)
        requires
            old(self).wf(),
            old(self).inserted() < u64::MAX,
            weight_of(old(self)@.remove(key)) + weight <= usize::MAX,
        ensures
            final(self).wf(),
            final(self)@ == within(
                old(self)@.insert(
                    key,
                    (Slot { value, weight: weight as nat, used: old(self).inserted() + 1 }),
                ),
                old(self).limit(),
            ),
            final(self).limit() == old(self).limit(),
            final(self).inserted() == old(self).inserted() + 1,
    {
        broadcast use vstd::std_specs::hash::group_hash_axioms;

        let ghost before = self@;
        let ghost slot = Slot { value, weight: weight as nat, used: self.clock as nat + 1 };
        let ghost start = before.insert(key, slot);
        self.clock = self.clock + 1;
        let replaced = self.entries.insert(key, Entry { value, last_used: self.clock, weight });
        assert(self@ =~= start);
        proof {
            lemma_weight_insert(before, key, slot);
            if before.contains_key(key) {
                lemma_weight_remove(before, key);
            } else {
                lemma_remove_absent(before, key);
            }
        }
        if let Some(entry) = replaced {
            self.total = self.total - entry.weight;
        }
        self.total = self.total + weight;
        while self.total > self.budget && self.entries.len() > 1
            invariant
                is_key_type::<K>(),
                stamped(self@, self.clock as nat),
                self.total == weight_of(self@),
                self.clock == old(self).clock + 1,
                self.budget == old(self).budget,
                within(self@, self.budget as nat) == within(start, self.budget as nat),
            decreases self@.dom().len(),
        {
            let ghost m = self@;
            assert(m.dom() =~= self.entries@.dom());
            if let Some(key) = self.oldest_key() {
                proof {
                    lemma_oldest(m, self.clock as nat, key);
                    lemma_weight_remove(m, key);
                }
                if let Some(evicted) = self.entries.remove(&key) {
                    self.total = self.total - evicted.weight;
                }
                assert(self@ =~= m.remove(key));
            }
        }
        assert(self@.dom() =~= self.entries@.dom());
    }
}

/// After an entry was put in, the budget is kept or one entry is left, and the new entry is there.
pub proof fn law_insert_keeps_the_budget<K, V>(
    m: Map<K, Slot<V>>,
    clock: nat,
    key: K,
    slot: Slot<V>,
    budget: nat,
)
    requires
        stamped(m, clock),
        slot.used == clock + 1,
    ensures
        ({
            let after = within(m.insert(key, slot), budget);
            &&& weight_of(after) <= budget || after.dom().len() == 1
            &&& after.contains_key(key) && after[key] == slot
            &&& stamped(after, clock + 1)
        }),
{
    let start = m.insert(key, slot);
    assert(start.contains_key(key));
    lemma_within(start, clock + 1, key, budget);
}

proof fn lemma_within<K, V>(m: Map<K, Slot<V>>, clock: nat, newest: K, budget: nat)
    requires
        stamped(m, clock),
        m.contains_key(newest),
        m[newest].used == clock,
    ensures
        ({
            let after = within(m, budget);
            &&& weight_of(after) <= budget || after.dom().len() == 1
            &&& after.contains_key(newest) && after[newest] == m[newest]
            &&& stamped(after, clock)
            &&& after.submap_of(m)
            &&& forall|j: K, k: K| #![trigger after.contains_key(j), m.contains_key(k)]
                after.contains_key(j) && m.contains_key(k) && !after.contains_key(k) ==> m[k].used
                    < m[j].used
        }),
    decreases m.dom().len(),
{
    assert(m.dom().len() > 0) by {
        assert(m.dom().contains(newest));
        if m.dom().len() == 0 {
            assert(m.dom() =~= Set::empty());
        }
    }
    if weight_of(m) > budget && m.dom().len() > 1 {
        let o = lemma_has_oldest(m, clock);
        lemma_oldest(m, clock, o);
        lemma_oldest_is_not_newest(m, clock, newest, o);
        let rest = m.remove(o);
        assert(rest.contains_key(newest));
        lemma_within(rest, clock, newest, budget);
        let after = within(m, budget);
        assert(after == within(rest, budget));
        assert forall|j: K, k: K| #![trigger after.contains_key(j), m.contains_key(k)]
            after.contains_key(j) && m.contains_key(k) && !after.contains_key(k) implies m[k].used
            < m[j].used by {
            assert(rest.contains_key(j) && m.contains_key(j));
            if k != o {
                assert(rest.contains_key(k));
            } else {
                assert(m[o].used <= m[j].used);
            }
        }
    }
}

/// Some entry was put in longest ago.
proof fn lemma_has_oldest<K, V>(m: Map<K, Slot<V>>, clock: nat) -> (k: K)
    requires
        stamped(m, clock),
        m.dom().len() > 0,
    ensures
        is_oldest(m, k),
    decreases m.dom().len(),
{
    let c = m.dom().choose();
    assert(m.contains_key(c));
    let rest = m.remove(c);
    if rest.dom().len() == 0 {
        assert forall|j: K| #[trigger] m.contains_key(j) implies m[c].used <= m[j].used by {
            if j != c {
                assert(rest.dom().contains(j));
            }
        }
        c
    } else {
        let o = lemma_has_oldest(rest, clock);
        assert(rest.contains_key(o));
        let k = if m[c].used <= m[o].used {
            c
        } else {
            o
        };
        assert forall|j: K| #[trigger] m.contains_key(j) implies m[k].used <= m[j].used by {
            if j != c {
                assert(rest.contains_key(j));
            }
        }
        k
    }
}

/// Whether all that is not in `kept` was put in before all that is.
pub open spec fn keeps_newest<K, V>(kept: Map<K, Slot<V>>, m: Map<K, Slot<V>>) -> bool {
    &&& kept.submap_of(m)
    &&& forall|j: K, k: K| #![trigger kept.contains_key(j), m.contains_key(k)]
        kept.contains_key(j) && m.contains_key(k) && !kept.contains_key(k) ==> m[k].used < m[j].used
}

/// No fewer entries could go: whatever else is kept when the oldest go, and keeps the budget, is kept.
/// Nothing goes where the budget is kept already.
pub proof fn law_no_fewer_entries_could_go<K, V>(
    m: Map<K, Slot<V>>,
    clock: nat,
    newest: K,
    budget: nat,
    kept: Map<K, Slot<V>>,
)
    requires
        stamped(m, clock),
        m.contains_key(newest),
        m[newest].used == clock,
        keeps_newest(kept, m),
        weight_of(kept) <= budget,
    ensures
        kept.submap_of(within(m, budget)),
        keeps_newest(within(m, budget), m),
        weight_of(m) <= budget ==> within(m, budget) == m,
    decreases m.dom().len(),
{
    lemma_within(m, clock, newest, budget);
    if weight_of(m) > budget && m.dom().len() > 1 {
        let o = lemma_has_oldest(m, clock);
        lemma_oldest(m, clock, o);
        let rest = m.remove(o);
        assert(within(m, budget) == within(rest, budget));
        assert(within(m, budget).contains_key(newest));
        lemma_oldest_is_not_newest(m, clock, newest, o);
        assert(rest.contains_key(newest));
        assert(!kept.contains_key(o)) by {
            if kept.contains_key(o) {
                assert forall|k: K| #[trigger] m.contains_key(k) implies kept.contains_key(k) by {
                    if !kept.contains_key(k) {
                        assert(m[k].used < m[o].used);
                    }
                }
                assert(kept.dom() =~= m.dom());
                assert(kept =~= m);
            }
        }
        assert(kept.submap_of(rest));
        assert forall|j: K, k: K| #![trigger kept.contains_key(j), rest.contains_key(k)]
            kept.contains_key(j) && rest.contains_key(k) && !kept.contains_key(k) implies rest[k].used
            < rest[j].used by {
            assert(m.contains_key(k));
            assert(rest.contains_key(j));
        }
        law_no_fewer_entries_could_go(rest, clock, newest, budget, kept);
    }
}

/// Of more than one entry, the newest is not the oldest.
proof fn lemma_oldest_is_not_newest<K, V>(m: Map<K, Slot<V>>, clock: nat, newest: K, o: K)
    requires
        stamped(m, clock),
        m.contains_key(newest),
        m[newest].used == clock,
        is_oldest(m, o),
        m.dom().len() > 1,
    ensures
        o != newest,
{
    if o == newest {
        assert forall|j: K| #[trigger] m.dom().contains(j) implies j == newest by {
            assert(m.contains_key(j) && m.contains_key(newest));
        }
        assert(m.dom() =~= set![newest]);
    }
}

/// What goes was put in before all that stays, and what stays is unchanged.
pub proof fn law_oldest_entries_go_first<K, V>(
    m: Map<K, Slot<V>>,
    clock: nat,
    newest: K,
    budget: nat,
    gone: K,
    stays: K,
)
    requires
        stamped(m, clock),
        m.contains_key(newest),
        m[newest].used == clock,
        m.contains_key(gone),
        !within(m, budget).contains_key(gone),
        within(m, budget).contains_key(stays),
    ensures
        m.contains_key(stays),
        within(m, budget)[stays] == m[stays],
        m[gone].used < m[stays].used,
{
    lemma_within(m, clock, newest, budget);
}

/// The weights together are those of the entries: none weigh nothing, and one more entry weighs as much
/// more as it does.
pub proof fn law_weights_add_up<K, V>(m: Map<K, Slot<V>>, k: K, slot: Slot<V>)
    requires
        m.dom().finite(),
        !m.contains_key(k),
    ensures
        weight_of(Map::<K, Slot<V>>::empty()) == 0,
        weight_of(m.insert(k, slot)) == weight_of(m) + slot.weight,
{
    lemma_weight_insert(m, k, slot);
    lemma_remove_absent(m, k);
}

} // verus!
