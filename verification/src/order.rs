//! Sorting.

use vstd::prelude::*;

verus! {

/// Whether `lt` orders all values: nothing comes before itself, and what does not come after holds
/// along a chain.
pub open spec fn orders<T>(lt: spec_fn(T, T) -> bool) -> bool {
    &&& forall|a: T| !#[trigger] lt(a, a)
    &&& forall|a: T, b: T, c: T| #![trigger lt(b, a), lt(c, b)] !lt(b, a) && !lt(c, b) ==> !lt(c, a)
    &&& forall|a: T, b: T| #[trigger] lt(a, b) ==> !lt(b, a)
}

/// Whether no element comes before an earlier one.
pub open spec fn sorted<T>(s: Seq<T>, lt: spec_fn(T, T) -> bool) -> bool {
    forall|i: int, j: int| 0 <= i < j < s.len() ==> !lt(#[trigger] s[j], #[trigger] s[i])
}

/// Sorts in place, by inserting each element among those before it.
pub fn insertion_sort<T: Copy, F: Fn(T, T) -> bool>(
    v: &mut Vec<T>,
    less: F,
    Ghost(lt): Ghost<spec_fn(T, T) -> bool>,
)
    requires
        orders(lt),
        forall|a: T, b: T| #[trigger] call_requires(less, (a, b)),
        forall|a: T, b: T, r: bool| #[trigger] call_ensures(less, (a, b), r) ==> r == lt(a, b),
    ensures
        sorted(final(v)@, lt),
        final(v)@.to_multiset() == old(v)@.to_multiset(),
        final(v)@.len() == old(v)@.len(),
{
    let ghost before = v@;
    let n: usize = v.len();
    let mut i: usize = 0;
    while i < n
        invariant
            i <= n == v@.len() == before.len(),
            orders(lt),
            forall|a: T, b: T| #[trigger] call_requires(less, (a, b)),
            forall|a: T, b: T, r: bool| #[trigger] call_ensures(less, (a, b), r) ==> r == lt(a, b),
            sorted(v@.take(i as int), lt),
            v@.to_multiset() == before.to_multiset(),
        decreases n - i,
    {
        let mut j: usize = i;
        proof {
            let part = v@.take(i as int);
            assert forall|p: int, q: int| 0 <= p < q < i implies !lt(
                #[trigger] v@[q],
                #[trigger] v@[p],
            ) by {
                assert(part[q] == v@[q] && part[p] == v@[p]);
            }
        }
        while j > 0 && less(v[j], v[j - 1])
            invariant
                j <= i < n == v@.len(),
                orders(lt),
                forall|a: T, b: T| #[trigger] call_requires(less, (a, b)),
                forall|a: T, b: T, r: bool| #[trigger]
                    call_ensures(less, (a, b), r) ==> r == lt(a, b),
                v@.to_multiset() == before.to_multiset(),
                forall|p: int, q: int|
                    0 <= p < q <= i && p != j && q != j ==> !lt(#[trigger] v@[q], #[trigger] v@[p]),
                forall|q: int| j < q <= i ==> !lt(#[trigger] v@[q], v@[j as int]),
            decreases j,
        {
            let x = v[j];
            let y = v[j - 1];
            let ghost here = v@;
            v.set(j, y);
            v.set(j - 1, x);
            proof {
                lemma_swap(here, j as int);
                assert(v@ =~= here.update(j as int, y).update(j - 1, x));
            }
            j -= 1;
        }
        proof {
            if j > 0 {
                assert forall|p: int| 0 <= p < j implies !lt(v@[j as int], #[trigger] v@[p]) by {
                    if p < j - 1 {
                        assert(!lt(v@[j - 1], v@[p]));
                    }
                }
            }
            let part = v@.take(i + 1);
            assert forall|p: int, q: int| 0 <= p < q < part.len() implies !lt(
                #[trigger] part[q],
                #[trigger] part[p],
            ) by {
                assert(part[q] == v@[q] && part[p] == v@[p]);
            }
        }
        i += 1;
    }
    assert(v@.take(n as int) =~= v@);
}

proof fn lemma_swap<T>(s: Seq<T>, j: int)
    requires
        0 < j < s.len(),
    ensures
        s.update(j, s[j - 1]).update(j - 1, s[j]).to_multiset() == s.to_multiset(),
{
    let t = s.update(j, s[j - 1]).update(j - 1, s[j]);
    s.to_multiset_ensures();
    s.update(j, s[j - 1]).to_multiset_ensures();
    vstd::seq_lib::to_multiset_update(s, j, s[j - 1]);
    vstd::seq_lib::to_multiset_update(s.update(j, s[j - 1]), j - 1, s[j]);
    assert(t.to_multiset() =~= s.to_multiset());
}

} // verus!
