//! The in-memory sort of one buffer before it is written out as a chunk.

use vstd::prelude::*;

use crate::iter::Sortable;
use crate::model::records_sorted;

verus! {

/// Sort the buffer in place by key, with insertion sort.  The result is a
/// permutation of the input in non-decreasing key order; the order of
/// records with equal keys is unspecified.
pub fn sort_records<T: Sortable>(v: &mut Vec<T>)
    ensures
        final(v)@.len() == old(v)@.len(),
        records_sorted(final(v)@),
        final(v)@.to_multiset() == old(v)@.to_multiset(),
        forall|x: T| final(v)@.contains(x) ==> old(v)@.contains(x),
{
    broadcast use vstd::seq_lib::group_to_multiset_ensures;

    let ghost orig = v@;
    proof {
        assert(v@.to_multiset() == orig.to_multiset());
    }
    let mut i: usize = 1;
    while i < v.len()
        invariant
            i >= 1,
            v@.len() == orig.len(),
            v@.to_multiset() == orig.to_multiset(),
            forall|a: int, b: int| 0 <= a <= b < i && b < v@.len()
                ==> v@[a].key() <= v@[b].key(),
        decreases v@.len() - i,
    {
        let mut j: usize = i;
        while j > 0 && !(v[j - 1].le(&v[j]))
            invariant
                0 <= j <= i < v@.len(),
                v@.len() == orig.len(),
                v@.to_multiset() == orig.to_multiset(),
                forall|a: int, b: int| 0 <= a <= b < j ==> v@[a].key() <= v@[b].key(),
                forall|a: int, b: int| j <= a <= b <= i ==> v@[a].key() <= v@[b].key(),
                forall|a: int, b: int| 0 <= a < j && j < b <= i
                    ==> v@[a].key() <= v@[b].key(),
            decreases j,
        {
            let ghost before = v@;
            let moved = v.remove(j);
            v.insert(j - 1, moved);
            proof {
                broadcast use vstd::seq_lib::group_to_multiset_ensures;
                broadcast use vstd::seq_lib::to_multiset_insert;

                let jj = j as int;
                let s = before.update(jj, before[jj - 1]).update(jj - 1, before[jj]);
                assert(v@ =~= s);
                assert(before.remove(jj).to_multiset()
                    == before.to_multiset().remove(before[jj]));
                assert(v@.to_multiset()
                    == before.to_multiset().remove(before[jj]).insert(before[jj]));
                assert(before.to_multiset().contains(before[jj]));
                assert(v@.to_multiset() =~= before.to_multiset());
            }
            j = j - 1;
        }
        i = i + 1;
    }
    proof {
        assert forall|x: T| v@.contains(x) implies orig.contains(x) by {
            assert(v@.to_multiset().count(x) > 0);
            assert(orig.to_multiset().count(x) > 0);
        }
    }
}

} // verus!
