//! Walking an ordered map.

use std::collections::BTreeMap;

use vstd::prelude::*;

verus! {

broadcast use {vstd::std_specs::btree::group_btree_axioms, vstd::laws_cmp::group_laws_cmp};

/// Strictly increasing.
pub open spec fn increasing(s: Seq<u64>) -> bool {
    forall|i: int, j: int| 0 <= i < j < s.len() ==> s[i] < s[j]
}

/// The keys of `m`, in increasing order.
pub fn sorted_keys<V>(m: &BTreeMap<u64, V>) -> (r: Vec<u64>)
    ensures
        increasing(r@),
        forall|k: u64| #[trigger] r@.contains(k) <==> m@.contains_key(k),
        r@.len() == m@.dom().len(),
        r@.to_set() == m@.dom(),
{
    let mut v: Vec<u64> = Vec::new();
    let walk = m.iter();
    let ghost all = vstd::std_specs::iter::IteratorSpec::remaining(&walk);
    let ghost keys = all.map_values(|kv: (&u64, &V)| *kv.0);
    for kv in it: walk
        invariant
            it.seq() == all,
            v@ == keys.take(it.index()),
            keys == all.map_values(|kv: (&u64, &V)| *kv.0),
    {
        v.push(*kv.0);
    }
    proof {
        assert(v@ == keys);
        assert(vstd::std_specs::btree::increasing_seq(keys));
        assert forall|i: int, j: int| 0 <= i < j < keys.len() implies keys[i] < keys[j] by {
            assert(vstd::std_specs::cmp::OrdSpec::cmp_spec(&keys[i], &keys[j]) is Less);
        }
        assert forall|k: u64| #[trigger] v@.contains(k) <==> m@.contains_key(k) by {
            if m@.contains_key(k) {
                assert(all.contains((&k, &m@[k])));
                let i = choose|i: int| 0 <= i < all.len() && all[i] == (&k, &m@[k]);
                assert(v@[i] == k);
            }
            if v@.contains(k) {
                let i = choose|i: int| 0 <= i < v@.len() && v@[i] == k;
                assert(m@.contains_key(*all[i].0));
            }
        }
        assert(v@.to_set() =~= m@.dom());
    }
    v
}

} // verus!
