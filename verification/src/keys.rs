//! Walking the keys of integer-keyed hash maps.

use std::collections::HashMap;
use vstd::prelude::*;
use vstd::std_specs::iter::IteratorSpec;

verus! {

broadcast use vstd::std_specs::hash::group_hash_axioms;

/// The keys of a map, each once, in the map's (unspecified) order.
pub fn keys_of<V>(m: &HashMap<u64, V>) -> (r: Vec<u64>)
    ensures
        r@.to_set() == m@.dom(),
        r@.no_duplicates(),
        r@.len() == m@.dom().len(),
{
    let ghost all = vstd::std_specs::hash::spec_keys_iter(m).remaining();
    proof {
        vstd::std_specs::hash::axiom_spec_keys_iter(m);
    }
    let mut r: Vec<u64> = Vec::new();
    for k in it: m.keys()
        invariant
            it.seq() == all,
            all.unref().to_set() == m@.dom(),
            all.no_duplicates(),
            all.len() == m@.dom().len(),
            r@ == all.take(it.index() as int).unref(),
    {
        proof {
            assert(all.take(it.index() as int + 1).unref() =~= all.take(it.index() as int).unref().push(*k));
        }
        r.push(*k);
    }
    proof {
        assert(r@ =~= all.unref());
    }
    r
}

} // verus!
