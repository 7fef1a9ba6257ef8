use std::collections::{HashMap, HashSet};
use vstd::prelude::*;

verus! {

broadcast use vstd::std_specs::hash::group_hash_axioms;

/// The keys of a map, each once, in the order the map hands them out.
pub(crate) fn key_list<V>(map: &HashMap<u128, V>) -> (ids: Vec<u128>)
    ensures
        ids@.no_duplicates(),
        ids@.to_set() == map@.dom(),
{
    let mut ids: Vec<u128> = Vec::new();
    for k in it: map.keys()
        invariant
            ids@ == it.seq().take(it.index() as int).unref(),
            it.seq().unref().to_set() == map@.dom(),
            it.seq().no_duplicates(),
            it.index() == it.seq().len() ==> ids@ == it.seq().unref(),
    {
        ids.push(*k);
        proof {
            assert(it.index() + 1 == it.seq().len() ==> it.seq().take(it.index() + 1)
                =~= it.seq());
        }
    }
    ids
}

/// The members of a set, each once, in the order the set hands them out.
pub(crate) fn member_list(set: &HashSet<u128>) -> (ids: Vec<u128>)
    ensures
        ids@.no_duplicates(),
        ids@.to_set() == set@,
{
    let mut ids: Vec<u128> = Vec::new();
    for k in it: set.iter()
        invariant
            ids@ == it.seq().take(it.index() as int).unref(),
            it.seq().unref().to_set() == set@,
            it.seq().no_duplicates(),
            it.index() == it.seq().len() ==> ids@ == it.seq().unref(),
    {
        ids.push(*k);
        proof {
            assert(it.index() + 1 == it.seq().len() ==> it.seq().take(it.index() + 1)
                =~= it.seq());
        }
    }
    ids
}

} // verus!
