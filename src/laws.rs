use vstd::prelude::*;

use crate::store::{added, lookup, removed};
use crate::hashing::key_hash;

verus! {

/// Adding a key whose hash is stored already fails and changes nothing: the
/// size stays, and the value added first is the one still found.
pub proof fn lemma_first_value_wins<T>(m: Map<u64, (String, T)>, k: String, v1: T, v2: T)
    requires
        m.dom().finite(),
    ensures
        added(m, k, v1).contains_key(key_hash(k@)),
        added(added(m, k, v1), k, v2) == added(m, k, v1),
        added(added(m, k, v1), k, v2).dom().len() == added(m, k, v1).dom().len(),
        lookup(added(added(m, k, v1), k, v2), k@) == lookup(added(m, k, v1), k@),
        !m.contains_key(key_hash(k@)) ==> lookup(added(added(m, k, v1), k, v2), k@) == Some(v1),
{
}

/// A successful add of `v` under `k` makes `get(k)` return `v` and
/// `contains_key(k)` hold.
pub proof fn lemma_add_then_get<T>(m: Map<u64, (String, T)>, k: String, v: T)
    requires
        !m.contains_key(key_hash(k@)),
    ensures
        lookup(added(m, k, v), k@) == Some(v),
        lookup(added(m, k, v), k@) is Some,
{
}

/// Removing a stored key returns its value, shrinks the contents by exactly
/// one, and leaves the key absent.
pub proof fn lemma_remove_present<T>(m: Map<u64, (String, T)>, k: Seq<char>)
    requires
        m.dom().finite(),
        m.contains_key(key_hash(k)),
    ensures
        lookup(m, k) == Some(m[key_hash(k)].1),
        removed(m, k).dom().len() == m.dom().len() - 1,
        lookup(removed(m, k), k) is None,
{
}

/// A key whose hash is not stored is reported absent by every lookup, and
/// removing it changes nothing.
pub proof fn lemma_absent_key<T>(m: Map<u64, (String, T)>, k: Seq<char>)
    requires
        !m.contains_key(key_hash(k)),
    ensures
        lookup(m, k) is None,
        removed(m, k) == m,
{
    assert(removed(m, k) =~= m);
}

/// An empty dictionary holds nothing; after one add it holds exactly one entry.
pub proof fn lemma_one_add_from_empty<T>(k: String, v: T)
    ensures
        Map::<u64, (String, T)>::empty().dom().len() == 0,
        added(Map::<u64, (String, T)>::empty(), k, v).dom().len() == 1,
        lookup(added(Map::<u64, (String, T)>::empty(), k, v), k@) == Some(v),
{
    let e = Map::<u64, (String, T)>::empty();
    assert(e.dom() =~= Set::<u64>::empty());
    assert(added(e, k, v).dom() =~= Set::<u64>::empty().insert(key_hash(k@)));
}

} // verus!
