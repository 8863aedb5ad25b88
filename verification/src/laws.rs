//! General laws of the table's abstract model.
//!
//! Every public operation of the table states its effect on the represented
//! mapping (`self@`). The laws below hold of those effects for all keys and
//! values, so they carry over to any sequence of table operations.

use vstd::prelude::*;

verus! {

/// Round trip: after binding `k` to `v`, a lookup of `k` finds `v`.
pub proof fn lemma_insert_round_trip<KV, V>(m: Map<KV, V>, k: KV, v: V)
    ensures
        m.insert(k, v).contains_key(k),
        m.insert(k, v)[k] == v,
{
}

/// No entry is lost: an insertion leaves every other key's binding unchanged,
/// so after any number of insertions of distinct keys — however many bucket
/// growths they trigger — every one of those keys is still retrievable.
pub proof fn lemma_insert_preserves_others<KV, V>(m: Map<KV, V>, k: KV, v: V, k2: KV)
    requires
        k2 != k,
    ensures
        m.insert(k, v).contains_key(k2) == m.contains_key(k2),
        m.contains_key(k2) ==> m.insert(k, v)[k2] == m[k2],
{
}

/// Overwrite: binding the same key twice keeps the later value, and at the
/// moment of the second binding the key was still bound to the earlier one —
/// which is what the table's `insert` reports as the previous value.
pub proof fn lemma_insert_overwrite<KV, V>(m: Map<KV, V>, k: KV, v1: V, v2: V)
    ensures
        m.insert(k, v1).contains_key(k) && m.insert(k, v1)[k] == v1,
        m.insert(k, v1).insert(k, v2) == m.insert(k, v2),
        m.insert(k, v1).insert(k, v2)[k] == v2,
{
    assert(m.insert(k, v1).insert(k, v2) =~= m.insert(k, v2));
}

/// Removal: after removing `k` a lookup of `k` finds nothing, and removing an
/// absent key leaves the mapping — and so its size — unchanged.
pub proof fn lemma_remove_round_trip<KV, V>(m: Map<KV, V>, k: KV)
    ensures
        !m.remove(k).contains_key(k),
        !m.contains_key(k) ==> m.remove(k) == m,
{
    if !m.contains_key(k) {
        assert(m.remove(k) =~= m);
    }
}

/// An emptied mapping binds no key and has size zero, so after `clear` every
/// previously present key is gone and the occupancy count reads zero.
pub proof fn lemma_empty_finds_nothing<KV, V>(k: KV)
    ensures
        !Map::<KV, V>::empty().contains_key(k),
        Map::<KV, V>::empty().len() == 0,
{
    assert(Map::<KV, V>::empty().dom() =~= Set::<KV>::empty());
}

} // verus!
