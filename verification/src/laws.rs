//! Laws of the table's view. Every public operation of [`crate::ByteBox`]
//! states its effect on the view map, so the behavioural guarantees of
//! operation sequences reduce to facts about that map; this module states
//! and proves those facts.

use vstd::prelude::*;

verus! {

/// Round-trip: after `insert(k, v)` rewrites the view to
/// `m.insert(k, v)`, a `get(k)` — which reads the view at `k` — returns
/// exactly `v`.
pub proof fn lemma_insert_then_get(m: Map<Seq<u8>, Seq<u8>>, k: Seq<u8>, v: Seq<u8>)
    ensures
        m.insert(k, v).contains_key(k),
        m.insert(k, v)[k] == v,
{
}

/// Update semantics: a second insertion of an already-present key finds
/// the key present — so `insert` reports no new key — and a later lookup
/// returns the newest value, not the one stored before.
pub proof fn lemma_update_overwrites(
    m: Map<Seq<u8>, Seq<u8>>,
    k: Seq<u8>,
    v1: Seq<u8>,
    v2: Seq<u8>,
)
    ensures
        m.insert(k, v1).contains_key(k),
        m.insert(k, v1).insert(k, v2)[k] == v2,
        m.insert(k, v1).insert(k, v2) == m.insert(k, v2),
{
    assert(m.insert(k, v1).insert(k, v2) =~= m.insert(k, v2));
}

/// Deletion: after `remove(k)` rewrites the view to `m.remove(k)`, a
/// lookup of `k` finds nothing, and a second removal removes nothing and
/// leaves the view unchanged.
pub proof fn lemma_remove_then_absent(m: Map<Seq<u8>, Seq<u8>>, k: Seq<u8>)
    ensures
        !m.remove(k).contains_key(k),
        m.remove(k).remove(k) == m.remove(k),
{
    assert(m.remove(k).remove(k) =~= m.remove(k));
}

/// Count invariant: an insertion adds one to the number of stored keys
/// exactly when the key was absent, a removal subtracts one exactly when
/// it was present, so `len()` — the domain's cardinality — always equals
/// the number of distinct keys ever inserted minus the number
/// successfully removed.
pub proof fn lemma_count(m: Map<Seq<u8>, Seq<u8>>, k: Seq<u8>, v: Seq<u8>)
    requires
        m.dom().finite(),
    ensures
        m.insert(k, v).dom().len() == m.dom().len() + (if m.contains_key(k) {
            0int
        } else {
            1
        }),
        m.remove(k).dom().len() == m.dom().len() - (if m.contains_key(k) {
            1int
        } else {
            0
        }),
{
    vstd::set::axiom_set_insert_len(m.dom(), k);
    vstd::set::axiom_set_remove_len(m.dom(), k);
    assert(m.insert(k, v).dom() =~= m.dom().insert(k));
    assert(m.remove(k).dom() =~= m.dom().remove(k));
}

/// Collision correctness: two distinct keys are stored and removed
/// independently, whatever buckets they hash to — the view says nothing
/// about buckets, so inserting one key never disturbs another, and
/// removing one leaves the other retrievable.
pub proof fn lemma_independent_keys(
    m: Map<Seq<u8>, Seq<u8>>,
    k1: Seq<u8>,
    k2: Seq<u8>,
    v1: Seq<u8>,
    v2: Seq<u8>,
)
    requires
        k1 != k2,
    ensures
        m.insert(k1, v1).insert(k2, v2)[k1] == v1,
        m.insert(k1, v1).insert(k2, v2)[k2] == v2,
        m.insert(k1, v1).insert(k2, v2).contains_key(k1),
        m.insert(k1, v1).insert(k2, v2).contains_key(k2),
        m.insert(k1, v1).insert(k2, v2).remove(k2)[k1] == v1,
        m.insert(k1, v1).insert(k2, v2).remove(k2).contains_key(k1),
{
}

} // verus!
