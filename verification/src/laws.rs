//! Laws relating the container operations across several calls, stated
//! over the abstract map view that the operation contracts use: what a
//! lookup finds right after a store, how an overwrite behaves, what a
//! deletion leaves behind, and that deleting and restoring a key puts
//! the view back exactly.

use vstd::prelude::*;

verus! {

/// Round trip: storing a value under a key and looking the key up right
/// away finds exactly that value.  `insert` turns the view `m` into
/// `m.insert(k, v)`, and `get` answers from the view.
pub proof fn lemma_insert_then_get<V>(m: Map<Seq<char>, V>, k: Seq<char>, v: V)
    requires
        k.len() > 0,
    ensures
        m.insert(k, v).dom().contains(k),
        m.insert(k, v)[k] == v,
{
}

/// Overwriting: a second store under the same key hands back the first
/// value, a lookup afterwards finds the second, and the key count does
/// not move.
pub proof fn lemma_overwrite<V>(m: Map<Seq<char>, V>, k: Seq<char>, v1: V, v2: V)
    requires
        m.dom().finite(),
        k.len() > 0,
    ensures
        m.insert(k, v1).dom().contains(k),
        m.insert(k, v1)[k] == v1,
        m.insert(k, v1).insert(k, v2)[k] == v2,
        m.insert(k, v1).insert(k, v2).dom().len() == m.insert(k, v1).dom().len(),
{
    assert(m.insert(k, v1).insert(k, v2).dom() =~= m.insert(k, v1).dom());
}

/// Deletion: after a removal the key is absent, the count drops by
/// exactly one if the key was present, and removing an absent key
/// changes nothing.
pub proof fn lemma_remove_then_get<V>(m: Map<Seq<char>, V>, k: Seq<char>)
    requires
        m.dom().finite(),
    ensures
        !m.remove(k).dom().contains(k),
        m.dom().contains(k) ==> m.remove(k).dom().len() == m.dom().len() - 1,
        !m.dom().contains(k) ==> m.remove(k) == m,
{
    if !m.dom().contains(k) {
        assert(m.remove(k) =~= m);
    }
}

/// Removing a key and then storing the value it held restores the view
/// exactly; with `lemma_sorted_unique` this makes every traversal of
/// the restored tree indistinguishable from one of the original.
pub proof fn lemma_remove_then_reinsert<V>(m: Map<Seq<char>, V>, k: Seq<char>, v: V)
    requires
        m.dom().contains(k),
        m[k] == v,
    ensures
        m.remove(k).insert(k, v) == m,
{
    assert(m.remove(k).insert(k, v) =~= m);
}

}
