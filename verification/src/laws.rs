//! The algebraic laws of the trie's operations, stated over the map view
//! that `insert`, `get`, `get_mut` and `remove` are specified against.

use vstd::prelude::*;

use crate::iterator::TriePrefixIterator;
use crate::keys::key_lt;
use crate::trie::Trie;

verus! {

/// Ascending iteration: a yielded key orders strictly below every key still
/// pending in the iterator, so any later yield -- pending at this point --
/// comes out strictly above it.
pub proof fn lemma_yields_ascend<V>(mid: TriePrefixIterator<'_, V>, k1: Seq<u8>, k2: Seq<u8>)
    requires
        forall|k: Seq<u8>| #[trigger] mid.pending(k) ==> key_lt(k1, k),
        mid.pending(k2),
    ensures
        key_lt(k1, k2),
{
}

/// Round trip: inserting distinct keys with their values makes `get` return
/// exactly each key's value; keys other than the inserted one keep their
/// presence and value.
pub proof fn lemma_insert_round_trip<V>(t1: Trie<V>, t2: Trie<V>, k: Seq<u8>, v: V, u: Seq<u8>)
    requires
        t2@ == t1@.insert(k, v),
        u != k,
    ensures
        t2@.contains_key(k),
        t2@[k] == v,
        t2@.contains_key(u) == t1@.contains_key(u),
        t1@.contains_key(u) ==> t2@[u] == t1@[u],
{
}

/// Overwrite: inserting an already-present key leaves the key set unchanged,
/// updates that key's value, and touches no other entry.
pub proof fn lemma_overwrite<V>(t1: Trie<V>, t2: Trie<V>, k: Seq<u8>, v: V)
    requires
        t1@.contains_key(k),
        t2@ == t1@.insert(k, v),
    ensures
        t2@.dom() == t1@.dom(),
        t2@[k] == v,
        forall|u: Seq<u8>| u != k && t1@.contains_key(u) ==> t2@[u] == t1@[u],
{
    assert(t2@.dom() =~= t1@.dom());
}

/// Idempotent removal: once a key is removed it is gone, so removing it
/// again changes nothing and reports absence.
pub proof fn lemma_remove_idempotent<V>(t1: Trie<V>, t2: Trie<V>, k: Seq<u8>)
    requires
        t2@ == t1@.remove(k),
    ensures
        !t2@.contains_key(k),
        t2@.remove(k) == t2@,
{
    assert(t2@.remove(k) =~= t2@);
}

/// Deletion is exact: removing a key affects no other entry, whether or not
/// the key was present.
pub proof fn lemma_remove_other_keys<V>(t1: Trie<V>, t2: Trie<V>, k: Seq<u8>, u: Seq<u8>)
    requires
        t2@ == t1@.remove(k),
        u != k,
    ensures
        t2@.contains_key(u) == t1@.contains_key(u),
        t1@.contains_key(u) ==> t2@[u] == t1@[u],
{
}

} // verus!
