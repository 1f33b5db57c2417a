//! The trie itself: an optional root node, a configurable maximum height,
//! and the insert / lookup / delete algorithms, all specified against the
//! trie's view as a `Map<Seq<u8>, V>`.

use vstd::prelude::*;

use crate::iterator::TriePrefixIterator;
use crate::keys::agree_below;
use crate::keys::key_lt;
use crate::keys::lemma_nibble_bound;
use crate::keys::lemma_split_index;
use crate::keys::lemma_split_index_unique;
use crate::keys::spec_nibble;
use crate::keys::spec_split_index;
use crate::node::InternalNode;
use crate::node::LeafNode;
use crate::node::Node;
use crate::node::child_index_gt;
use crate::node::children_agree_ok;
use crate::node::children_nibble_ok;
use crate::node::lemma_internal_map;
use crate::node::lemma_node_map_nonempty;
use crate::node::lemma_seq_nodes_map;
use crate::node::lemma_seq_nodes_size_elem;
use crate::node::lemma_seq_nodes_size_step;
use crate::node::lemma_seq_nodes_wf_elem;
use crate::node::lemma_seq_nodes_wf_intro;
use crate::node::node_map;
use crate::node::node_size;
use crate::node::node_wf;
use crate::node::seq_nodes_map;
use crate::node::seq_nodes_size;
use crate::sparse_array::SparseArray;
use crate::sparse_array::lemma_sparse_correspondence;

verus! {

/// A qp-trie mapping byte-string keys to values of type `V`.
pub struct Trie<V> {
    pub root: Option<Node<V>>,
    pub max_height: usize,
}

impl<V> View for Trie<V> {
    type V = Map<Seq<u8>, V>;

    /// The map this trie stands for.
    open spec fn view(&self) -> Map<Seq<u8>, V> {
        match self.root {
            None => Map::empty(),
            Some(n) => node_map(n),
        }
    }
}

/// The key and depth of the leaf reached from `n` by descending on `key`'s
/// nibbles, falling back to the lowest occupied slot where the exact slot is
/// absent.
pub open spec fn spec_closest<V>(n: Node<V>, key: Seq<u8>) -> (Seq<u8>, nat)
    decreases n,
    when node_wf(n)
    via spec_closest_decreases::<V>
{
    match n {
        Node::Internal(inner) => {
            let nib = spec_nibble(key, inner.index as nat);
            let s = if inner.nibbles.spec_has(nib) {
                nib
            } else {
                inner.nibbles.spec_min_slot()
            };
            let below = spec_closest(inner.nibbles.spec_get(s), key);
            (below.0, below.1 + 1)
        },
        Node::Leaf(leaf) => (leaf.key@, 0),
        Node::Empty => (Seq::empty(), 0),
    }
}

/// Whether inserting `key`, whose split position against the trie's closest
/// leaf is `si`, must create a new internal node (rather than fill an empty
/// slot of an existing one or overwrite a value in place).
pub open spec fn spec_splice_needed<V>(n: Node<V>, key: Seq<u8>, si: nat) -> bool
    decreases n,
    when node_wf(n)
    via spec_splice_needed_decreases::<V>
{
    match n {
        Node::Internal(inner) => {
            if inner.index as nat <= si {
                let nib = spec_nibble(key, inner.index as nat);
                if inner.nibbles.spec_has(nib) {
                    spec_splice_needed(inner.nibbles.spec_get(nib), key, si)
                } else {
                    false
                }
            } else {
                true
            }
        },
        Node::Leaf(_) => true,
        Node::Empty => false,
    }
}

/// Whether an insertion of `key` is refused: the key is absent, placing it
/// requires a new internal node, and the closest leaf already sits at or
/// beyond the height bound.
pub open spec fn spec_insert_refused<V>(t: Trie<V>, key: Seq<u8>) -> bool {
    match t.root {
        None => false,
        Some(n) => {
            &&& !node_map(n).contains_key(key)
            &&& spec_closest(n, key).1 >= t.max_height
            &&& spec_splice_needed(n, key, spec_split_index(key, spec_closest(n, key).0))
        },
    }
}

#[via_fn]
proof fn spec_closest_decreases<V>(n: Node<V>, key: Seq<u8>) {
    if let Node::Internal(inner) = n {
        lemma_node_wf_internal_child_in_range(inner, key);
    }
}

#[via_fn]
proof fn spec_splice_needed_decreases<V>(n: Node<V>, key: Seq<u8>, si: nat) {
    if let Node::Internal(inner) = n {
        lemma_node_wf_internal_child_in_range(inner, key);
    }
}

/// In a well-formed internal node, both the slot selected by a key and the
/// lowest occupied slot hold an element of the child array.
proof fn lemma_node_wf_internal_child_in_range<V>(inner: InternalNode<V>, key: Seq<u8>)
    requires
        node_wf(Node::Internal(inner)),
    ensures
        ({
            let nib = spec_nibble(key, inner.index as nat);
            &&& inner.nibbles.spec_has(nib) ==> 0 <= inner.nibbles.spec_index_of(nib)
                < inner.nibbles.array@.len() && inner.nibbles.spec_get(nib)
                == inner.nibbles.array@[inner.nibbles.spec_index_of(nib)]
            &&& inner.nibbles.spec_has(inner.nibbles.spec_min_slot())
            &&& 0 <= inner.nibbles.spec_index_of(inner.nibbles.spec_min_slot())
                < inner.nibbles.array@.len()
            &&& inner.nibbles.spec_get(inner.nibbles.spec_min_slot())
                == inner.nibbles.array@[inner.nibbles.spec_index_of(inner.nibbles.spec_min_slot())]
            &&& node_wf(inner.nibbles.spec_get(inner.nibbles.spec_min_slot()))
            &&& inner.nibbles.spec_has(nib) ==> node_wf(inner.nibbles.spec_get(nib))
        }),
{
    crate::sparse_array::lemma_min_slot(inner.nibbles.bitmap);
    lemma_sparse_correspondence(inner.nibbles);
    lemma_seq_nodes_wf_elem(inner.nibbles.array@);
}

/// Replacing the child at occupied slot `t` of a well-formed internal node
/// with a well-formed node whose map adds (or overwrites) one key selecting
/// slot `t` yields a well-formed internal node whose map adds that key.
proof fn lemma_child_replaced<V>(
    old_inner: InternalNode<V>,
    t: int,
    w: Node<V>,
    sa2: SparseArray<Node<V>>,
    k0: Seq<u8>,
    x: V,
)
    requires
        node_wf(Node::Internal(old_inner)),
        old_inner.nibbles.spec_has(t),
        sa2.bitmap == old_inner.nibbles.bitmap,
        sa2.array@ == old_inner.nibbles.array@.update(old_inner.nibbles.spec_index_of(t), w),
        node_wf(w),
        child_index_gt(w, old_inner.index as int),
        spec_nibble(k0, old_inner.index as nat) == t,
        node_map(w) == node_map(old_inner.nibbles.spec_get(t)).insert(k0, x),
        forall|u: Seq<u8>|
            node_map(Node::Internal(old_inner)).contains_key(u) ==> agree_below(
                k0,
                u,
                old_inner.index as nat,
            ),
    ensures
        ({
            let new_inner = InternalNode { index: old_inner.index, nibbles: sa2 };
            &&& node_wf(Node::Internal(new_inner))
            &&& node_map(Node::Internal(new_inner)) == node_map(Node::Internal(old_inner)).insert(
                k0,
                x,
            )
        }),
{
    let sa = old_inner.nibbles;
    let idx = sa.spec_index_of(t);
    let new_inner = InternalNode { index: old_inner.index, nibbles: sa2 };
    let i = old_inner.index as nat;
    lemma_sparse_correspondence(sa);
    lemma_seq_nodes_wf_elem(sa.array@);
    lemma_internal_map(old_inner);
    // the new sparse array is well-formed and holds `w` at slot `t`, with
    // every other slot unchanged
    assert(sa2.wf());
    assert(sa2.spec_get(t) == w);
    assert forall|s: int| #[trigger] sa2.spec_has(s) && s != t implies sa2.spec_get(s)
        == sa.spec_get(s) && node_wf(sa2.spec_get(s)) by {
        assert(sa.spec_has(s));
        assert(sa.spec_index_of(s) != idx) by {
            lemma_sparse_correspondence(sa);
        }
        assert(sa2.spec_get(s) == sa.array@[sa.spec_index_of(s)]);
    }
    // every element of the new child array is well-formed
    assert forall|j: int| 0 <= j < sa2.array@.len() implies node_wf(#[trigger] sa2.array@[j]) by {
        if j == idx {
            assert(sa2.array@[j] == w);
        } else {
            assert(sa2.array@[j] == sa.array@[j]);
        }
    }
    lemma_seq_nodes_wf_intro(sa2.array@);
    // the slot conditions carry over, with the new key selecting slot `t`
    assert(children_nibble_ok(new_inner)) by {
        assert forall|s: int| #[trigger] sa2.spec_has(s) implies child_index_gt(
            sa2.spec_get(s),
            new_inner.index as int,
        ) by {
            if s != t {
                assert(sa.spec_has(s));
                assert(sa2.spec_get(s) == sa.spec_get(s));
                assert(child_index_gt(sa.spec_get(s), old_inner.index as int));
            } else {
                assert(sa2.spec_get(s) == w);
            }
        }
        assert forall|s: int, k: Seq<u8>|
            sa2.spec_has(s) && #[trigger] node_map(sa2.spec_get(s)).contains_key(
                k,
            ) implies spec_nibble(k, new_inner.index as nat) == s by {
            if s == t {
                assert(node_map(w).contains_key(k));
                if k != k0 {
                    assert(node_map(sa.spec_get(t)).contains_key(k));
                }
            } else {
                assert(node_map(sa.spec_get(s)).contains_key(k));
            }
        }
    }
    lemma_internal_map(new_inner);
    // pointwise, the new node's map is the old map with `k0 -> x` added
    assert forall|k: Seq<u8>| #[trigger]
        node_map(Node::Internal(new_inner)).contains_key(k) == (node_map(
            Node::Internal(old_inner),
        ).contains_key(k) || k == k0) by {
        let s = spec_nibble(k, i);
        if s == t {
            assert(node_map(sa2.spec_get(t)) == node_map(w));
        }
    }
    assert forall|k: Seq<u8>| #[trigger]
        node_map(Node::Internal(new_inner)).contains_key(k) implies node_map(
        Node::Internal(new_inner),
    )[k] == (if k == k0 {
        x
    } else {
        node_map(Node::Internal(old_inner))[k]
    }) by {
        let s = spec_nibble(k, i);
        if s == t {
            assert(node_map(sa2.spec_get(t)) == node_map(w));
        }
    }
    assert(node_map(Node::Internal(new_inner)) =~= node_map(Node::Internal(old_inner)).insert(
        k0,
        x,
    ));
    // all keys below the new node still agree below its branching index
    assert(children_agree_ok(new_inner)) by {
        assert forall|k1: Seq<u8>, k2: Seq<u8>|
            #[trigger] seq_nodes_map(new_inner.nibbles.array@).contains_key(k1)
                && #[trigger] seq_nodes_map(new_inner.nibbles.array@).contains_key(
                k2,
            ) implies agree_below(k1, k2, i) by {
            assert(node_map(Node::Internal(new_inner)).contains_key(k1));
            assert(node_map(Node::Internal(new_inner)).contains_key(k2));
            if k1 == k0 && k2 == k0 {
                assert(agree_below(k1, k2, i));
            } else if k1 == k0 {
                assert(node_map(Node::Internal(old_inner)).contains_key(k2));
                assert(agree_below(k0, k2, i));
            } else if k2 == k0 {
                assert(node_map(Node::Internal(old_inner)).contains_key(k1));
                assert(agree_below(k0, k1, i));
                assert forall|j: nat| j < i implies spec_nibble(k1, j) == spec_nibble(k2, j) by {
                    assert(spec_nibble(k0, j) == spec_nibble(k1, j));
                }
            } else {
                assert(node_map(Node::Internal(old_inner)).contains_key(k1));
                assert(node_map(Node::Internal(old_inner)).contains_key(k2));
                assert(seq_nodes_map(old_inner.nibbles.array@).contains_key(k1));
                assert(seq_nodes_map(old_inner.nibbles.array@).contains_key(k2));
            }
        }
    }
    assert(node_wf(Node::Internal(new_inner)));
}

/// A new internal node at position `index` with exactly two children -- an
/// existing well-formed subtree whose keys all select the same slot there,
/// and a fresh leaf for a key selecting a different slot -- is well-formed
/// and stands for the subtree's map with the new key added.
proof fn lemma_splice<V>(
    old_node: Node<V>,
    sa2: SparseArray<Node<V>>,
    w_leaf: Node<V>,
    index: usize,
    lk: Seq<u8>,
    key: Seq<u8>,
    val: V,
)
    requires
        node_wf(old_node),
        !node_map(old_node).contains_key(key),
        index < usize::MAX,
        child_index_gt(old_node, index as int),
        node_map(old_node).contains_key(lk),
        spec_nibble(key, index as nat) != spec_nibble(lk, index as nat),
        agree_below(key, lk, index as nat),
        w_leaf is Leaf,
        w_leaf->Leaf_0.key@ == key,
        w_leaf->Leaf_0.val == val,
        sa2.wf(),
        sa2.spec_len() == 2,
        forall|t: int|
            sa2.spec_has(t) == (t == spec_nibble(lk, index as nat) || t == spec_nibble(
                key,
                index as nat,
            )),
        sa2.spec_get(spec_nibble(lk, index as nat)) == old_node,
        sa2.spec_get(spec_nibble(key, index as nat)) == w_leaf,
    ensures
        ({
            let new_inner = InternalNode { index, nibbles: sa2 };
            &&& node_wf(Node::Internal(new_inner))
            &&& node_map(Node::Internal(new_inner)) == node_map(old_node).insert(key, val)
        }),
{
    let i = index as nat;
    let nib_lk = spec_nibble(lk, i);
    let nib_key = spec_nibble(key, i);
    let new_inner = InternalNode { index, nibbles: sa2 };
    lemma_sparse_correspondence(sa2);
    // every key below the old subtree selects `nib_lk` at the new position
    assert forall|u: Seq<u8>|
        node_map(old_node).contains_key(u) implies spec_nibble(u, i) == nib_lk by {
        match old_node {
            Node::Leaf(leaf) => {
                assert(u == lk);
            },
            Node::Internal(old_inner) => {
                assert(seq_nodes_map(old_inner.nibbles.array@).contains_key(u));
                assert(seq_nodes_map(old_inner.nibbles.array@).contains_key(lk));
                assert(agree_below(u, lk, old_inner.index as nat));
                assert(spec_nibble(u, i) == spec_nibble(lk, i));
            },
            Node::Empty => {
            },
        }
    }
    // every element of the child array is well-formed
    assert forall|j: int| 0 <= j < sa2.array@.len() implies node_wf(#[trigger] sa2.array@[j]) by {
        let t = crate::sparse_array::slots_below(sa2.bitmap, 32)[j];
        assert(sa2.spec_has(t) && sa2.spec_get(t) == sa2.array@[j]);
    }
    lemma_seq_nodes_wf_intro(sa2.array@);
    assert(children_nibble_ok(new_inner)) by {
        assert forall|s: int| #[trigger] sa2.spec_has(s) implies child_index_gt(
            sa2.spec_get(s),
            new_inner.index as int,
        ) by {}
        assert forall|s: int, k: Seq<u8>|
            sa2.spec_has(s) && #[trigger] node_map(sa2.spec_get(s)).contains_key(
                k,
            ) implies spec_nibble(k, new_inner.index as nat) == s by {
            if s == nib_key {
                assert(node_map(w_leaf).contains_key(k));
                assert(k == key);
            } else {
                assert(node_map(old_node).contains_key(k));
            }
        }
    }
    lemma_internal_map(new_inner);
    assert forall|k: Seq<u8>| #[trigger]
        node_map(Node::Internal(new_inner)).contains_key(k) == (node_map(old_node).contains_key(k)
            || k == key) by {
        if node_map(old_node).contains_key(k) {
            assert(spec_nibble(k, i) == nib_lk);
            assert(sa2.spec_has(nib_lk) && node_map(sa2.spec_get(nib_lk)).contains_key(k));
        }
        if k == key {
            assert(sa2.spec_has(nib_key) && node_map(sa2.spec_get(nib_key)).contains_key(k));
        }
    }
    assert forall|k: Seq<u8>| #[trigger]
        node_map(Node::Internal(new_inner)).contains_key(k) implies node_map(
        Node::Internal(new_inner),
    )[k] == (if k == key {
        val
    } else {
        node_map(old_node)[k]
    }) by {
        if k == key {
            assert(node_map(Node::Internal(new_inner))[k] == node_map(w_leaf)[k]);
        } else {
            assert(spec_nibble(k, i) == nib_lk);
        }
    }
    assert(node_map(Node::Internal(new_inner)) =~= node_map(old_node).insert(key, val));
    assert(children_agree_ok(new_inner)) by {
        assert forall|k1: Seq<u8>, k2: Seq<u8>|
            #[trigger] seq_nodes_map(new_inner.nibbles.array@).contains_key(k1)
                && #[trigger] seq_nodes_map(new_inner.nibbles.array@).contains_key(
                k2,
            ) implies agree_below(k1, k2, i) by {
            assert(node_map(Node::Internal(new_inner)).contains_key(k1));
            assert(node_map(Node::Internal(new_inner)).contains_key(k2));
            assert forall|u: Seq<u8>|
                node_map(old_node).contains_key(u) implies agree_below(u, key, i) by {
                match old_node {
                    Node::Leaf(leaf) => {
                        assert(u == lk);
                        assert forall|j: nat| j < i implies spec_nibble(u, j) == spec_nibble(
                            key,
                            j,
                        ) by {
                            assert(spec_nibble(key, j) == spec_nibble(lk, j));
                        }
                    },
                    Node::Internal(old_inner) => {
                        assert(seq_nodes_map(old_inner.nibbles.array@).contains_key(u));
                        assert(seq_nodes_map(old_inner.nibbles.array@).contains_key(lk));
                        assert(agree_below(u, lk, old_inner.index as nat));
                        assert forall|j: nat| j < i implies spec_nibble(u, j) == spec_nibble(
                            key,
                            j,
                        ) by {
                            assert(spec_nibble(u, j) == spec_nibble(lk, j));
                            assert(spec_nibble(key, j) == spec_nibble(lk, j));
                        }
                    },
                    Node::Empty => {
                    },
                }
            }
            assert forall|u1: Seq<u8>, u2: Seq<u8>|
                node_map(old_node).contains_key(u1) && node_map(old_node).contains_key(
                    u2,
                ) implies agree_below(u1, u2, i) by {
                match old_node {
                    Node::Leaf(leaf) => {
                        assert(u1 == u2);
                    },
                    Node::Internal(old_inner) => {
                        assert(seq_nodes_map(old_inner.nibbles.array@).contains_key(u1));
                        assert(seq_nodes_map(old_inner.nibbles.array@).contains_key(u2));
                        assert(agree_below(u1, u2, old_inner.index as nat));
                        assert forall|j: nat| j < i implies spec_nibble(u1, j) == spec_nibble(
                            u2,
                            j,
                        ) by {}
                    },
                    Node::Empty => {
                    },
                }
            }
            if k1 == key && k2 == key {
            } else if k1 == key {
                assert(node_map(old_node).contains_key(k2));
                assert(agree_below(k2, key, i));
                assert forall|j: nat| j < i implies spec_nibble(k1, j) == spec_nibble(k2, j) by {
                    assert(spec_nibble(k2, j) == spec_nibble(key, j));
                }
            } else if k2 == key {
                assert(node_map(old_node).contains_key(k1));
                assert(agree_below(k1, k2, i));
            } else {
                assert(node_map(old_node).contains_key(k1));
                assert(node_map(old_node).contains_key(k2));
                assert(agree_below(k1, k2, i));
            }
        }
    }
    assert(node_wf(Node::Internal(new_inner)));
}

/// Adding a fresh leaf child at an unoccupied slot of a well-formed internal
/// node keeps it well-formed and adds the leaf's key to its map.
proof fn lemma_child_added<V>(
    old_inner: InternalNode<V>,
    sa2: SparseArray<Node<V>>,
    w_leaf: Node<V>,
    key: Seq<u8>,
    val: V,
)
    requires
        node_wf(Node::Internal(old_inner)),
        !node_map(Node::Internal(old_inner)).contains_key(key),
        !old_inner.nibbles.spec_has(spec_nibble(key, old_inner.index as nat)),
        w_leaf is Leaf,
        w_leaf->Leaf_0.key@ == key,
        w_leaf->Leaf_0.val == val,
        sa2.wf(),
        forall|t: int|
            sa2.spec_has(t) == (old_inner.nibbles.spec_has(t) || t == spec_nibble(
                key,
                old_inner.index as nat,
            )),
        sa2.spec_get(spec_nibble(key, old_inner.index as nat)) == w_leaf,
        forall|t: int|
            t != spec_nibble(key, old_inner.index as nat) && old_inner.nibbles.spec_has(t)
                ==> sa2.spec_get(t) == old_inner.nibbles.spec_get(t),
        sa2.spec_len() == old_inner.nibbles.spec_len() + 1,
        forall|u: Seq<u8>|
            node_map(Node::Internal(old_inner)).contains_key(u) ==> agree_below(
                key,
                u,
                old_inner.index as nat,
            ),
    ensures
        ({
            let new_inner = InternalNode { index: old_inner.index, nibbles: sa2 };
            &&& node_wf(Node::Internal(new_inner))
            &&& node_map(Node::Internal(new_inner)) == node_map(Node::Internal(old_inner)).insert(
                key,
                val,
            )
        }),
{
    let i = old_inner.index as nat;
    let nib_key = spec_nibble(key, i);
    let new_inner = InternalNode { index: old_inner.index, nibbles: sa2 };
    lemma_sparse_correspondence(sa2);
    lemma_sparse_correspondence(old_inner.nibbles);
    lemma_seq_nodes_wf_elem(old_inner.nibbles.array@);
    lemma_internal_map(old_inner);
    assert forall|j: int| 0 <= j < sa2.array@.len() implies node_wf(#[trigger] sa2.array@[j]) by {
        let t = crate::sparse_array::slots_below(sa2.bitmap, 32)[j];
        assert(sa2.spec_has(t) && sa2.spec_get(t) == sa2.array@[j]);
        if t != nib_key {
            assert(old_inner.nibbles.spec_has(t));
            assert(sa2.spec_get(t) == old_inner.nibbles.spec_get(t));
        }
    }
    lemma_seq_nodes_wf_intro(sa2.array@);
    assert(children_nibble_ok(new_inner)) by {
        assert forall|s: int| #[trigger] sa2.spec_has(s) implies child_index_gt(
            sa2.spec_get(s),
            new_inner.index as int,
        ) by {
            if s != nib_key {
                assert(old_inner.nibbles.spec_has(s));
                assert(sa2.spec_get(s) == old_inner.nibbles.spec_get(s));
            }
        }
        assert forall|s: int, k: Seq<u8>|
            sa2.spec_has(s) && #[trigger] node_map(sa2.spec_get(s)).contains_key(
                k,
            ) implies spec_nibble(k, new_inner.index as nat) == s by {
            if s == nib_key {
                assert(k == key);
            } else {
                assert(old_inner.nibbles.spec_has(s));
                assert(node_map(old_inner.nibbles.spec_get(s)).contains_key(k));
            }
        }
    }
    lemma_internal_map(new_inner);
    assert forall|k: Seq<u8>| #[trigger]
        node_map(Node::Internal(new_inner)).contains_key(k) == (node_map(
            Node::Internal(old_inner),
        ).contains_key(k) || k == key) by {
        let s = spec_nibble(k, i);
        if s != nib_key && old_inner.nibbles.spec_has(s) {
            assert(sa2.spec_get(s) == old_inner.nibbles.spec_get(s));
        }
    }
    assert forall|k: Seq<u8>| #[trigger]
        node_map(Node::Internal(new_inner)).contains_key(k) implies node_map(
        Node::Internal(new_inner),
    )[k] == (if k == key {
        val
    } else {
        node_map(Node::Internal(old_inner))[k]
    }) by {
        let s = spec_nibble(k, i);
        if k == key {
            assert(node_map(Node::Internal(new_inner))[k] == node_map(w_leaf)[k]);
        } else {
            assert(old_inner.nibbles.spec_has(s));
            assert(sa2.spec_get(s) == old_inner.nibbles.spec_get(s));
        }
    }
    assert(node_map(Node::Internal(new_inner)) =~= node_map(Node::Internal(old_inner)).insert(
        key,
        val,
    ));
    assert(children_agree_ok(new_inner)) by {
        assert forall|k1: Seq<u8>, k2: Seq<u8>|
            #[trigger] seq_nodes_map(new_inner.nibbles.array@).contains_key(k1)
                && #[trigger] seq_nodes_map(new_inner.nibbles.array@).contains_key(
                k2,
            ) implies agree_below(k1, k2, i) by {
            assert(node_map(Node::Internal(new_inner)).contains_key(k1));
            assert(node_map(Node::Internal(new_inner)).contains_key(k2));
            if k1 == key && k2 == key {
            } else if k1 == key {
                assert(node_map(Node::Internal(old_inner)).contains_key(k2));
                assert(agree_below(key, k2, i));
            } else if k2 == key {
                assert(node_map(Node::Internal(old_inner)).contains_key(k1));
                assert(agree_below(key, k1, i));
                assert forall|j: nat| j < i implies spec_nibble(k1, j) == spec_nibble(k2, j) by {
                    assert(spec_nibble(key, j) == spec_nibble(k1, j));
                }
            } else {
                assert(node_map(Node::Internal(old_inner)).contains_key(k1));
                assert(node_map(Node::Internal(old_inner)).contains_key(k2));
                assert(seq_nodes_map(old_inner.nibbles.array@).contains_key(k1));
                assert(seq_nodes_map(old_inner.nibbles.array@).contains_key(k2));
            }
        }
    }
    assert(node_wf(Node::Internal(new_inner)));
}

/// Replacing the child at occupied slot `t` of a well-formed internal node
/// with a well-formed node whose map loses one key selecting slot `t` yields
/// a well-formed internal node whose map loses that key.
proof fn lemma_child_shrunk<V>(
    old_inner: InternalNode<V>,
    t: int,
    w: Node<V>,
    sa2: SparseArray<Node<V>>,
    k0: Seq<u8>,
)
    requires
        node_wf(Node::Internal(old_inner)),
        old_inner.nibbles.spec_has(t),
        node_map(old_inner.nibbles.spec_get(t)).contains_key(k0),
        sa2.wf(),
        sa2.spec_len() == old_inner.nibbles.spec_len(),
        forall|s: int| sa2.spec_has(s) == old_inner.nibbles.spec_has(s),
        sa2.spec_get(t) == w,
        forall|s: int|
            s != t && old_inner.nibbles.spec_has(s) ==> sa2.spec_get(s)
                == old_inner.nibbles.spec_get(s),
        node_wf(w),
        child_index_gt(w, old_inner.index as int),
        node_map(w) == node_map(old_inner.nibbles.spec_get(t)).remove(k0),
    ensures
        ({
            let new_inner = InternalNode { index: old_inner.index, nibbles: sa2 };
            &&& node_wf(Node::Internal(new_inner))
            &&& node_map(Node::Internal(new_inner)) == node_map(Node::Internal(old_inner)).remove(
                k0,
            )
        }),
{
    let sa = old_inner.nibbles;
    let i = old_inner.index as nat;
    let new_inner = InternalNode { index: old_inner.index, nibbles: sa2 };
    lemma_sparse_correspondence(sa);
    lemma_sparse_correspondence(sa2);
    lemma_seq_nodes_wf_elem(sa.array@);
    lemma_internal_map(old_inner);
    assert(spec_nibble(k0, i) == t);
    assert forall|j: int| 0 <= j < sa2.array@.len() implies node_wf(#[trigger] sa2.array@[j]) by {
        let s = crate::sparse_array::slots_below(sa2.bitmap, 32)[j];
        assert(sa2.spec_has(s) && sa2.spec_get(s) == sa2.array@[j]);
        if s != t {
            assert(sa.spec_has(s));
            assert(sa2.spec_get(s) == sa.spec_get(s));
        }
    }
    lemma_seq_nodes_wf_intro(sa2.array@);
    assert(children_nibble_ok(new_inner)) by {
        assert forall|s: int| #[trigger] sa2.spec_has(s) implies child_index_gt(
            sa2.spec_get(s),
            new_inner.index as int,
        ) by {
            if s != t {
                assert(sa.spec_has(s));
                assert(sa2.spec_get(s) == sa.spec_get(s));
                assert(child_index_gt(sa.spec_get(s), old_inner.index as int));
            }
        }
        assert forall|s: int, k: Seq<u8>|
            sa2.spec_has(s) && #[trigger] node_map(sa2.spec_get(s)).contains_key(
                k,
            ) implies spec_nibble(k, new_inner.index as nat) == s by {
            if s == t {
                assert(node_map(sa.spec_get(t)).contains_key(k));
            } else {
                assert(sa.spec_has(s));
                assert(node_map(sa.spec_get(s)).contains_key(k));
            }
        }
    }
    lemma_internal_map(new_inner);
    assert forall|k: Seq<u8>| #[trigger]
        node_map(Node::Internal(new_inner)).contains_key(k) == (node_map(
            Node::Internal(old_inner),
        ).contains_key(k) && k != k0) by {
        let s = spec_nibble(k, i);
        if s != t && sa.spec_has(s) {
            assert(sa2.spec_get(s) == sa.spec_get(s));
            if k == k0 {
                assert(node_map(sa.spec_get(s)).contains_key(k) ==> s == t);
            }
        }
    }
    assert forall|k: Seq<u8>| #[trigger]
        node_map(Node::Internal(new_inner)).contains_key(k) implies node_map(
        Node::Internal(new_inner),
    )[k] == node_map(Node::Internal(old_inner))[k] by {
        let s = spec_nibble(k, i);
        if s != t {
            assert(sa2.spec_get(s) == sa.spec_get(s));
        }
    }
    assert(node_map(Node::Internal(new_inner)) =~= node_map(Node::Internal(old_inner)).remove(k0));
    assert(children_agree_ok(new_inner)) by {
        assert forall|k1: Seq<u8>, k2: Seq<u8>|
            #[trigger] seq_nodes_map(new_inner.nibbles.array@).contains_key(k1)
                && #[trigger] seq_nodes_map(new_inner.nibbles.array@).contains_key(
                k2,
            ) implies agree_below(k1, k2, i) by {
            assert(node_map(Node::Internal(new_inner)).contains_key(k1));
            assert(node_map(Node::Internal(new_inner)).contains_key(k2));
            assert(seq_nodes_map(old_inner.nibbles.array@).contains_key(k1));
            assert(seq_nodes_map(old_inner.nibbles.array@).contains_key(k2));
        }
    }
    assert(node_wf(Node::Internal(new_inner)));
}

/// Deleting the leaf child at slot `t` of a well-formed internal node with
/// three or more children keeps it well-formed and removes the leaf's key.
proof fn lemma_child_slot_removed<V>(
    old_inner: InternalNode<V>,
    t: int,
    sa2: SparseArray<Node<V>>,
    k0: Seq<u8>,
)
    requires
        node_wf(Node::Internal(old_inner)),
        old_inner.nibbles.spec_has(t),
        old_inner.nibbles.spec_get(t) is Leaf,
        old_inner.nibbles.spec_get(t)->Leaf_0.key@ == k0,
        sa2.wf(),
        sa2.spec_len() == old_inner.nibbles.spec_len() - 1,
        sa2.spec_len() >= 2,
        forall|s: int| sa2.spec_has(s) == (old_inner.nibbles.spec_has(s) && s != t),
        forall|s: int|
            s != t && old_inner.nibbles.spec_has(s) ==> sa2.spec_get(s)
                == old_inner.nibbles.spec_get(s),
    ensures
        ({
            let new_inner = InternalNode { index: old_inner.index, nibbles: sa2 };
            &&& node_wf(Node::Internal(new_inner))
            &&& node_map(Node::Internal(new_inner)) == node_map(Node::Internal(old_inner)).remove(
                k0,
            )
        }),
{
    let sa = old_inner.nibbles;
    let i = old_inner.index as nat;
    let new_inner = InternalNode { index: old_inner.index, nibbles: sa2 };
    lemma_sparse_correspondence(sa);
    lemma_sparse_correspondence(sa2);
    lemma_seq_nodes_wf_elem(sa.array@);
    lemma_internal_map(old_inner);
    assert(node_map(sa.spec_get(t)).contains_key(k0));
    assert(spec_nibble(k0, i) == t);
    assert forall|j: int| 0 <= j < sa2.array@.len() implies node_wf(#[trigger] sa2.array@[j]) by {
        let s = crate::sparse_array::slots_below(sa2.bitmap, 32)[j];
        assert(sa2.spec_has(s) && sa2.spec_get(s) == sa2.array@[j]);
        assert(sa.spec_has(s));
        assert(sa2.spec_get(s) == sa.spec_get(s));
    }
    lemma_seq_nodes_wf_intro(sa2.array@);
    assert(children_nibble_ok(new_inner)) by {
        assert forall|s: int| #[trigger] sa2.spec_has(s) implies child_index_gt(
            sa2.spec_get(s),
            new_inner.index as int,
        ) by {
            assert(sa.spec_has(s));
            assert(sa2.spec_get(s) == sa.spec_get(s));
            assert(child_index_gt(sa.spec_get(s), old_inner.index as int));
        }
        assert forall|s: int, k: Seq<u8>|
            sa2.spec_has(s) && #[trigger] node_map(sa2.spec_get(s)).contains_key(
                k,
            ) implies spec_nibble(k, new_inner.index as nat) == s by {
            assert(sa.spec_has(s));
            assert(node_map(sa.spec_get(s)).contains_key(k));
        }
    }
    lemma_internal_map(new_inner);
    assert forall|k: Seq<u8>| #[trigger]
        node_map(Node::Internal(new_inner)).contains_key(k) == (node_map(
            Node::Internal(old_inner),
        ).contains_key(k) && k != k0) by {
        let s = spec_nibble(k, i);
        if s != t && sa.spec_has(s) {
            assert(sa2.spec_get(s) == sa.spec_get(s));
            if k == k0 {
                assert(node_map(sa.spec_get(s)).contains_key(k) ==> s == t);
            }
        }
        if s == t && sa.spec_has(s) && node_map(sa.spec_get(s)).contains_key(k) {
            assert(k == k0);
        }
    }
    assert forall|k: Seq<u8>| #[trigger]
        node_map(Node::Internal(new_inner)).contains_key(k) implies node_map(
        Node::Internal(new_inner),
    )[k] == node_map(Node::Internal(old_inner))[k] by {
        let s = spec_nibble(k, i);
        assert(sa2.spec_get(s) == sa.spec_get(s));
    }
    assert(node_map(Node::Internal(new_inner)) =~= node_map(Node::Internal(old_inner)).remove(k0));
    assert(children_agree_ok(new_inner)) by {
        assert forall|k1: Seq<u8>, k2: Seq<u8>|
            #[trigger] seq_nodes_map(new_inner.nibbles.array@).contains_key(k1)
                && #[trigger] seq_nodes_map(new_inner.nibbles.array@).contains_key(
                k2,
            ) implies agree_below(k1, k2, i) by {
            assert(node_map(Node::Internal(new_inner)).contains_key(k1));
            assert(node_map(Node::Internal(new_inner)).contains_key(k2));
            assert(seq_nodes_map(old_inner.nibbles.array@).contains_key(k1));
            assert(seq_nodes_map(old_inner.nibbles.array@).contains_key(k2));
        }
    }
    assert(node_wf(Node::Internal(new_inner)));
}

/// When a well-formed internal node has exactly two children and the one at
/// slot `t` is the leaf for `k0`, the other child stands for the node's map
/// with `k0` removed.
proof fn lemma_collapse<V>(old_inner: InternalNode<V>, t: int, t2: int, k0: Seq<u8>)
    requires
        node_wf(Node::Internal(old_inner)),
        old_inner.nibbles.spec_len() == 2,
        old_inner.nibbles.spec_has(t),
        old_inner.nibbles.spec_has(t2),
        t != t2,
        old_inner.nibbles.spec_get(t) is Leaf,
        old_inner.nibbles.spec_get(t)->Leaf_0.key@ == k0,
    ensures
        node_wf(old_inner.nibbles.spec_get(t2)),
        child_index_gt(old_inner.nibbles.spec_get(t2), old_inner.index as int),
        node_map(old_inner.nibbles.spec_get(t2)) == node_map(Node::Internal(old_inner)).remove(k0),
{
    let sa = old_inner.nibbles;
    let i = old_inner.index as nat;
    lemma_sparse_correspondence(sa);
    lemma_seq_nodes_wf_elem(sa.array@);
    lemma_internal_map(old_inner);
    assert(node_wf(sa.spec_get(t2)));
    assert(node_map(sa.spec_get(t)).contains_key(k0));
    assert(spec_nibble(k0, i) == t);
    // only the two named slots are occupied: physical offsets are distinct
    // and there are just two of them
    assert forall|s: int| #[trigger] sa.spec_has(s) implies s == t || s == t2 by {
        if s != t && s != t2 {
            assert(crate::sparse_array::slots_below(sa.bitmap, 32)[sa.spec_index_of(s)] == s);
            assert(crate::sparse_array::slots_below(sa.bitmap, 32)[sa.spec_index_of(t)] == t);
            assert(crate::sparse_array::slots_below(sa.bitmap, 32)[sa.spec_index_of(t2)] == t2);
            assert(0 <= sa.spec_index_of(s) < 2);
            assert(0 <= sa.spec_index_of(t) < 2);
            assert(0 <= sa.spec_index_of(t2) < 2);
            assert(false);
        }
    }
    assert forall|k: Seq<u8>| #[trigger]
        node_map(sa.spec_get(t2)).contains_key(k) == (node_map(
            Node::Internal(old_inner),
        ).contains_key(k) && k != k0) by {
        if node_map(sa.spec_get(t2)).contains_key(k) {
            assert(spec_nibble(k, i) == t2);
            assert(node_map(Node::Internal(old_inner)).contains_key(k));
            if k == k0 {
                assert(spec_nibble(k0, i) == t);
            }
        }
        if node_map(Node::Internal(old_inner)).contains_key(k) && k != k0 {
            let s = spec_nibble(k, i);
            assert(sa.spec_has(s) && node_map(sa.spec_get(s)).contains_key(k));
            if s == t {
                assert(k == k0);
            }
        }
    }
    assert forall|k: Seq<u8>| #[trigger]
        node_map(sa.spec_get(t2)).contains_key(k) implies node_map(sa.spec_get(t2))[k] == node_map(
        Node::Internal(old_inner),
    )[k] by {
        assert(spec_nibble(k, i) == t2);
    }
    assert(node_map(sa.spec_get(t2)) =~= node_map(Node::Internal(old_inner)).remove(k0));
}

/// A well-formed internal node has at most 17 occupied slots: every occupied
/// slot is the nibble of some stored key.
proof fn lemma_internal_len_le_17<V>(inner: InternalNode<V>)
    requires
        node_wf(Node::Internal(inner)),
    ensures
        inner.nibbles.spec_len() <= 17,
{
    lemma_sparse_correspondence(inner.nibbles);
    lemma_seq_nodes_wf_elem(inner.nibbles.array@);
    assert forall|t: int| 17 <= t < 32 implies !crate::sparse_array::spec_bit(
        inner.nibbles.bitmap,
        t,
    ) by {
        if inner.nibbles.spec_has(t) {
            assert(node_wf(inner.nibbles.spec_get(t)));
            lemma_node_map_nonempty(inner.nibbles.spec_get(t));
            let u = choose|u: Seq<u8>|
                #[trigger] node_map(inner.nibbles.spec_get(t)).contains_key(u);
            assert(spec_nibble(u, inner.index as nat) == t);
            lemma_nibble_bound(u, inner.index as nat);
        }
    }
    crate::sparse_array::lemma_slots_below_high_empty(inner.nibbles.bitmap, 17, 32);
    crate::sparse_array::lemma_slots_below_props(inner.nibbles.bitmap, 17);
}

/// The total node count of the subtrees a traversal stack still has to visit.
pub open spec fn stack_size<V>(s: Seq<&Node<V>>) -> nat
    decreases s.len(),
{
    if s.len() == 0 {
        0
    } else {
        stack_size(s.drop_last()) + node_size(*s.last())
    }
}

/// Pushing a subtree onto a traversal stack adds its size.
proof fn lemma_stack_size_push<V>(s: Seq<&Node<V>>, x: &Node<V>)
    ensures
        stack_size(s.push(x)) == stack_size(s) + node_size(*x),
{
    assert(s.push(x).drop_last() =~= s);
    assert(s.push(x).last() == x);
}

/// A child of a well-formed internal node is well-formed and stands for a
/// part of the node's map.
proof fn lemma_child_submap<V>(inner: InternalNode<V>, s: int)
    requires
        node_wf(Node::Internal(inner)),
        inner.nibbles.spec_has(s),
    ensures
        node_wf(inner.nibbles.spec_get(s)),
        node_map(inner.nibbles.spec_get(s)).submap_of(node_map(Node::Internal(inner))),
{
    lemma_sparse_correspondence(inner.nibbles);
    lemma_seq_nodes_wf_elem(inner.nibbles.array@);
    lemma_internal_map(inner);
    assert forall|k: Seq<u8>| #[trigger]
        node_map(inner.nibbles.spec_get(s)).contains_key(k) implies node_map(
        Node::Internal(inner),
    ).contains_key(k) && node_map(Node::Internal(inner))[k] == node_map(
        inner.nibbles.spec_get(s),
    )[k] by {
        assert(spec_nibble(k, inner.index as nat) == s);
    }
}

/// Whether a stored key `k` belongs to a prefix query: it extends `prefix`,
/// and a key equal to the prefix itself counts only when `with_prefix` is set.
pub open spec fn key_matches(k: Seq<u8>, prefix: Seq<u8>, with_prefix: bool) -> bool {
    prefix.is_prefix_of(k) && (with_prefix || k != prefix)
}

/// Whether some subtree on the traversal stack holds the key `k`.
pub open spec fn stack_has_key<V>(s: Seq<&Node<V>>, k: Seq<u8>) -> bool {
    exists|i: int| 0 <= i < s.len() && #[trigger] node_map(*s[i]).contains_key(k)
}

/// The traversal stack is sorted for ascending output: every key below a
/// deeper (later-popped) entry is above every key below a shallower one.
pub open spec fn stack_ordered<V>(s: Seq<&Node<V>>) -> bool {
    forall|i1: int, i2: int, k1: Seq<u8>, k2: Seq<u8>|
        #![trigger node_map(*s[i1]).contains_key(k1), node_map(*s[i2]).contains_key(k2)]
        0 <= i1 < i2 < s.len() && node_map(*s[i1]).contains_key(k1) && node_map(
            *s[i2],
        ).contains_key(k2) ==> key_lt(k2, k1)
}

/// Keys under a lower slot of a well-formed internal node order strictly
/// before keys under a higher slot.
proof fn lemma_sibling_order<V>(inner: InternalNode<V>, s1: int, s2: int, k1: Seq<u8>, k2: Seq<u8>)
    requires
        node_wf(Node::Internal(inner)),
        inner.nibbles.spec_has(s1),
        inner.nibbles.spec_has(s2),
        s1 < s2,
        node_map(inner.nibbles.spec_get(s1)).contains_key(k1),
        node_map(inner.nibbles.spec_get(s2)).contains_key(k2),
    ensures
        key_lt(k1, k2),
{
    lemma_internal_map(inner);
    assert(node_map(Node::Internal(inner)).contains_key(k1));
    assert(node_map(Node::Internal(inner)).contains_key(k2));
    assert(seq_nodes_map(inner.nibbles.array@).contains_key(k1));
    assert(seq_nodes_map(inner.nibbles.array@).contains_key(k2));
    assert(agree_below(k1, k2, inner.index as nat));
    assert(spec_nibble(k1, inner.index as nat) == s1);
    assert(spec_nibble(k2, inner.index as nat) == s2);
    assert(key_lt(k1, k2));
}

/// At a branch position still inside the prefix, every key extending the
/// prefix selects the prefix's own slot.
proof fn lemma_prefix_fixes_slot(k: Seq<u8>, prefix: Seq<u8>, index: nat)
    requires
        prefix.is_prefix_of(k),
        index / 2 < prefix.len(),
    ensures
        spec_nibble(k, index) == spec_nibble(prefix, index),
{
    assert(prefix =~= k.subrange(0, prefix.len() as int));
    assert(k[(index / 2) as int] == prefix[(index / 2) as int]);
}

/// Popping splits a stack's key population into the top subtree's keys and
/// the rest, and keeps the rest sorted.
proof fn lemma_stack_split<V>(pre: Seq<&Node<V>>)
    requires
        pre.len() >= 1,
    ensures
        forall|k: Seq<u8>|
            #![trigger stack_has_key(pre, k)]
            #![trigger stack_has_key(pre.drop_last(), k)]
            stack_has_key(pre, k) == (stack_has_key(pre.drop_last(), k) || node_map(
                *pre.last(),
            ).contains_key(k)),
        stack_ordered(pre) ==> stack_ordered(pre.drop_last()),
        stack_ordered(pre) ==> forall|i: int, k1: Seq<u8>, k2: Seq<u8>|
            0 <= i < pre.drop_last().len() && #[trigger] node_map(
                *pre.drop_last()[i],
            ).contains_key(k1) && #[trigger] node_map(*pre.last()).contains_key(k2) ==> key_lt(
                k2,
                k1,
            ),
{
    let rest = pre.drop_last();
    assert forall|k: Seq<u8>|
        stack_has_key(pre, k) == (stack_has_key(rest, k) || node_map(
            *pre.last(),
        ).contains_key(k)) by {
        if stack_has_key(pre, k) {
            let i = choose|i: int| 0 <= i < pre.len() && #[trigger] node_map(*pre[i]).contains_key(k);
            if i < pre.len() - 1 {
                assert(rest[i] == pre[i]);
                assert(node_map(*rest[i]).contains_key(k));
            }
        }
        if stack_has_key(rest, k) {
            let i = choose|i: int| 0 <= i < rest.len() && #[trigger] node_map(*rest[i]).contains_key(k);
            assert(pre[i] == rest[i]);
            assert(node_map(*pre[i]).contains_key(k));
        }
        if node_map(*pre.last()).contains_key(k) {
            assert(node_map(*pre[pre.len() - 1]).contains_key(k));
        }
    }
    if stack_ordered(pre) {
        assert forall|i1: int, i2: int, k1: Seq<u8>, k2: Seq<u8>|
            0 <= i1 < i2 < rest.len() && node_map(*rest[i1]).contains_key(k1) && node_map(
                *rest[i2],
            ).contains_key(k2) implies key_lt(k2, k1) by {
            assert(rest[i1] == pre[i1] && rest[i2] == pre[i2]);
            assert(node_map(*pre[i1]).contains_key(k1));
            assert(node_map(*pre[i2]).contains_key(k2));
        }
        assert forall|i: int, k1: Seq<u8>, k2: Seq<u8>|
            0 <= i < rest.len() && #[trigger] node_map(*rest[i]).contains_key(k1)
                && #[trigger] node_map(*pre.last()).contains_key(k2) implies key_lt(k2, k1) by {
            assert(rest[i] == pre[i]);
            assert(node_map(*pre[i]).contains_key(k1));
            assert(node_map(*pre[pre.len() - 1]).contains_key(k2));
        }
    }
}

/// Replacing the top of a sorted stack by its children, in reverse slot
/// order, keeps the stack sorted and its key population unchanged.
proof fn lemma_expanded_stack<V>(
    base: Seq<&Node<V>>,
    t: &Node<V>,
    s2: Seq<&Node<V>>,
    inner: InternalNode<V>,
)
    requires
        *t == Node::Internal(inner),
        node_wf(*t),
        stack_ordered(base.push(t)),
        s2.len() == base.len() + inner.nibbles.array@.len(),
        forall|i: int| 0 <= i < base.len() ==> s2[i] == base[i],
        forall|i: int|
            base.len() <= i < s2.len() ==> *#[trigger] s2[i] == inner.nibbles.array@[inner.nibbles.array@.len() - 1 - (i
                - base.len())],
    ensures
        stack_ordered(s2),
        forall|k: Seq<u8>|
            #![trigger stack_has_key(s2, k)]
            stack_has_key(s2, k) == (stack_has_key(base, k) || node_map(*t).contains_key(k)),
{
    let arr = inner.nibbles.array@;
    let b = base.len() as int;
    lemma_sparse_correspondence(inner.nibbles);
    lemma_seq_nodes_map(arr);
    lemma_seq_nodes_wf_elem(arr);
    // each stacked child is a submap of the expanded node
    assert forall|j: int| 0 <= j < arr.len() implies node_map(#[trigger] arr[j]).submap_of(
        node_map(*t),
    ) by {
        let slot = crate::sparse_array::slots_below(inner.nibbles.bitmap, 32)[j];
        assert(inner.nibbles.spec_has(slot) && inner.nibbles.spec_get(slot) == arr[j]);
        lemma_child_submap(inner, slot);
    }
    assert forall|i1: int, i2: int, k1: Seq<u8>, k2: Seq<u8>|
        0 <= i1 < i2 < s2.len() && node_map(*s2[i1]).contains_key(k1) && node_map(
            *s2[i2],
        ).contains_key(k2) implies key_lt(k2, k1) by {
        if i2 < b {
            assert(s2[i1] == base[i1] && s2[i2] == base[i2]);
            assert(base.push(t)[i1] == base[i1] && base.push(t)[i2] == base[i2]);
            assert(node_map(*base.push(t)[i1]).contains_key(k1));
            assert(node_map(*base.push(t)[i2]).contains_key(k2));
        } else if i1 < b {
            // a pushed child's key lies below the expanded node, which the
            // old stack ordered above everything deeper
            let j2 = arr.len() - 1 - (i2 - b);
            assert(*s2[i2] == arr[j2]);
            assert(node_map(arr[j2]).contains_key(k2));
            assert(node_map(*t).contains_key(k2));
            assert(base.push(t)[i1] == base[i1] && base.push(t)[b] == t);
            assert(node_map(*base.push(t)[i1]).contains_key(k1));
            assert(node_map(*base.push(t)[b]).contains_key(k2));
        } else {
            // two pushed children: the deeper one holds the lower slot
            let j1 = arr.len() - 1 - (i1 - b);
            let j2 = arr.len() - 1 - (i2 - b);
            assert(*s2[i1] == arr[j1] && *s2[i2] == arr[j2]);
            assert(0 <= j2 < j1 < arr.len());
            let slot1 = crate::sparse_array::slots_below(inner.nibbles.bitmap, 32)[j1];
            let slot2 = crate::sparse_array::slots_below(inner.nibbles.bitmap, 32)[j2];
            assert(inner.nibbles.spec_has(slot1) && inner.nibbles.spec_get(slot1) == arr[j1]);
            assert(inner.nibbles.spec_has(slot2) && inner.nibbles.spec_get(slot2) == arr[j2]);
            assert(slot2 < slot1) by {
                crate::sparse_array::lemma_slots_below_props(inner.nibbles.bitmap, 32);
            }
            lemma_sibling_order(inner, slot2, slot1, k2, k1);
        }
    }
    assert forall|k: Seq<u8>|
        stack_has_key(s2, k) == (stack_has_key(base, k) || node_map(*t).contains_key(k)) by {
        if stack_has_key(s2, k) {
            let i = choose|i: int| 0 <= i < s2.len() && #[trigger] node_map(*s2[i]).contains_key(k);
            if i < b {
                assert(s2[i] == base[i]);
                assert(node_map(*base[i]).contains_key(k));
            } else {
                let j = arr.len() - 1 - (i - b);
                assert(*s2[i] == arr[j]);
                assert(node_map(arr[j]).contains_key(k));
                assert(node_map(*t).contains_key(k));
            }
        }
        if stack_has_key(base, k) {
            let i = choose|i: int|
                0 <= i < base.len() && #[trigger] node_map(*base[i]).contains_key(k);
            assert(s2[i] == base[i]);
            assert(node_map(*s2[i]).contains_key(k));
        }
        if node_map(*t).contains_key(k) {
            let j = choose|j: int| 0 <= j < arr.len() && #[trigger] node_map(arr[j]).contains_key(k)
                && seq_nodes_map(arr)[k] == node_map(arr[j])[k];
            let i = b + (arr.len() - 1 - j);
            assert(*s2[i] == arr[j]);
            assert(node_map(*s2[i]).contains_key(k));
        }
    }
}

/// How a recursive deletion step left the current node.
enum RemoveStep {
    /// A leaf below was deleted; the node was repaired in place.
    Removed,
    /// The node itself is the leaf to delete; the parent must unlink it.
    RemoveSelf,
}

impl<V> Trie<V> {
    /// Every node of the trie satisfies the structural invariants.
    pub open spec fn wf(self) -> bool {
        match self.root {
            None => true,
            Some(n) => node_wf(n),
        }
    }

    /// Creates a new, empty qp-trie with no height bound.
    pub fn new() -> (t: Self)
        ensures
            t.wf(),
            t@ == Map::<Seq<u8>, V>::empty(),
            t.max_height == usize::MAX,
    {
        Trie { root: None, max_height: usize::MAX }
    }

    /// Bounds the number of internal-node levels `insert` may create: inserts
    /// that would make the trie higher than `max_height` are refused.
    pub fn max_height(self, max_height: usize) -> (t: Self)
        ensures
            t.root == self.root,
            t.max_height == max_height,
            t@ == self@,
            t.wf() == self.wf(),
    {
        Trie { root: self.root, max_height }
    }

    /// Returns `true` if the trie is empty.
    #[inline]
    pub fn is_empty(&self) -> (r: bool)
        ensures
            r == (self.root is None),
            self.wf() ==> r == (self@ == Map::<Seq<u8>, V>::empty()),
    {
        proof {
            if self.wf() && self.root is Some {
                lemma_node_map_nonempty(self.root.unwrap());
            }
        }
        self.root.is_none()
    }

    /// The root node, if any.
    #[inline]
    pub fn root(&self) -> (r: Option<&Node<V>>)
        ensures
            (match r {
                Some(n) => self.root == Some(*n),
                None => self.root is None,
            }),
    {
        self.root.as_ref()
    }

    /// The logical slot selected by `key` at nibble position `index`: 0 when
    /// the key is exhausted there, else 1 + the 4-bit nibble value.
    fn nibble(key: &Vec<u8>, index: usize) -> (r: usize)
        ensures
            r as int == spec_nibble(key@, index as nat),
            r < 17,
    {
        let key_len = key.len();
        if index / 2 >= key_len {
            0
        } else {
            let nib = key[index / 2];
            proof {
                assert((nib >> 4u8) <= 15 && (nib & 0xfu8) <= 15) by (bit_vector);
            }
            if index % 2 == 0 {
                1 + (nib >> 4) as usize
            } else {
                1 + (nib & 0xf) as usize
            }
        }
    }

    /// Byte equality of two keys.
    fn keys_equal(a: &Vec<u8>, b: &Vec<u8>) -> (r: bool)
        ensures
            r == (a@ == b@),
    {
        if a.len() != b.len() {
            return false;
        }
        let mut i: usize = 0;
        while i < a.len()
            invariant
                a@.len() == b@.len(),
                i <= a@.len(),
                forall|j: int| 0 <= j < i ==> a@[j] == b@[j],
            decreases a@.len() - i,
        {
            if a[i] != b[i] {
                return false;
            }
            i = i + 1;
        }
        proof {
            assert(a@ =~= b@);
        }
        true
    }

    /// Whether `prefix` is a byte-prefix of `key`.
    fn is_prefix(prefix: &Vec<u8>, key: &Vec<u8>) -> (r: bool)
        ensures
            r == prefix@.is_prefix_of(key@),
    {
        if prefix.len() > key.len() {
            return false;
        }
        let mut i: usize = 0;
        while i < prefix.len()
            invariant
                i <= prefix@.len() <= key@.len(),
                forall|j: int| 0 <= j < i ==> prefix@[j] == key@[j],
            decreases prefix@.len() - i,
        {
            if prefix[i] != key[i] {
                proof {
                    assert(!prefix@.is_prefix_of(key@)) by {
                        if prefix@.is_prefix_of(key@) {
                            assert(prefix@[i as int] == key@.subrange(
                                0,
                                prefix@.len() as int,
                            )[i as int]);
                        }
                    }
                }
                return false;
            }
            i = i + 1;
        }
        proof {
            assert(prefix@ =~= key@.subrange(0, prefix@.len() as int));
        }
        true
    }

    /// An owned copy of a key's bytes.
    fn clone_key(v: &Vec<u8>) -> (r: Vec<u8>)
        ensures
            r@ == v@,
    {
        let mut r: Vec<u8> = Vec::new();
        let mut i: usize = 0;
        while i < v.len()
            invariant
                i <= v@.len(),
                r@ == v@.subrange(0, i as int),
            decreases v@.len() - i,
        {
            r.push(v[i]);
            proof {
                assert(r@ =~= v@.subrange(0, i + 1));
            }
            i = i + 1;
        }
        proof {
            assert(r@ =~= v@);
        }
        r
    }

    /// Descends from `root` along `key`'s exact nibble slots to the only leaf
    /// that could hold `key`, failing fast on any absent slot.
    fn find_exact_leaf<'t>(root: &'t Node<V>, key: &Vec<u8>) -> (r: Option<&'t LeafNode<V>>)
        requires
            node_wf(*root),
        ensures
            (match r {
                Some(leaf) => node_map(*root).contains_key(key@) && leaf.key@ == key@ && node_map(
                    *root,
                )[key@] == leaf.val,
                None => !node_map(*root).contains_key(key@),
            }),
        decreases *root,
    {
        match root {
            Node::Leaf(leaf) => {
                if Self::keys_equal(&leaf.key, key) {
                    Some(leaf)
                } else {
                    None
                }
            },
            Node::Internal(inner) => {
                proof {
                    lemma_internal_map(*inner);
                    lemma_node_wf_internal_child_in_range(*inner, key@);
                }
                let nib = Self::nibble(key, inner.index);
                match inner.nibbles.get(nib) {
                    None => None,
                    Some(child) => Self::find_exact_leaf(child, key),
                }
            },
            Node::Empty => {
                proof {
                    assert(false);
                }
                None
            },
        }
    }

    /// Returns the value associated with the key `key`, or `None` if the key
    /// is not present in the trie.
    pub fn get(&self, key: &Vec<u8>) -> (r: Option<&V>)
        requires
            self.wf(),
        ensures
            (match r {
                Some(v) => self@.contains_key(key@) && *v == self@[key@],
                None => !self@.contains_key(key@),
            }),
    {
        let root = match self.root.as_ref() {
            None => {
                return None;
            },
            Some(root) => root,
        };
        let leaf = match Self::find_exact_leaf(root, key) {
            None => {
                return None;
            },
            Some(leaf) => leaf,
        };
        Some(&leaf.val)
    }

    /// Descends from `root` on `key`'s nibbles, taking the lowest occupied
    /// slot wherever the exact slot is absent, to reach some leaf together
    /// with its depth. Among all stored keys, the leaf's key shares the
    /// longest nibble prefix with `key`.
    fn find_closest_leaf<'t>(root: &'t Node<V>, key: &Vec<u8>) -> (r: (&'t LeafNode<V>, usize))
        requires
            node_wf(*root),
        ensures
            node_map(*root).contains_key(r.0.key@),
            node_map(*root)[r.0.key@] == r.0.val,
            r.0.key@ == spec_closest(*root, key@).0,
            r.1 as nat == spec_closest(*root, key@).1,
            *root is Internal ==> r.1 >= 1 && r.1 + root->Internal_0.index <= usize::MAX,
            *root is Leaf ==> r.1 == 0,
            node_map(*root).contains_key(key@) ==> r.0.key@ == key@,
            r.0.key@ != key@ ==> forall|u: Seq<u8>|
                node_map(*root).contains_key(u) && u != key@ ==> spec_split_index(key@, u)
                    <= spec_split_index(key@, r.0.key@),
        decreases *root,
    {
        match root {
            Node::Leaf(leaf) => (leaf, 0),
            Node::Internal(inner) => {
                proof {
                    lemma_internal_map(*inner);
                    lemma_node_wf_internal_child_in_range(*inner, key@);
                }
                let nib = Self::nibble(key, inner.index);
                let child = inner.nibbles.get_or_head(nib);
                let ghost s_eff = if inner.nibbles.spec_has(nib as int) {
                    nib as int
                } else {
                    inner.nibbles.spec_min_slot()
                };
                proof {
                    assert(*child == inner.nibbles.spec_get(s_eff));
                    assert(node_wf(*child));
                }
                let (leaf, height) = Self::find_closest_leaf(child, key);
                proof {
                    let i = inner.index as nat;
                    let km = key@;
                    let v = leaf.key@;
                    // the found leaf's key is below the chosen child, hence in
                    // this node's map, selecting exactly the chosen slot
                    assert(node_map(*child).contains_key(v));
                    assert(spec_nibble(v, i) == s_eff);
                    assert(node_map(*root).contains_key(v));
                    // no height overflow: a deeper internal branches at a
                    // strictly larger position
                    assert(child_index_gt(*child, inner.index as int));
                    // a present key is found exactly
                    if node_map(*root).contains_key(km) {
                        assert(inner.nibbles.spec_has(spec_nibble(km, i)));
                        assert(s_eff == spec_nibble(km, i));
                        assert(node_map(*child).contains_key(km));
                    }
                    if v != km {
                        assert forall|u: Seq<u8>|
                            node_map(*root).contains_key(u) && u != km implies spec_split_index(
                            km,
                            u,
                        ) <= spec_split_index(km, v) by {
                            let su = spec_nibble(u, i);
                            assert(inner.nibbles.spec_has(su) && node_map(
                                inner.nibbles.spec_get(su),
                            ).contains_key(u));
                            if su == s_eff {
                                assert(node_map(*child).contains_key(u));
                            } else {
                                // `u` lives under a sibling slot: it diverges
                                // from `key` no later than this node's index,
                                // while the found leaf diverges no earlier
                                lemma_split_index(km, u);
                                lemma_split_index(km, v);
                                let du = spec_split_index(km, u);
                                let dv = spec_split_index(km, v);
                                if inner.nibbles.spec_has(spec_nibble(km, i)) {
                                    assert(s_eff == spec_nibble(km, i));
                                    assert(su != spec_nibble(km, i));
                                } else {
                                    assert(su != spec_nibble(km, i));
                                }
                                assert(spec_nibble(u, i) != spec_nibble(km, i));
                                if du > i {
                                    assert(spec_nibble(km, i) == spec_nibble(u, i));
                                }
                                assert(du <= i);
                                if dv < i {
                                    // below this node all keys agree, so the
                                    // first divergence from `key` is shared
                                    assert(seq_nodes_map(inner.nibbles.array@).contains_key(u));
                                    assert(seq_nodes_map(inner.nibbles.array@).contains_key(v));
                                    assert(agree_below(u, v, i));
                                    assert forall|j: nat| j < dv implies spec_nibble(km, j)
                                        == spec_nibble(u, j) by {
                                        assert(spec_nibble(km, j) == spec_nibble(v, j));
                                        assert(spec_nibble(u, j) == spec_nibble(v, j));
                                    }
                                    assert(spec_nibble(u, dv) == spec_nibble(v, dv));
                                    assert(spec_nibble(km, dv) != spec_nibble(u, dv));
                                    lemma_split_index_unique(km, u, dv);
                                }
                            }
                        }
                    }
                }
                (leaf, height + 1)
            },
            Node::Empty => {
                proof {
                    assert(false);
                }
                vstd::pervasive::unreached()
            },
        }
    }

    /// Descends from `root` along the exact nibble slots of a key known to be
    /// present, and hands out mutable access to its value.
    fn find_exact_leaf_mut<'t>(root: &'t mut Node<V>, key: &Vec<u8>) -> (r: &'t mut V)
        requires
            node_wf(*old(root)),
            node_map(*old(root)).contains_key(key@),
        ensures
            *r == node_map(*old(root))[key@],
            node_wf(*final(root)),
            node_map(*final(root)) == node_map(*old(root)).insert(key@, *final(r)),
            (*final(root) is Internal) == (*old(root) is Internal),
            *old(root) is Internal ==> final(root)->Internal_0.index == old(
                root,
            )->Internal_0.index,
        decreases *old(root),
    {
        match root {
            Node::Leaf(leaf) => {
                proof {
                    assert(leaf.key@ == key@);
                    assert forall|x: V| #[trigger]
                        Map::<Seq<u8>, V>::empty().insert(key@, x) == Map::<Seq<u8>, V>::empty()
                            .insert(key@, leaf.val).insert(key@, x) by {
                        assert(Map::<Seq<u8>, V>::empty().insert(key@, x)
                            =~= Map::<Seq<u8>, V>::empty().insert(key@, leaf.val).insert(key@, x));
                    }
                }
                &mut leaf.val
            },
            Node::Internal(inner) => {
                proof {
                    lemma_internal_map(*inner);
                    lemma_node_wf_internal_child_in_range(*inner, key@);
                }
                let nib = Self::nibble(key, inner.index);
                let ghost old_inner = *inner;
                proof {
                    assert(old_inner.nibbles.spec_has(nib as int));
                    assert(node_map(old_inner.nibbles.spec_get(nib as int)).contains_key(key@));
                    // the key overwrites an existing one, so it agrees with
                    // everything below this node before this node's index
                    assert forall|u: Seq<u8>|
                        node_map(Node::Internal(old_inner)).contains_key(u) implies agree_below(
                        key@,
                        u,
                        old_inner.index as nat,
                    ) by {
                        assert(seq_nodes_map(old_inner.nibbles.array@).contains_key(u));
                        assert(seq_nodes_map(old_inner.nibbles.array@).contains_key(key@));
                    }
                    // whatever value the caller leaves behind in the child,
                    // this node stays well-formed and its map gains that value
                    assert forall|sa2: SparseArray<Node<V>>, w: Node<V>, x: V|
                        #![trigger node_map(w), sa2.array@, node_map(old_inner.nibbles.spec_get(nib as int)).insert(key@, x)]
                        (sa2.bitmap == old_inner.nibbles.bitmap && sa2.array@
                            == old_inner.nibbles.array@.update(
                            old_inner.nibbles.spec_index_of(nib as int),
                            w,
                        ) && node_wf(w) && child_index_gt(w, old_inner.index as int) && node_map(w)
                            == node_map(old_inner.nibbles.spec_get(nib as int)).insert(
                            key@,
                            x,
                        )) implies (node_wf(
                        Node::Internal(InternalNode { index: old_inner.index, nibbles: sa2 }),
                    ) && node_map(
                        Node::Internal(InternalNode { index: old_inner.index, nibbles: sa2 }),
                    ) == node_map(Node::Internal(old_inner)).insert(key@, x)) by {
                        lemma_child_replaced(old_inner, nib as int, w, sa2, key@, x);
                    }
                }
                match inner.nibbles.get_mut(nib) {
                    Some(child) => {
                        proof {
                            assert(node_wf(*child));
                        }
                        Self::find_exact_leaf_mut(child, key)
                    },
                    None => vstd::pervasive::unreached(),
                }
            },
            Node::Empty => vstd::pervasive::unreached(),
        }
    }

    /// Returns a mutable value associated with the key `key`, or `None` if
    /// the key is not present in the trie.
    pub fn get_mut(&mut self, key: &Vec<u8>) -> (r: Option<&mut V>)
        requires
            old(self).wf(),
        ensures
            (match r {
                Some(v) => {
                    &&& old(self)@.contains_key(key@)
                    &&& *v == old(self)@[key@]
                    &&& final(self).wf()
                    &&& final(self)@ == old(self)@.insert(key@, *final(v))
                    &&& final(self).max_height == old(self).max_height
                },
                None => !old(self)@.contains_key(key@) && *final(self) == *old(self),
            }),
    {
        let present = match self.root.as_ref() {
            None => false,
            Some(root) => Self::find_exact_leaf(root, key).is_some(),
        };
        if !present {
            return None;
        }
        match self.root.as_mut() {
            Some(node) => Some(Self::find_exact_leaf_mut(node, key)),
            None => vstd::pervasive::unreached(),
        }
    }

    /// Installs, in place of the leaf `*node`, a new internal node at nibble
    /// position `index` whose two children are the old leaf and a new leaf
    /// holding `key` and `val`.
    fn replace_leaf_with_internal_node(node: &mut Node<V>, index: usize, key: Vec<u8>, val: V)
        requires
            node_wf(*old(node)),
            *old(node) is Leaf,
            !node_map(*old(node)).contains_key(key@),
            index < usize::MAX,
            spec_nibble(key@, index as nat) != spec_nibble(old(node)->Leaf_0.key@, index as nat),
            agree_below(key@, old(node)->Leaf_0.key@, index as nat),
        ensures
            node_wf(*final(node)),
            node_map(*final(node)) == node_map(*old(node)).insert(key@, val),
            *final(node) is Internal,
            final(node)->Internal_0.index == index,
    {
        let ghost old_node = *node;
        let ghost key_view = key@;
        let orig_nibble = Self::nibble(&node.as_leaf().key, index);
        let new_nibble = Self::nibble(&key, index);
        let mut taken = Node::Empty;
        core::mem::swap(node, &mut taken);
        let mut nibbles = SparseArray::<Node<V>>::with_capacity(2);
        nibbles.set(orig_nibble, taken);
        let new_leaf = Node::Leaf(LeafNode { key, val });
        let ghost w_leaf = new_leaf;
        nibbles.set(new_nibble, new_leaf);
        *node = Node::Internal(InternalNode { index, nibbles });
        proof {
            lemma_splice(
                old_node,
                node->Internal_0.nibbles,
                w_leaf,
                index,
                old_node->Leaf_0.key@,
                key_view,
                val,
            );
        }
    }

    /// Splices, above the over-indexed subtree `*node`, a new internal node
    /// at nibble position `index` whose two children are the old subtree and
    /// a new leaf holding `key` and `val`. `leaf_key` is a key stored below
    /// the subtree, which fixes the subtree's slot.
    fn new_internal_for_shorter_index(
        node: &mut Node<V>,
        leaf_key: &Vec<u8>,
        index: usize,
        key: Vec<u8>,
        val: V,
    )
        requires
            node_wf(*old(node)),
            *old(node) is Internal,
            old(node)->Internal_0.index > index,
            !node_map(*old(node)).contains_key(key@),
            node_map(*old(node)).contains_key(leaf_key@),
            index < usize::MAX,
            spec_nibble(key@, index as nat) != spec_nibble(leaf_key@, index as nat),
            agree_below(key@, leaf_key@, index as nat),
        ensures
            node_wf(*final(node)),
            node_map(*final(node)) == node_map(*old(node)).insert(key@, val),
            *final(node) is Internal,
            final(node)->Internal_0.index == index,
    {
        let ghost old_node = *node;
        let ghost key_view = key@;
        let orig_nibble = Self::nibble(leaf_key, index);
        let new_nibble = Self::nibble(&key, index);
        let mut taken = Node::Empty;
        core::mem::swap(node, &mut taken);
        let mut nibbles = SparseArray::<Node<V>>::with_capacity(2);
        nibbles.set(orig_nibble, taken);
        let new_leaf = Node::Leaf(LeafNode { key, val });
        let ghost w_leaf = new_leaf;
        nibbles.set(new_nibble, new_leaf);
        *node = Node::Internal(InternalNode { index, nibbles });
        proof {
            lemma_splice(
                old_node,
                node->Internal_0.nibbles,
                w_leaf,
                index,
                leaf_key@,
                key_view,
                val,
            );
        }
    }

    /// Whether inserting `key` must create a new internal node: descends on
    /// exact slots through internals branching at or before `split_index`.
    fn needs_new_internal(root: &Node<V>, key: &Vec<u8>, split_index: usize) -> (r: bool)
        requires
            node_wf(*root),
        ensures
            r == spec_splice_needed(*root, key@, split_index as nat),
        decreases *root,
    {
        match root {
            Node::Leaf(_) => true,
            Node::Internal(inner) => {
                if inner.index <= split_index {
                    proof {
                        lemma_node_wf_internal_child_in_range(*inner, key@);
                    }
                    let nib = Self::nibble(key, inner.index);
                    match inner.nibbles.get(nib) {
                        Some(child) => Self::needs_new_internal(child, key, split_index),
                        None => false,
                    }
                } else {
                    true
                }
            },
            Node::Empty => vstd::pervasive::unreached(),
        }
    }

    /// Places `key` and `val` below `*node`: descends on exact slots through
    /// internals branching at or before `split_index`, then either fills an
    /// absent slot with a new leaf or splices in a new internal node at
    /// `split_index`. `leaf_key` is the stored key closest to `key`, whose
    /// divergence from `key` fixed `split_index`.
    fn insert_rec(node: &mut Node<V>, key: Vec<u8>, val: V, split_index: usize, leaf_key: &Vec<u8>)
        requires
            node_wf(*old(node)),
            !node_map(*old(node)).contains_key(key@),
            split_index < usize::MAX,
            node_map(*old(node)).contains_key(leaf_key@),
            agree_below(key@, leaf_key@, split_index as nat),
            spec_nibble(key@, split_index as nat) != spec_nibble(leaf_key@, split_index as nat),
            forall|u: Seq<u8>|
                node_map(*old(node)).contains_key(u) && agree_below(u, key@, split_index as nat)
                    ==> spec_nibble(u, split_index as nat) != spec_nibble(
                    key@,
                    split_index as nat,
                ),
        ensures
            node_wf(*final(node)),
            node_map(*final(node)) == node_map(*old(node)).insert(key@, val),
            *final(node) is Internal,
            final(node)->Internal_0.index == split_index || (*old(node) is Internal
                && final(node)->Internal_0.index == old(node)->Internal_0.index),
        decreases *old(node),
    {
        let ghost kv = key@;
        let ghost old_node = *node;
        if node.is_leaf() {
            proof {
                // the singleton's key is the closest leaf's key
                assert(old_node->Leaf_0.key@ == leaf_key@);
            }
            Self::replace_leaf_with_internal_node(node, split_index, key, val);
            return ;
        }
        proof {
            assert(*node is Internal);
        }
        let shallow = node.as_internal().index <= split_index;
        if !shallow {
            Self::new_internal_for_shorter_index(node, leaf_key, split_index, key, val);
            return ;
        }
        let inner = node.as_mut_internal();
        let ghost old_inner = *inner;
        let nib = Self::nibble(&key, inner.index);
        proof {
            lemma_internal_map(old_inner);
            lemma_node_wf_internal_child_in_range(old_inner, kv);
            // every key below agrees with `key` before this node's index
            assert forall|u: Seq<u8>|
                node_map(Node::Internal(old_inner)).contains_key(u) implies agree_below(
                kv,
                u,
                old_inner.index as nat,
            ) by {
                assert(seq_nodes_map(old_inner.nibbles.array@).contains_key(u));
                assert(seq_nodes_map(old_inner.nibbles.array@).contains_key(leaf_key@));
                assert(agree_below(u, leaf_key@, old_inner.index as nat));
                assert forall|j: nat| j < old_inner.index as nat implies spec_nibble(kv, j)
                    == spec_nibble(u, j) by {
                    assert(spec_nibble(u, j) == spec_nibble(leaf_key@, j));
                    assert(spec_nibble(kv, j) == spec_nibble(leaf_key@, j));
                }
            }
        }
        if inner.nibbles.has_sparse_index(nib) {
            proof {
                // branching exactly at the split with the key's slot present
                // would contradict the closest leaf's maximality
                if old_inner.index == split_index {
                    assert(node_wf(old_inner.nibbles.spec_get(nib as int)));
                    lemma_node_map_nonempty(old_inner.nibbles.spec_get(nib as int));
                    let u = choose|u: Seq<u8>|
                        #[trigger] node_map(old_inner.nibbles.spec_get(nib as int)).contains_key(u);
                    assert(spec_nibble(u, old_inner.index as nat) == nib as int);
                    assert(node_map(Node::Internal(old_inner)).contains_key(u));
                    assert(agree_below(kv, u, old_inner.index as nat));
                    assert forall|j: nat| j < split_index as nat implies spec_nibble(u, j)
                        == spec_nibble(kv, j) by {
                        assert(spec_nibble(kv, j) == spec_nibble(u, j));
                    }
                    assert(agree_below(u, kv, split_index as nat));
                    assert(spec_nibble(u, split_index as nat) == spec_nibble(
                        kv,
                        split_index as nat,
                    ));
                    assert(false);
                }
                assert(old_inner.index < split_index);
                // the closest leaf's key descends along the same slot
                assert(spec_nibble(leaf_key@, old_inner.index as nat) == spec_nibble(
                    kv,
                    old_inner.index as nat,
                ));
                assert(node_map(old_inner.nibbles.spec_get(nib as int)).contains_key(leaf_key@));
            }
            match inner.nibbles.get_mut(nib) {
                Some(child) => {
                    proof {
                        assert(node_wf(*child));
                        assert forall|u: Seq<u8>|
                            node_map(*child).contains_key(u) && agree_below(
                                u,
                                kv,
                                split_index as nat,
                            ) implies spec_nibble(u, split_index as nat) != spec_nibble(
                            kv,
                            split_index as nat,
                        ) by {
                            assert(node_map(Node::Internal(old_inner)).contains_key(u));
                        }
                    }
                    Self::insert_rec(child, key, val, split_index, leaf_key);
                },
                None => vstd::pervasive::unreached(),
            }
            proof {
                lemma_child_replaced(
                    old_inner,
                    nib as int,
                    inner.nibbles.spec_get(nib as int),
                    inner.nibbles,
                    kv,
                    val,
                );
            }
        } else {
            proof {
                lemma_internal_len_le_17(old_inner);
            }
            let new_leaf = Node::Leaf(LeafNode { key, val });
            let ghost w_leaf = new_leaf;
            inner.nibbles.set(nib, new_leaf);
            proof {
                lemma_child_added(old_inner, inner.nibbles, w_leaf, kv, val);
            }
        }
    }

    /// Inserts a new node with the key `key`.
    ///
    /// Returns `true` if the key was newly added. Returns `false` either when
    /// the key was already present (its value is overwritten in place) or
    /// when placing it would exceed `max_height` (the trie is unchanged).
    pub fn insert(&mut self, key: Vec<u8>, val: V) -> (r: bool)
        requires
            old(self).wf(),
            key@.len() < usize::MAX / 2,
        ensures
            final(self).wf(),
            final(self).max_height == old(self).max_height,
            old(self)@.contains_key(key@) ==> !r && final(self)@ == old(self)@.insert(key@, val),
            !old(self)@.contains_key(key@) ==> (r <==> !spec_insert_refused(*old(self), key@)),
            !old(self)@.contains_key(key@) && r ==> final(self)@ == old(self)@.insert(key@, val),
            !old(self)@.contains_key(key@) && !r ==> *final(self) == *old(self),
    {
        let ghost kv = key@;
        if self.root.is_none() {
            self.root = Some(Node::Leaf(LeafNode { key, val }));
            proof {
                assert(self@ =~= old(self)@.insert(kv, val));
            }
            return true;
        }
        // phase 1: find the closest stored key and the first nibble position
        // where it diverges from `key`
        let (leaf, height) = Self::find_closest_leaf(self.root.as_ref().unwrap(), &key);
        let leaf_key = Self::clone_key(&leaf.key);
        let key_len = key.len();
        let leaf_key_len = leaf_key.len();
        let min_keys_len = if key_len <= leaf_key_len {
            key_len
        } else {
            leaf_key_len
        };
        let mut i: usize = 0;
        while i < min_keys_len && key[i] == leaf_key[i]
            invariant
                i <= min_keys_len,
                min_keys_len == (if kv.len() <= leaf_key@.len() {
                    kv.len()
                } else {
                    leaf_key@.len()
                }),
                kv == key@,
                leaf_key@.len() == leaf_key_len,
                kv.len() == key_len,
                forall|j: int| 0 <= j < i ==> kv[j] == leaf_key@[j],
            decreases min_keys_len - i,
        {
            i = i + 1;
        }
        let mut x: u8 = 0;
        if i < min_keys_len {
            x = key[i] ^ leaf_key[i];
            proof {
                let a = kv[i as int];
                let b = leaf_key@[i as int];
                assert(a != b);
                assert((a ^ b) != 0 && (((a ^ b) & 0xf0u8) == 0) == ((a >> 4u8) == (b >> 4u8)))
                    by (bit_vector)
                    requires
                        a != b,
                ;
            }
        }
        if x == 0 {
            proof {
                assert(i == min_keys_len);
            }
            if key_len == leaf_key_len {
                // exact duplicate: overwrite the value in place
                proof {
                    assert(kv =~= leaf_key@);
                    assert(old(self)@.contains_key(kv));
                }
                let v = Self::find_exact_leaf_mut(self.root.as_mut().unwrap(), &key);
                *v = val;
                return false;
            }
            x = 0xff;
        }
        let mut split_index = i * 2;
        if (x & 0xf0) == 0 {
            split_index = split_index + 1;
        }
        proof {
            // the computed position is the split index of the two keys
            assert(kv != leaf_key@) by {
                if i < min_keys_len {
                    assert(kv[i as int] != leaf_key@[i as int]);
                } else {
                    assert(kv.len() != leaf_key@.len());
                }
            }
            crate::keys::lemma_first_diff_byte_at(kv, leaf_key@, 0, i as nat);
            if i < min_keys_len {
                let a = kv[i as int];
                let b = leaf_key@[i as int];
                assert((((a ^ b) & 0xf0u8) == 0) == ((a >> 4u8) == (b >> 4u8))) by (bit_vector)
                ;
            } else {
                assert((0xffu8 & 0xf0u8) != 0) by (bit_vector);
            }
            assert(split_index as nat == spec_split_index(kv, leaf_key@));
            lemma_split_index(kv, leaf_key@);
            // no stored key shares a longer prefix with `key` than the
            // closest leaf's key does
            assert forall|u: Seq<u8>|
                old(self)@.contains_key(u) && agree_below(u, kv, split_index as nat) implies
                spec_nibble(u, split_index as nat) != spec_nibble(kv, split_index as nat) by {
                if u != kv && spec_nibble(u, split_index as nat) == spec_nibble(
                    kv,
                    split_index as nat,
                ) {
                    assert forall|j: nat| j < split_index as nat implies spec_nibble(kv, j)
                        == spec_nibble(u, j) by {
                        assert(spec_nibble(u, j) == spec_nibble(kv, j));
                    }
                    crate::keys::lemma_split_index_later(kv, u, split_index as nat);
                    assert(spec_split_index(kv, u) <= spec_split_index(kv, leaf_key@));
                    assert(false);
                }
                if u == kv {
                    assert(old(self)@.contains_key(kv));
                    assert(false);
                }
            }
            assert(!old(self)@.contains_key(kv));
        }
        // phase 2: refuse early if a new internal node is needed beyond the
        // height bound; otherwise the insertion always succeeds
        let splice = Self::needs_new_internal(self.root.as_ref().unwrap(), &key, split_index);
        if splice && height >= self.max_height {
            return false;
        }
        let mut root_node = self.root.take().unwrap();
        Self::insert_rec(&mut root_node, key, val, split_index, &leaf_key);
        self.root = Some(root_node);
        true
    }

    /// Deletes the leaf for a key known to be stored below `*node`, repairing
    /// the tree on the way back up: an internal node left with a single child
    /// collapses into that child.
    fn remove_rec(node: &mut Node<V>, key: &Vec<u8>) -> (r: RemoveStep)
        requires
            node_wf(*old(node)),
            node_map(*old(node)).contains_key(key@),
        ensures
            (match r {
                RemoveStep::RemoveSelf => {
                    &&& *final(node) == *old(node)
                    &&& *old(node) is Leaf
                    &&& old(node)->Leaf_0.key@ == key@
                },
                RemoveStep::Removed => {
                    &&& node_wf(*final(node))
                    &&& node_map(*final(node)) == node_map(*old(node)).remove(key@)
                    &&& *old(node) is Internal
                    &&& (*final(node) is Internal ==> final(node)->Internal_0.index >= old(
                        node,
                    )->Internal_0.index)
                },
            }),
        decreases *old(node),
    {
        let ghost kv = key@;
        let ghost old_node = *node;
        if node.is_leaf() {
            proof {
                assert(old_node->Leaf_0.key@ == kv);
            }
            return RemoveStep::RemoveSelf;
        }
        proof {
            assert(*node is Internal);
        }
        let inner = node.as_mut_internal();
        let ghost old_inner = *inner;
        let nib = Self::nibble(key, inner.index);
        proof {
            lemma_internal_map(old_inner);
            lemma_node_wf_internal_child_in_range(old_inner, kv);
            assert(old_inner.nibbles.spec_has(nib as int));
            assert(node_map(old_inner.nibbles.spec_get(nib as int)).contains_key(kv));
        }
        let ghost old_child = old_inner.nibbles.spec_get(nib as int);
        let step = match inner.nibbles.get_mut(nib) {
            Some(child) => {
                proof {
                    assert(node_wf(*child));
                }
                Self::remove_rec(child, key)
            },
            None => vstd::pervasive::unreached(),
        };
        match step {
            RemoveStep::Removed => {
                proof {
                    lemma_child_shrunk(
                        old_inner,
                        nib as int,
                        inner.nibbles.spec_get(nib as int),
                        inner.nibbles,
                        kv,
                    );
                }
                RemoveStep::Removed
            },
            RemoveStep::RemoveSelf => {
                proof {
                    // the child came back unchanged, so the array still holds
                    // the old children
                    assert(inner.nibbles.array@ =~= old_inner.nibbles.array@);
                    assert(inner.nibbles.wf());
                    assert forall|s: int|
                        old_inner.nibbles.spec_has(s) implies inner.nibbles.spec_get(s)
                        == old_inner.nibbles.spec_get(s) by {}
                    lemma_internal_len_le_17(old_inner);
                }
                inner.nibbles.remove(nib);
                if inner.nibbles.len() == 1 {
                    // path compression: hoist the sole remaining child
                    proof {
                        crate::sparse_array::lemma_min_slot(inner.nibbles.bitmap);
                    }
                    let ghost t2 = inner.nibbles.spec_min_slot();
                    let only = inner.nibbles.pop();
                    proof {
                        assert(old_inner.nibbles.spec_has(t2) && t2 != nib as int);
                        assert(only == old_inner.nibbles.spec_get(t2));
                        lemma_collapse(old_inner, nib as int, t2, kv);
                    }
                    *node = only;
                } else {
                    proof {
                        lemma_child_slot_removed(old_inner, nib as int, inner.nibbles, kv);
                    }
                }
                RemoveStep::Removed
            },
        }
    }

    /// Removes the node associated with the key `key`.
    ///
    /// Returns `true` if the key was found, or `false` if the operation was
    /// a no-op.
    pub fn remove(&mut self, key: &Vec<u8>) -> (r: bool)
        requires
            old(self).wf(),
        ensures
            final(self).wf(),
            final(self).max_height == old(self).max_height,
            r == old(self)@.contains_key(key@),
            r ==> final(self)@ == old(self)@.remove(key@),
            !r ==> *final(self) == *old(self),
    {
        let present = match self.root.as_ref() {
            None => false,
            Some(root) => Self::find_exact_leaf(root, key).is_some(),
        };
        if !present {
            return false;
        }
        let mut root_node = self.root.take().unwrap();
        let step = Self::remove_rec(&mut root_node, key);
        match step {
            RemoveStep::RemoveSelf => {
                // the root itself was the leaf: the trie becomes empty
                proof {
                    assert(old(self)@ =~= Map::<Seq<u8>, V>::empty().insert(
                        key@,
                        old(self)@[key@],
                    ));
                    assert(self@ =~= old(self)@.remove(key@));
                }
                self.root = None;
                proof {
                    assert(self@ =~= old(self)@.remove(key@));
                }
            },
            RemoveStep::Removed => {
                self.root = Some(root_node);
            },
        }
        true
    }

    /// Pops nodes off `todo`, expanding internal nodes (children in reverse
    /// physical order, so pops yield ascending keys), until a leaf whose key
    /// extends `prefix` is found. A key equal to `prefix` itself is skipped
    /// unless `include_prefix` is set. The ghost map `m` is whatever map the
    /// stacked subtrees were taken from; every yielded entry belongs to it,
    /// is the least pending match in key order, and leaves exactly the other
    /// pending matches on the stack.
    #[verifier::loop_isolation(false)]
    #[verifier::rlimit(100)]
    pub fn prefix_find_next<'t>(
        &self,
        prefix: &Vec<u8>,
        todo: &mut Vec<&'t Node<V>>,
        include_prefix: bool,
        Ghost(m): Ghost<Map<Seq<u8>, V>>,
    ) -> (r: Option<&'t LeafNode<V>>)
        requires
            forall|i: int|
                #![trigger old(todo)@[i]]
                0 <= i < old(todo)@.len() ==> node_wf(*old(todo)@[i]) && node_map(
                    *old(todo)@[i],
                ).submap_of(m),
            stack_ordered(old(todo)@),
        ensures
            forall|i: int|
                #![trigger final(todo)@[i]]
                0 <= i < final(todo)@.len() ==> node_wf(*final(todo)@[i]) && node_map(
                    *final(todo)@[i],
                ).submap_of(m),
            stack_ordered(final(todo)@),
            (match r {
                Some(leaf) => {
                    &&& prefix@.is_prefix_of(leaf.key@)
                    &&& include_prefix || leaf.key@ != prefix@
                    &&& m.contains_key(leaf.key@)
                    &&& m[leaf.key@] == leaf.val
                    &&& forall|k: Seq<u8>|
                        #[trigger] stack_has_key(final(todo)@, k) ==> key_lt(leaf.key@, k)
                    &&& forall|k: Seq<u8>|
                        #![trigger stack_has_key(old(todo)@, k)]
                        #![trigger stack_has_key(final(todo)@, k)]
                        key_matches(k, prefix@, include_prefix) ==> (stack_has_key(old(todo)@, k)
                            <==> (k == leaf.key@ || stack_has_key(final(todo)@, k)))
                },
                None => forall|k: Seq<u8>|
                    #![trigger stack_has_key(old(todo)@, k)]
                    key_matches(k, prefix@, include_prefix) ==> !stack_has_key(old(todo)@, k),
            }),
    {
        let prefix_len = prefix.len();
        loop
            invariant
                forall|i: int|
                    #![trigger todo@[i]]
                    0 <= i < todo@.len() ==> node_wf(*todo@[i]) && node_map(*todo@[i]).submap_of(
                        m,
                    ),
                stack_ordered(todo@),
                forall|k: Seq<u8>|
                    #![trigger stack_has_key(old(todo)@, k)]
                    #![trigger stack_has_key(todo@, k)]
                    key_matches(k, prefix@, include_prefix) ==> (stack_has_key(old(todo)@, k)
                        <==> stack_has_key(todo@, k)),
            decreases stack_size(todo@),
        {
            let ghost pre_pop = todo@;
            let t = match todo.pop() {
                None => {
                    proof {
                        assert forall|k: Seq<u8>|
                            key_matches(k, prefix@, include_prefix) implies !stack_has_key(
                            old(todo)@,
                            k,
                        ) by {
                            if stack_has_key(old(todo)@, k) {
                                assert(stack_has_key(pre_pop, k));
                            }
                        }
                    }
                    return None;
                },
                Some(t) => t,
            };
            proof {
                assert(pre_pop[pre_pop.len() - 1] == t);
                assert(todo@ =~= pre_pop.drop_last());
                assert(stack_size(pre_pop) == stack_size(todo@) + node_size(*t));
                lemma_stack_split(pre_pop);
            }
            let ghost base = todo@;
            match t {
                Node::Leaf(leaf) => {
                    let matched = Self::is_prefix(prefix, &leaf.key);
                    if matched {
                        if include_prefix || !Self::keys_equal(&leaf.key, prefix) {
                            proof {
                                assert(node_map(*t).dom().contains(leaf.key@));
                                // the emitted key is below every key still
                                // stacked, and accounts exactly for the top
                                assert forall|k: Seq<u8>| #[trigger]
                                    stack_has_key(base, k) implies key_lt(leaf.key@, k) by {
                                    let i = choose|i: int|
                                        0 <= i < base.len() && #[trigger] node_map(
                                            *base[i],
                                        ).contains_key(k);
                                    assert(base[i] == pre_pop[i]);
                                    assert(node_map(*pre_pop[i]).contains_key(k));
                                    assert(node_map(*pre_pop[pre_pop.len() - 1]).contains_key(
                                        leaf.key@,
                                    ));
                                }
                                assert forall|k: Seq<u8>|
                                    key_matches(k, prefix@, include_prefix) implies (stack_has_key(
                                    old(todo)@,
                                    k,
                                ) <==> (k == leaf.key@ || stack_has_key(base, k))) by {
                                    assert(stack_has_key(pre_pop, k) == (stack_has_key(base, k)
                                        || node_map(*t).contains_key(k)));
                                    assert(stack_has_key(old(todo)@, k) <==> stack_has_key(
                                        pre_pop,
                                        k,
                                    ));
                                    assert(node_map(*t).contains_key(k) ==> k == leaf.key@);
                                    assert(node_map(*t).contains_key(leaf.key@));
                                }
                                // restate the exit conditions over the
                                // current stack, which the return leaves behind
                                assert(prefix@.is_prefix_of(leaf.key@));
                                assert(include_prefix || leaf.key@ != prefix@);
                                assert(m.contains_key(leaf.key@));
                                assert(m[leaf.key@] == leaf.val);
                                assert(forall|k: Seq<u8>|
                                    #[trigger] stack_has_key(todo@, k) ==> key_lt(leaf.key@, k));
                                assert(forall|k: Seq<u8>|
                                    #![trigger stack_has_key(old(todo)@, k)]
                                    #![trigger stack_has_key(todo@, k)]
                                    key_matches(k, prefix@, include_prefix) ==> (stack_has_key(
                                        old(todo)@,
                                        k,
                                    ) <==> (k == leaf.key@ || stack_has_key(todo@, k))));
                            }
                            return Some(leaf);
                        }
                    }
                    proof {
                        // a discarded leaf never holds a pending match
                        assert forall|k: Seq<u8>|
                            key_matches(k, prefix@, include_prefix) implies (stack_has_key(
                            old(todo)@,
                            k,
                        ) <==> stack_has_key(todo@, k)) by {
                            assert(stack_has_key(pre_pop, k) == (stack_has_key(todo@, k)
                                || node_map(*t).contains_key(k)));
                            assert(stack_has_key(old(todo)@, k) <==> stack_has_key(pre_pop, k));
                            assert(node_map(*t).contains_key(k) ==> k == leaf.key@);
                            assert(!key_matches(leaf.key@, prefix@, include_prefix));
                        }
                    }
                },
                Node::Internal(inner) => {
                    proof {
                        lemma_sparse_correspondence(inner.nibbles);
                        lemma_seq_nodes_wf_elem(inner.nibbles.array@);
                    }
                    let ghost arr = inner.nibbles.array@;
                    if inner.index / 2 >= prefix_len {
                        // the prefix is exhausted: every child may hold
                        // matching keys, so all are stacked in reverse order
                        let all = inner.nibbles.all();
                        let mut k = all.len();
                        proof {
                            lemma_seq_nodes_size_step(arr, 0);
                        }
                        while k > 0
                            invariant
                                k <= arr.len(),
                                todo@.len() == base.len() + (arr.len() - k),
                                stack_size(todo@) == stack_size(base) + seq_nodes_size(arr)
                                    - seq_nodes_size(arr.subrange(0, k as int)),
                                forall|i: int| 0 <= i < base.len() ==> #[trigger] todo@[i] == base[i],
                                forall|i: int|
                                    base.len() <= i < todo@.len() ==> *#[trigger] todo@[i] == arr[arr.len() - 1 - (i
                                        - base.len())],
                                forall|i: int|
                                    #![trigger todo@[i]]
                                    0 <= i < todo@.len() ==> node_wf(*todo@[i]) && node_map(
                                        *todo@[i],
                                    ).submap_of(m),
                            decreases k,
                        {
                            k = k - 1;
                            let ghost pre_push = todo@;
                            todo.push(&all[k]);
                            proof {
                                lemma_stack_size_push(pre_push, &arr[k as int]);
                                lemma_seq_nodes_size_step(arr, k as int);
                                let slot = crate::sparse_array::slots_below(
                                    inner.nibbles.bitmap,
                                    32,
                                )[k as int];
                                assert(inner.nibbles.spec_has(slot) && inner.nibbles.spec_get(slot)
                                    == arr[k as int]);
                                lemma_child_submap(*inner, slot);
                                vstd::map_lib::lemma_submap_of_trans(
                                    node_map(arr[k as int]),
                                    node_map(*t),
                                    m,
                                );
                            }
                        }
                        proof {
                            assert(arr.subrange(0, 0) =~= Seq::<Node<V>>::empty());
                            lemma_seq_nodes_size_step(arr, arr.len() - 1);
                            assert(stack_size(todo@) == stack_size(base) + seq_nodes_size(arr));
                            assert(base.push(t) =~= pre_pop);
                            lemma_expanded_stack(base, t, todo@, *inner);
                            assert forall|kk: Seq<u8>|
                                key_matches(kk, prefix@, include_prefix) implies (stack_has_key(
                                old(todo)@,
                                kk,
                            ) <==> stack_has_key(todo@, kk)) by {
                                assert(stack_has_key(pre_pop, kk) == (stack_has_key(base, kk)
                                    || node_map(*t).contains_key(kk)));
                                assert(stack_has_key(old(todo)@, kk) <==> stack_has_key(
                                    pre_pop,
                                    kk,
                                ));
                                assert(stack_has_key(todo@, kk) == (stack_has_key(base, kk)
                                    || node_map(*t).contains_key(kk)));
                            }
                        }
                    } else {
                        // the branch position still lies within the prefix:
                        // only the child on the prefix's own slot can match
                        let nib = Self::nibble(prefix, inner.index);
                        proof {
                            lemma_internal_map(*inner);
                            // a pending match below this node lives in that
                            // child: its byte at this position is the prefix's
                            assert forall|kk: Seq<u8>|
                                key_matches(kk, prefix@, include_prefix) && node_map(
                                    *t,
                                ).contains_key(kk) implies spec_nibble(kk, inner.index as nat)
                                == nib as int by {
                                lemma_prefix_fixes_slot(kk, prefix@, inner.index as nat);
                            }
                        }
                        match inner.nibbles.get(nib) {
                            Some(child) => {
                                let ghost pre_push = todo@;
                                todo.push(child);
                                proof {
                                    lemma_stack_size_push(pre_push, child);
                                    lemma_child_submap(*inner, nib as int);
                                    vstd::map_lib::lemma_submap_of_trans(
                                        node_map(*child),
                                        node_map(*t),
                                        m,
                                    );
                                    lemma_seq_nodes_size_elem(
                                        arr,
                                        inner.nibbles.spec_index_of(nib as int),
                                    );
                                    // ordered: the child holds part of the
                                    // popped top's keys
                                    assert forall|i1: int, i2: int, k1: Seq<u8>, k2: Seq<u8>|
                                        0 <= i1 < i2 < todo@.len() && node_map(
                                            *todo@[i1],
                                        ).contains_key(k1) && node_map(*todo@[i2]).contains_key(
                                            k2,
                                        ) implies key_lt(k2, k1) by {
                                        if i2 == todo@.len() - 1 {
                                            assert(todo@[i2] == child);
                                            assert(node_map(*t).contains_key(k2));
                                            assert(base[i1] == pre_pop[i1]);
                                            assert(node_map(*pre_pop[i1]).contains_key(k1));
                                            assert(node_map(*pre_pop.last()).contains_key(k2));
                                        } else {
                                            assert(todo@[i1] == base[i1] && todo@[i2] == base[i2]);
                                            assert(node_map(*base[i1]).contains_key(k1));
                                            assert(node_map(*base[i2]).contains_key(k2));
                                        }
                                    }
                                    assert(todo@ =~= base.push(child));
                                    lemma_stack_split(todo@);
                                    assert(todo@.drop_last() =~= base);
                                    assert forall|kk: Seq<u8>|
                                        key_matches(kk, prefix@, include_prefix) implies (
                                    stack_has_key(old(todo)@, kk) <==> stack_has_key(
                                        todo@,
                                        kk,
                                    )) by {
                                        assert(stack_has_key(pre_pop, kk) == (stack_has_key(
                                            base,
                                            kk,
                                        ) || node_map(*t).contains_key(kk)));
                                        assert(stack_has_key(old(todo)@, kk) <==> stack_has_key(
                                            pre_pop,
                                            kk,
                                        ));
                                        assert(stack_has_key(todo@, kk) == (stack_has_key(
                                            base,
                                            kk,
                                        ) || node_map(*child).contains_key(kk)));
                                        if key_matches(kk, prefix@, include_prefix) && node_map(
                                            *t,
                                        ).contains_key(kk) {
                                            assert(node_map(*child).contains_key(kk));
                                        }
                                        if node_map(*child).contains_key(kk) {
                                            assert(node_map(*t).contains_key(kk));
                                        }
                                    }
                                }
                            },
                            None => {
                                proof {
                                    // no child on the prefix's slot: nothing
                                    // below this node matches
                                    assert forall|kk: Seq<u8>|
                                        key_matches(kk, prefix@, include_prefix) implies (
                                    stack_has_key(old(todo)@, kk) <==> stack_has_key(
                                        todo@,
                                        kk,
                                    )) by {
                                        assert(stack_has_key(pre_pop, kk) == (stack_has_key(
                                            todo@,
                                            kk,
                                        ) || node_map(*t).contains_key(kk)));
                                        assert(stack_has_key(old(todo)@, kk) <==> stack_has_key(
                                            pre_pop,
                                            kk,
                                        ));
                                        if node_map(*t).contains_key(kk) && key_matches(
                                            kk,
                                            prefix@,
                                            include_prefix,
                                        ) {
                                            assert(inner.nibbles.spec_has(
                                                spec_nibble(kk, inner.index as nat),
                                            ));
                                        }
                                    }
                                }
                            },
                        }
                    }
                },
                Node::Empty => {
                    proof {
                        assert(false);
                    }
                },
            }
        }
    }

    /// Creates a new iterator over all the nodes whose key includes
    /// `prefix` as a prefix.
    pub fn prefix_iter<'t>(&'t self, prefix: &'t Vec<u8>) -> (r: TriePrefixIterator<'t, V>)
        requires
            self.wf(),
        ensures
            r.wf(),
            r.trie == self,
            r.prefix == prefix,
            r.include_prefix == false,
            forall|k: Seq<u8>| #[trigger] r.pending(k) == self@.contains_key(k),
    {
        TriePrefixIterator::new(self, prefix, false)
    }
}

impl<V> Default for Trie<V> {
    /// An empty trie with no height bound.
    fn default() -> (r: Self)
        ensures
            r.wf(),
            r@ == Map::<Seq<u8>, V>::empty(),
            r.max_height == usize::MAX,
    {
        Trie::new()
    }
}

} // verus!
