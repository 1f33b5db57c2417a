//! Trie nodes and their mathematical view.
//!
//! A node stands for a map from byte-string keys to values: a leaf for a
//! singleton, an internal node for the union of its children. Well-formedness
//! captures the qp-trie structural invariants: an internal node has at least
//! two children, child indexes strictly increase along any path, each child's
//! keys select exactly the child's slot at the node's index, and all keys
//! below a node agree on every nibble position before the node's index.

use vstd::prelude::*;

use crate::keys::agree_below;
use crate::keys::spec_nibble;
use crate::sparse_array::SparseArray;
use crate::sparse_array::lemma_sparse_correspondence;
use crate::sparse_array::slots_below;

verus! {

/// A terminal node: one key with its value.
#[derive(Clone, Debug)]
pub struct LeafNode<V> {
    pub key: Vec<u8>,
    pub val: V,
}

/// A branching node: `index` is the nibble position on which the children
/// are distinguished; `nibbles` maps each child's slot to the child.
pub struct InternalNode<V> {
    pub index: usize,
    pub nibbles: SparseArray<Node<V>>,
}

/// A trie node: a terminal key/value pair, a branching point, or the
/// transient placeholder that exists only while a node is restructured.
pub enum Node<V> {
    Empty,
    Internal(InternalNode<V>),
    Leaf(LeafNode<V>),
}

/// The map a node stands for.
pub open spec fn node_map<V>(n: Node<V>) -> Map<Seq<u8>, V>
    decreases n,
{
    match n {
        Node::Empty => Map::empty(),
        Node::Leaf(leaf) => Map::empty().insert(leaf.key@, leaf.val),
        Node::Internal(inner) => seq_nodes_map(inner.nibbles.array@),
    }
}

/// The union of the maps of a sequence of nodes (later entries win, though
/// well-formedness makes the maps disjoint).
pub open spec fn seq_nodes_map<V>(s: Seq<Node<V>>) -> Map<Seq<u8>, V>
    decreases s,
{
    if s.len() == 0 {
        Map::empty()
    } else {
        seq_nodes_map(s.drop_last()).union_prefer_right(node_map(s.last()))
    }
}

/// The structural invariant of a node.
pub open spec fn node_wf<V>(n: Node<V>) -> bool
    decreases n,
{
    match n {
        Node::Empty => false,
        Node::Leaf(_) => true,
        Node::Internal(inner) => {
            &&& inner.nibbles.wf()
            &&& inner.nibbles.spec_len() >= 2
            &&& inner.index < usize::MAX
            &&& seq_nodes_wf(inner.nibbles.array@)
            &&& children_ok(inner)
        },
    }
}

/// The invariant of each node of a sequence.
pub open spec fn seq_nodes_wf<V>(s: Seq<Node<V>>) -> bool
    decreases s,
{
    if s.len() == 0 {
        true
    } else {
        seq_nodes_wf(s.drop_last()) && node_wf(s.last())
    }
}

/// Whether a child node, if internal, branches at a position strictly beyond `i`.
pub open spec fn child_index_gt<V>(n: Node<V>, i: int) -> bool {
    match n {
        Node::Internal(inner) => inner.index > i,
        _ => true,
    }
}

/// The slot conditions of an internal node: children branch strictly deeper,
/// and each child's keys select exactly the child's slot at this node's index.
pub open spec fn children_nibble_ok<V>(inner: InternalNode<V>) -> bool {
    &&& forall|s: int|
        #[trigger] inner.nibbles.spec_has(s) ==> child_index_gt(
            inner.nibbles.spec_get(s),
            inner.index as int,
        )
    &&& forall|s: int, k: Seq<u8>|
        inner.nibbles.spec_has(s) && #[trigger] node_map(inner.nibbles.spec_get(s)).contains_key(k)
            ==> spec_nibble(k, inner.index as nat) == s
}

/// All keys below an internal node agree on every nibble position before the
/// node's branching index.
pub open spec fn children_agree_ok<V>(inner: InternalNode<V>) -> bool {
    forall|k1: Seq<u8>, k2: Seq<u8>|
        #[trigger] seq_nodes_map(inner.nibbles.array@).contains_key(k1)
            && #[trigger] seq_nodes_map(inner.nibbles.array@).contains_key(k2) ==> agree_below(
            k1,
            k2,
            inner.index as nat,
        )
}

/// The slot conditions of an internal node.
pub open spec fn children_ok<V>(inner: InternalNode<V>) -> bool {
    children_nibble_ok(inner) && children_agree_ok(inner)
}

impl<V> Node<V> {
    /// Whether this node is a branching point.
    #[inline]
    pub fn is_internal(&self) -> (r: bool)
        ensures
            r == (self is Internal),
    {
        matches!(*self, Node::Internal(_))
    }

    /// The branching point this node is.
    #[inline]
    pub fn as_internal(&self) -> (r: &InternalNode<V>)
        requires
            *self is Internal,
        ensures
            *self == Node::Internal(*r),
    {
        match self {
            Node::Internal(inner) => inner,
            _ => vstd::pervasive::unreached(),
        }
    }

    /// Mutable access to the branching point this node is.
    #[inline]
    pub fn as_mut_internal(&mut self) -> (r: &mut InternalNode<V>)
        requires
            *old(self) is Internal,
        ensures
            *old(self) == Node::Internal(*r),
            *final(self) == Node::Internal(*final(r)),
    {
        match self {
            Node::Internal(inner) => inner,
            _ => vstd::pervasive::unreached(),
        }
    }

    /// Whether this node is a terminal key/value pair.
    #[inline]
    pub fn is_leaf(&self) -> (r: bool)
        ensures
            r == (self is Leaf),
    {
        matches!(*self, Node::Leaf(_))
    }

    /// The terminal key/value pair this node is.
    #[inline]
    pub fn as_leaf(&self) -> (r: &LeafNode<V>)
        requires
            *self is Leaf,
        ensures
            *self == Node::Leaf(*r),
    {
        match self {
            Node::Leaf(leaf) => leaf,
            _ => vstd::pervasive::unreached(),
        }
    }

    /// Mutable access to the terminal key/value pair this node is.
    #[inline]
    pub fn as_mut_leaf(&mut self) -> (r: &mut LeafNode<V>)
        requires
            *old(self) is Leaf,
        ensures
            *old(self) == Node::Leaf(*r),
            *final(self) == Node::Leaf(*final(r)),
    {
        match self {
            Node::Leaf(leaf) => leaf,
            _ => vstd::pervasive::unreached(),
        }
    }

    /// Whether this node is the transient placeholder.
    #[inline]
    pub fn is_empty(&self) -> (r: bool)
        ensures
            r == (self is Empty),
    {
        matches!(*self, Node::Empty)
    }
}

impl<V> Default for Node<V> {
    /// The transient placeholder.
    fn default() -> (r: Self)
        ensures
            r is Empty,
    {
        Node::Empty
    }
}

/// Every node of a well-formed sequence is well-formed.
pub proof fn lemma_seq_nodes_wf_elem<V>(s: Seq<Node<V>>)
    requires
        seq_nodes_wf(s),
    ensures
        forall|i: int| 0 <= i < s.len() ==> node_wf(#[trigger] s[i]),
    decreases s,
{
    if s.len() > 0 {
        lemma_seq_nodes_wf_elem(s.drop_last());
        assert forall|i: int| 0 <= i < s.len() implies node_wf(#[trigger] s[i]) by {
            if i < s.len() - 1 {
                assert(s[i] == s.drop_last()[i]);
            } else {
                assert(s[i] == s.last());
            }
        }
    }
}

/// The number of nodes of a subtree, counting the node itself.
pub open spec fn node_size<V>(n: Node<V>) -> nat
    decreases n,
{
    match n {
        Node::Empty => 1,
        Node::Leaf(_) => 1,
        Node::Internal(inner) => 1 + seq_nodes_size(inner.nibbles.array@),
    }
}

/// The total node count of a sequence of subtrees.
pub open spec fn seq_nodes_size<V>(s: Seq<Node<V>>) -> nat
    decreases s,
{
    if s.len() == 0 {
        0
    } else {
        seq_nodes_size(s.drop_last()) + node_size(s.last())
    }
}

/// Prefixes of a node sequence account for part of its total size, one
/// node's subtree at a time.
pub proof fn lemma_seq_nodes_size_step<V>(s: Seq<Node<V>>, k: int)
    requires
        0 <= k < s.len(),
    ensures
        seq_nodes_size(s.subrange(0, k + 1)) == seq_nodes_size(s.subrange(0, k)) + node_size(s[k]),
        seq_nodes_size(s.subrange(0, s.len() as int)) == seq_nodes_size(s),
{
    let t = s.subrange(0, k + 1);
    assert(t.drop_last() =~= s.subrange(0, k));
    assert(t.last() == s[k]);
    assert(s.subrange(0, s.len() as int) =~= s);
}

/// One subtree accounts for at most the whole sequence's size.
pub proof fn lemma_seq_nodes_size_elem<V>(s: Seq<Node<V>>, i: int)
    requires
        0 <= i < s.len(),
    ensures
        node_size(s[i]) <= seq_nodes_size(s),
    decreases s,
{
    if i == s.len() - 1 {
        assert(s[i] == s.last());
    } else {
        assert(s.drop_last()[i] == s[i]);
        lemma_seq_nodes_size_elem(s.drop_last(), i);
    }
}

/// A sequence of well-formed nodes is a well-formed sequence.
pub proof fn lemma_seq_nodes_wf_intro<V>(s: Seq<Node<V>>)
    requires
        forall|i: int| 0 <= i < s.len() ==> node_wf(#[trigger] s[i]),
    ensures
        seq_nodes_wf(s),
    decreases s,
{
    if s.len() > 0 {
        assert forall|i: int| 0 <= i < s.drop_last().len() implies node_wf(
            #[trigger] s.drop_last()[i],
        ) by {
            assert(s.drop_last()[i] == s[i]);
        }
        lemma_seq_nodes_wf_intro(s.drop_last());
        assert(node_wf(s.last()));
    }
}

/// A key is in the union of a sequence of node maps exactly when it is in one
/// of them, and it then takes that node's value.
pub proof fn lemma_seq_nodes_map<V>(s: Seq<Node<V>>)
    ensures
        forall|k: Seq<u8>|
            #[trigger] seq_nodes_map(s).contains_key(k) ==> exists|i: int|
                0 <= i < s.len() && #[trigger] node_map(s[i]).contains_key(k) && seq_nodes_map(
                    s,
                )[k] == node_map(s[i])[k],
        forall|k: Seq<u8>, i: int|
            0 <= i < s.len() && #[trigger] node_map(s[i]).contains_key(k) ==> seq_nodes_map(
                s,
            ).contains_key(k),
    decreases s,
{
    if s.len() > 0 {
        let rest = s.drop_last();
        lemma_seq_nodes_map(rest);
        assert forall|k: Seq<u8>| #[trigger]
            seq_nodes_map(s).contains_key(k) implies exists|i: int|
            0 <= i < s.len() && #[trigger] node_map(s[i]).contains_key(k) && seq_nodes_map(s)[k]
                == node_map(s[i])[k] by {
            if node_map(s.last()).contains_key(k) {
                let i = s.len() - 1;
                assert(node_map(s[i]).contains_key(k) && seq_nodes_map(s)[k] == node_map(s[i])[k]);
            } else {
                assert(seq_nodes_map(rest).contains_key(k));
                let i = choose|i: int|
                    0 <= i < rest.len() && #[trigger] node_map(rest[i]).contains_key(k)
                        && seq_nodes_map(rest)[k] == node_map(rest[i])[k];
                assert(s[i] == rest[i]);
                assert(node_map(s[i]).contains_key(k) && seq_nodes_map(s)[k] == node_map(s[i])[k]);
            }
        }
        assert forall|k: Seq<u8>, i: int|
            0 <= i < s.len() && #[trigger] node_map(s[i]).contains_key(k) implies seq_nodes_map(
            s,
        ).contains_key(k) by {
            if i < s.len() - 1 {
                assert(rest[i] == s[i]);
                assert(seq_nodes_map(rest).contains_key(k));
            }
        }
    }
}

/// A well-formed internal node's map contains a key exactly when the child at
/// the key's selecting slot contains it, with the same value.
pub proof fn lemma_internal_map<V>(inner: InternalNode<V>)
    requires
        inner.nibbles.wf(),
        seq_nodes_wf(inner.nibbles.array@),
        children_nibble_ok(inner),
    ensures
        forall|k: Seq<u8>|
            #[trigger] node_map(Node::Internal(inner)).contains_key(k) <==> (
            inner.nibbles.spec_has(spec_nibble(k, inner.index as nat)) && node_map(
                inner.nibbles.spec_get(spec_nibble(k, inner.index as nat)),
            ).contains_key(k)),
        forall|k: Seq<u8>|
            #[trigger] node_map(Node::Internal(inner)).contains_key(k) ==> node_map(
                Node::Internal(inner),
            )[k] == node_map(inner.nibbles.spec_get(spec_nibble(k, inner.index as nat)))[k],
{
    let s = inner.nibbles.array@;
    let b = inner.nibbles.bitmap;
    lemma_seq_nodes_map(s);
    lemma_sparse_correspondence(inner.nibbles);
    assert forall|k: Seq<u8>| #[trigger]
        node_map(Node::Internal(inner)).contains_key(k) implies (inner.nibbles.spec_has(
        spec_nibble(k, inner.index as nat),
    ) && node_map(inner.nibbles.spec_get(spec_nibble(k, inner.index as nat))).contains_key(k)
        && node_map(Node::Internal(inner))[k] == node_map(
        inner.nibbles.spec_get(spec_nibble(k, inner.index as nat)),
    )[k]) by {
        let i = choose|i: int|
            0 <= i < s.len() && #[trigger] node_map(s[i]).contains_key(k) && seq_nodes_map(s)[k]
                == node_map(s[i])[k];
        let t = slots_below(b, 32)[i];
        assert(inner.nibbles.spec_has(t) && inner.nibbles.spec_get(t) == s[i]);
        assert(spec_nibble(k, inner.index as nat) == t);
    }
    assert forall|k: Seq<u8>|
        inner.nibbles.spec_has(spec_nibble(k, inner.index as nat)) && node_map(
            inner.nibbles.spec_get(spec_nibble(k, inner.index as nat)),
        ).contains_key(k) implies #[trigger] node_map(Node::Internal(inner)).contains_key(k) by {
        let t = spec_nibble(k, inner.index as nat);
        let i = inner.nibbles.spec_index_of(t);
        assert(s[i] == inner.nibbles.spec_get(t));
        assert(node_map(s[i]).contains_key(k));
    }
}

/// A well-formed node's map is non-empty.
pub proof fn lemma_node_map_nonempty<V>(n: Node<V>)
    requires
        node_wf(n),
    ensures
        exists|k: Seq<u8>| #[trigger] node_map(n).contains_key(k),
    decreases n,
{
    match n {
        Node::Empty => {
            assert(false);
        },
        Node::Leaf(leaf) => {
            assert(node_map(n).contains_key(leaf.key@));
        },
        Node::Internal(inner) => {
            let s = inner.nibbles.array@;
            assert(s.len() >= 2);
            lemma_seq_nodes_wf_elem(s);
            assert(node_wf(s[0]));
            lemma_node_map_nonempty(s[0]);
            lemma_seq_nodes_map(s);
            let k = choose|k: Seq<u8>| #[trigger] node_map(s[0]).contains_key(k);
            assert(seq_nodes_map(s).contains_key(k));
            assert(node_map(n).contains_key(k));
        },
    }
}

} // verus!
