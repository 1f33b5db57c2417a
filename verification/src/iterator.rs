//! A lazy, stack-driven depth-first traversal over a trie, yielding all
//! entries whose key extends a given prefix, in ascending key order.

use vstd::prelude::*;

use crate::keys::key_lt;
use crate::node::Node;
use crate::node::node_map;
use crate::node::node_wf;
use crate::trie::Trie;
use crate::trie::key_matches;
use crate::trie::stack_has_key;
use crate::trie::stack_ordered;

verus! {

/// An iterator over keys matching a prefix. It borrows a snapshot of the
/// trie it was created from and is not restartable.
pub struct TriePrefixIterator<'t, V> {
    pub trie: &'t Trie<V>,
    pub prefix: &'t Vec<u8>,
    pub todo: Vec<&'t Node<V>>,
    pub include_prefix: bool,
}

impl<'t, V> TriePrefixIterator<'t, V> {
    /// The traversal stack holds well-formed subtrees of the trie, sorted
    /// for ascending output.
    pub open spec fn wf(self) -> bool {
        &&& self.trie.wf()
        &&& forall|i: int|
            #![trigger self.todo@[i]]
            0 <= i < self.todo@.len() ==> node_wf(*self.todo@[i]) && node_map(
                *self.todo@[i],
            ).submap_of(self.trie@)
        &&& stack_ordered(self.todo@)
    }

    /// Whether the key `k` lies below a subtree the traversal has not
    /// finished visiting.
    pub open spec fn pending(self, k: Seq<u8>) -> bool {
        stack_has_key(self.todo@, k)
    }

    /// Creates an iterator over `trie`, seeded with its root.
    pub fn new(trie: &'t Trie<V>, key: &'t Vec<u8>, include_prefix: bool) -> (r: Self)
        requires
            trie.wf(),
        ensures
            r.wf(),
            r.trie == trie,
            r.prefix == key,
            r.include_prefix == include_prefix,
            forall|k: Seq<u8>| #[trigger] r.pending(k) == trie@.contains_key(k),
    {
        let mut todo: Vec<&'t Node<V>> = Vec::new();
        match trie.root() {
            None => {},
            Some(root) => {
                todo.push(root);
                proof {
                    assert(node_map(*root).submap_of(trie@));
                }
            },
        }
        let r = TriePrefixIterator { trie, prefix: key, todo, include_prefix };
        proof {
            assert forall|k: Seq<u8>| #[trigger]
                stack_has_key(r.todo@, k) == trie@.contains_key(k) by {
                match trie.root {
                    None => {
                        if stack_has_key(r.todo@, k) {
                            let i = choose|i: int|
                                0 <= i < r.todo@.len() && #[trigger] node_map(
                                    *r.todo@[i],
                                ).contains_key(k);
                        }
                    },
                    Some(root) => {
                        if trie@.contains_key(k) {
                            assert(node_map(*r.todo@[0]).contains_key(k));
                        }
                        if stack_has_key(r.todo@, k) {
                            let i = choose|i: int|
                                0 <= i < r.todo@.len() && #[trigger] node_map(
                                    *r.todo@[i],
                                ).contains_key(k);
                            assert(i == 0);
                        }
                    },
                }
            }
        }
        r
    }

    /// If a key equal to the prefix itself is found, include it in the
    /// results.
    #[inline]
    pub fn include_prefix(self) -> (r: Self)
        ensures
            r.trie == self.trie,
            r.prefix == self.prefix,
            r.todo == self.todo,
            r.include_prefix == true,
            self.wf() ==> r.wf(),
    {
        TriePrefixIterator {
            trie: self.trie,
            prefix: self.prefix,
            todo: self.todo,
            include_prefix: true,
        }
    }

    /// The next entry whose key extends the prefix, in ascending key order:
    /// every yielded pair is an entry of the trie, below everything the
    /// traversal still has pending.
    pub fn next(&mut self) -> (r: Option<(&'t Vec<u8>, &'t V)>)
        requires
            old(self).wf(),
        ensures
            final(self).wf(),
            final(self).trie == old(self).trie,
            final(self).prefix == old(self).prefix,
            (match r {
                Some(kv) => {
                    &&& old(self).trie@.contains_key(kv.0@)
                    &&& *kv.1 == old(self).trie@[kv.0@]
                    &&& key_matches(kv.0@, old(self).prefix@, old(self).include_prefix)
                    &&& final(self).include_prefix == false
                    &&& forall|k: Seq<u8>|
                        #[trigger] final(self).pending(k) ==> key_lt(kv.0@, k)
                    &&& forall|k: Seq<u8>|
                        #![trigger old(self).pending(k)]
                        #![trigger final(self).pending(k)]
                        key_matches(k, old(self).prefix@, old(self).include_prefix) ==> (old(
                            self,
                        ).pending(k) <==> (k == kv.0@ || final(self).pending(k)))
                },
                None => forall|k: Seq<u8>|
                    #[trigger] key_matches(k, old(self).prefix@, old(self).include_prefix)
                        ==> !old(self).pending(k),
            }),
    {
        let trie = self.trie;
        let prefix = self.prefix;
        let flag = self.include_prefix;
        let ghost m = trie@;
        match trie.prefix_find_next(prefix, &mut self.todo, flag, Ghost(m)) {
            None => None,
            Some(leaf) => {
                self.include_prefix = false;
                Some((&leaf.key, &leaf.val))
            },
        }
    }
}

} // verus!
