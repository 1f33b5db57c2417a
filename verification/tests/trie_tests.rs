use qptrie::sparse_array::SparseArray;
use qptrie::Trie;
use qptrie::node::Node;

#[test]
fn test_gen() {
    let mut trie = Trie::default();
    trie.insert(vec![0x12, 0x34, 0x56, 0x78], "12345678");
    trie.insert(vec![0x12, 0x34, 0xab, 0xcd], "1234abcd");
    trie.insert(vec![0x12, 0x34, 0xab, 0xef], "1234abef");
    trie.insert(vec![0x12, 0x31, 0x11, 0x11], "12311111");
    trie.insert(vec![0x12, 0x30, 0x11, 0x11], "12301111");
    trie.insert(vec![0x12, 0xff], "12ff");
    trie.insert(vec![0x12], "12");
    trie.insert(vec![0x12, 0x01], "1201");
    trie.insert(vec![0x12, 0x30, 0x42], "123042");
    trie.insert(vec![0x12, 0x30], "1230");
    trie.insert(vec![0x92, 0x35, 0x00], "923500");

    assert_eq!(trie.get(&vec![0x12, 0x30, 0x11, 0x11]), Some(&"12301111"));

    {
        let prefix = vec![0x12, 0x30];
        let mut it = trie.prefix_iter(&prefix);
        let found = it.next().unwrap();
        assert_eq!(*found.1, "12301111");
        let found = it.next().unwrap();
        assert_eq!(*found.1, "123042");
        assert!(it.next().is_none());
    }

    {
        let prefix = vec![0x12, 0x30];
        let mut it = trie.prefix_iter(&prefix).include_prefix();
        let found = it.next().unwrap();
        assert_eq!(*found.1, "1230");
    }

    {
        let prefix = vec![];
        let mut it = trie.prefix_iter(&prefix);
        let found = it.next().unwrap();
        assert_eq!(*found.1, "12");
    }

    {
        let prefix = vec![0xff];
        let mut it = trie.prefix_iter(&prefix);
        assert!(it.next().is_none());
    }

    assert_eq!(trie.remove(&vec![0xf2, 0x30, 0x42]), false);
    assert_eq!(trie.get(&vec![0x12, 0x30, 0x42]), Some(&"123042"));
    assert_eq!(trie.remove(&vec![0x12, 0x30, 0x42]), true);
    assert_eq!(trie.get(&vec![0x12, 0x30, 0x42]), None);
    assert_eq!(trie.remove(&vec![0x12, 0x30, 0x42]), false);
    assert_eq!(trie.get(&vec![0x12, 0x30, 0x42]), None);

    let mut trie2 = Trie::default();
    trie2.insert(b"x".to_vec(), "x");
    assert_eq!(trie2.get(&b"x".to_vec()), Some(&"x"));
    assert_eq!(trie2.get_mut(&b"x".to_vec()), Some(&mut "x"));
    assert_eq!(trie2.remove(&b"x".to_vec()), true);
    assert_eq!(trie2.get(&b"x".to_vec()), None);
    assert_eq!(trie2.get_mut(&b"x".to_vec()), None);

    let mut trie3 = Trie::default();
    trie3.insert(b"z".to_vec(), "z");
    assert!(!trie3.is_empty());
    trie3.remove(&b"y".to_vec());
    assert!(!trie3.is_empty());
    trie3.remove(&b"z".to_vec());
    assert!(trie3.is_empty());
    trie3.insert(b"x".to_vec(), "x");
    trie3.insert(b"y".to_vec(), "y");
    trie3.remove(&b"y".to_vec());
    trie3.remove(&b"x".to_vec());
    assert!(trie3.is_empty());
    trie3.insert(b"x".to_vec(), "x");
    trie3.insert(b"y".to_vec(), "y");
    trie3.insert(b"z".to_vec(), "z");
    trie3.remove(&b"y".to_vec());
    assert!(!trie3.is_empty());
    trie3.remove(&b"x".to_vec());
    assert!(!trie3.is_empty());
    trie3.remove(&b"z".to_vec());
    assert!(trie3.is_empty());
}

#[test]
fn test_round_trip() {
    let keys: Vec<Vec<u8>> = vec![
        vec![],
        vec![0x00],
        vec![0x0f],
        vec![0xf0],
        vec![0xff],
        vec![0x00, 0x00],
        vec![0x12, 0x34],
        vec![0x12, 0x34, 0x56],
        vec![0xab],
        vec![0xab, 0xcd, 0xef, 0x01, 0x23],
    ];
    let mut trie = Trie::new();
    for (i, k) in keys.iter().enumerate() {
        assert!(trie.insert(k.clone(), i));
        for (j, k2) in keys.iter().enumerate() {
            if j <= i {
                assert_eq!(trie.get(k2), Some(&j));
            } else {
                assert_eq!(trie.get(k2), None);
            }
        }
    }
}

#[test]
fn test_overwrite() {
    let mut trie = Trie::new();
    assert!(trie.insert(vec![1, 2, 3], 10u64));
    assert!(trie.insert(vec![1, 2, 4], 20u64));
    // inserting a present key returns false and updates the value in place
    assert!(!trie.insert(vec![1, 2, 3], 30u64));
    assert_eq!(trie.get(&vec![1, 2, 3]), Some(&30));
    assert_eq!(trie.get(&vec![1, 2, 4]), Some(&20));
    // the key count is unchanged: exactly two entries remain
    let prefix = vec![];
    let mut it = trie.prefix_iter(&prefix);
    assert!(it.next().is_some());
    assert!(it.next().is_some());
    assert!(it.next().is_none());
}

#[test]
fn test_ordered_prefix_scan() {
    let mut trie = Trie::default();
    trie.insert(vec![0x12, 0x34, 0x56, 0x78], "12345678");
    trie.insert(vec![0x12, 0x34, 0xab, 0xcd], "1234abcd");
    trie.insert(vec![0x12, 0x34, 0xab, 0xef], "1234abef");
    trie.insert(vec![0x12, 0x31, 0x11, 0x11], "12311111");
    trie.insert(vec![0x12, 0x30, 0x11, 0x11], "12301111");
    trie.insert(vec![0x12, 0xff], "12ff");
    trie.insert(vec![0x12], "12");
    trie.insert(vec![0x12, 0x01], "1201");
    trie.insert(vec![0x12, 0x30, 0x42], "123042");
    trie.insert(vec![0x12, 0x30], "1230");
    trie.insert(vec![0x92, 0x35, 0x00], "923500");

    let prefix = vec![0x12, 0x30];
    let mut it = trie.prefix_iter(&prefix);
    let first = it.next().unwrap();
    assert_eq!(first.0, &vec![0x12, 0x30, 0x11, 0x11]);
    assert_eq!(*first.1, "12301111");
    let second = it.next().unwrap();
    assert_eq!(second.0, &vec![0x12, 0x30, 0x42]);
    assert_eq!(*second.1, "123042");
    assert!(it.next().is_none());

    let mut it = trie.prefix_iter(&prefix).include_prefix();
    let first = it.next().unwrap();
    assert_eq!(first.0, &vec![0x12, 0x30]);
    assert_eq!(*first.1, "1230");
    let second = it.next().unwrap();
    assert_eq!(*second.1, "12301111");
    let third = it.next().unwrap();
    assert_eq!(*third.1, "123042");
    assert!(it.next().is_none());
}

#[test]
fn test_empty_prefix_yields_all_ascending() {
    let mut trie = Trie::default();
    trie.insert(vec![0x12, 0x34, 0x56, 0x78], "12345678");
    trie.insert(vec![0x12, 0x34, 0xab, 0xcd], "1234abcd");
    trie.insert(vec![0x12, 0x34, 0xab, 0xef], "1234abef");
    trie.insert(vec![0x12, 0x31, 0x11, 0x11], "12311111");
    trie.insert(vec![0x12, 0x30, 0x11, 0x11], "12301111");
    trie.insert(vec![0x12, 0xff], "12ff");
    trie.insert(vec![0x12], "12");
    trie.insert(vec![0x12, 0x01], "1201");
    trie.insert(vec![0x12, 0x30, 0x42], "123042");
    trie.insert(vec![0x12, 0x30], "1230");
    trie.insert(vec![0x92, 0x35, 0x00], "923500");

    let expected = [
        "12", "1201", "1230", "12301111", "123042", "12311111", "12345678", "1234abcd",
        "1234abef", "12ff", "923500",
    ];
    let prefix = vec![];
    let mut it = trie.prefix_iter(&prefix);
    let mut got: Vec<&str> = Vec::new();
    while let Some((_, v)) = it.next() {
        got.push(*v);
    }
    assert_eq!(got, expected);
}

#[test]
fn test_no_match_prefix() {
    let mut trie = Trie::new();
    trie.insert(vec![0x12], 1);
    trie.insert(vec![0x12, 0x30], 2);
    let prefix = vec![0xff];
    let mut it = trie.prefix_iter(&prefix);
    assert!(it.next().is_none());
}

#[test]
fn test_delete_collapse() {
    let mut trie = Trie::new();
    trie.insert(vec![0x12, 0x34], "a");
    trie.insert(vec![0x12, 0x35], "b");
    trie.insert(vec![0x99], "c");
    // removing "b" leaves its parent internal node with one child, which
    // must collapse into the surviving leaf
    assert!(trie.remove(&vec![0x12, 0x35]));
    assert_eq!(trie.get(&vec![0x12, 0x34]), Some(&"a"));
    assert_eq!(trie.get(&vec![0x12, 0x35]), None);
    assert_eq!(trie.get(&vec![0x99]), Some(&"c"));
    // deleting a non-existent key returns false and mutates nothing
    assert!(!trie.remove(&vec![0x12]));
    assert_eq!(trie.get(&vec![0x12, 0x34]), Some(&"a"));
    assert_eq!(trie.get(&vec![0x99]), Some(&"c"));
    // after removing "c" too, the root collapses back to a single leaf
    assert!(trie.remove(&vec![0x99]));
    assert!(trie.root().unwrap().is_leaf());
    assert_eq!(trie.root().unwrap().as_leaf().key, vec![0x12, 0x34]);
}

#[test]
fn test_max_height_refusal() {
    let mut trie = Trie::new().max_height(0);
    assert!(trie.insert(vec![0x11], "first"));
    // the second key needs a new internal node above the root leaf
    assert!(!trie.insert(vec![0x22], "second"));
    assert_eq!(trie.get(&vec![0x11]), Some(&"first"));
    assert_eq!(trie.get(&vec![0x22]), None);

    let mut trie = Trie::new().max_height(1);
    assert!(trie.insert(vec![0x11], 1));
    assert!(trie.insert(vec![0x12], 2));
    // a key diverging at an earlier nibble needs an internal node above a
    // leaf at depth 1, which the bound refuses
    assert!(!trie.insert(vec![0x21], 3));
    assert_eq!(trie.get(&vec![0x11]), Some(&1));
    assert_eq!(trie.get(&vec![0x12]), Some(&2));
    assert_eq!(trie.get(&vec![0x21]), None);
    // filling an empty slot of the existing internal node adds no height
    assert!(trie.insert(vec![0x13], 4));
    assert_eq!(trie.get(&vec![0x13]), Some(&4));
}

#[test]
fn test_idempotent_removal() {
    let mut trie = Trie::new();
    trie.insert(vec![0xaa, 0xbb], 7);
    trie.insert(vec![0xaa, 0xcc], 8);
    assert!(trie.remove(&vec![0xaa, 0xbb]));
    assert!(!trie.remove(&vec![0xaa, 0xbb]));
    assert_eq!(trie.get(&vec![0xaa, 0xcc]), Some(&8));
}

#[test]
fn test_get_mut_updates() {
    let mut trie = Trie::new();
    trie.insert(vec![1], 100u32);
    trie.insert(vec![2], 200u32);
    if let Some(v) = trie.get_mut(&vec![1]) {
        *v += 1;
    }
    assert_eq!(trie.get(&vec![1]), Some(&101));
    assert_eq!(trie.get(&vec![2]), Some(&200));
    assert!(trie.get_mut(&vec![3]).is_none());
}

#[test]
fn test_empty_key() {
    let mut trie = Trie::new();
    assert!(trie.insert(vec![], "empty"));
    assert!(trie.insert(vec![0x01], "one"));
    assert_eq!(trie.get(&vec![]), Some(&"empty"));
    // the empty key equals the empty prefix: it is skipped by default and
    // sorts first when included
    let prefix = vec![];
    let mut it = trie.prefix_iter(&prefix);
    assert_eq!(*it.next().unwrap().1, "one");
    assert!(it.next().is_none());
    let mut it = trie.prefix_iter(&prefix).include_prefix();
    assert_eq!(it.next().unwrap().0, &Vec::<u8>::new());
    assert_eq!(*it.next().unwrap().1, "one");
    assert!(it.next().is_none());
    assert!(trie.remove(&vec![]));
    assert_eq!(trie.get(&vec![]), None);
    assert_eq!(trie.get(&vec![0x01]), Some(&"one"));
}

#[test]
fn test_trie_root_and_nodes() {
    let mut trie: Trie<&str> = Trie::new();
    assert!(trie.is_empty());
    assert!(trie.root().is_none());
    trie.insert(vec![0x10], "a");
    let root = trie.root().unwrap();
    assert!(root.is_leaf());
    assert!(!root.is_internal());
    assert!(!root.is_empty());
    assert_eq!(root.as_leaf().key, vec![0x10]);
    assert_eq!(root.as_leaf().val, "a");
    trie.insert(vec![0x20], "b");
    let root = trie.root().unwrap();
    assert!(root.is_internal());
    let inner = root.as_internal();
    // the two keys differ in their first nibble, so the root branches at
    // position 0 with slots 1 + 0x1 and 1 + 0x2
    assert_eq!(inner.index, 0);
    assert_eq!(inner.nibbles.len(), 2);
    assert!(inner.nibbles.has_sparse_index(2));
    assert!(inner.nibbles.has_sparse_index(3));
}

#[test]
fn test_sparse_array_basics() {
    assert_eq!(SparseArray::<u32>::bitmap_size(), 32);
    let mut sa: SparseArray<u32> = SparseArray::new();
    assert!(sa.is_empty());
    assert_eq!(sa.len(), 0);
    assert!(!sa.has_sparse_index(5));
    assert!(sa.set(5, 50));
    assert!(sa.set(3, 30));
    assert!(sa.set(17, 170));
    assert_eq!(sa.len(), 3);
    assert!(sa.has_sparse_index(3));
    assert!(sa.has_sparse_index(5));
    assert!(sa.has_sparse_index(17));
    assert!(!sa.has_sparse_index(4));
    // overwrite: the slot count stays, `set` reports no growth
    assert!(!sa.set(5, 55));
    assert_eq!(sa.len(), 3);
    assert_eq!(sa.get(3), Some(&30));
    assert_eq!(sa.get(5), Some(&55));
    assert_eq!(sa.get(17), Some(&170));
    assert_eq!(sa.get(6), None);
    // the physical order follows ascending logical slots
    assert_eq!(sa.all(), &vec![30, 55, 170]);
    assert_eq!(sa.head(), &30);
    assert_eq!(*sa.get_or_head(5), 55);
    assert_eq!(*sa.get_or_head(9), 30);
    if let Some(v) = sa.get_mut(3) {
        *v = 31;
    }
    assert_eq!(sa.get(3), Some(&31));
    *sa.get_or_head_mut(9) = 32;
    assert_eq!(sa.get(3), Some(&32));
    *sa.head_mut() = 33;
    assert_eq!(sa.get(3), Some(&33));
    assert_eq!(sa.pop(), 33);
    assert_eq!(sa.len(), 2);
    assert!(!sa.has_sparse_index(3));
    sa.remove(17);
    assert_eq!(sa.len(), 1);
    assert_eq!(sa.get(17), None);
    assert_eq!(sa.get(5), Some(&55));
    sa.clear();
    assert!(sa.is_empty());
    assert_eq!(sa.len(), 0);

    let sa2: SparseArray<u8> = SparseArray::with_capacity(17);
    assert!(sa2.is_empty());
    let sa3: SparseArray<u8> = Default::default();
    assert!(sa3.is_empty());
}

#[test]
fn test_node_default_is_placeholder() {
    let n: Node<u32> = Default::default();
    assert!(n.is_empty());
    assert!(!n.is_leaf());
    assert!(!n.is_internal());
}

#[test]
fn test_long_shared_prefixes() {
    // keys that agree for many nibbles force deep split positions
    let mut trie = Trie::new();
    let base = vec![0xde, 0xad, 0xbe, 0xef, 0x00, 0x11, 0x22, 0x33];
    let mut k1 = base.clone();
    k1.push(0x01);
    let mut k2 = base.clone();
    k2.push(0x02);
    let mut k3 = base.clone();
    k3.push(0x11);
    trie.insert(base.clone(), 0);
    trie.insert(k1.clone(), 1);
    trie.insert(k2.clone(), 2);
    trie.insert(k3.clone(), 3);
    assert_eq!(trie.get(&base), Some(&0));
    assert_eq!(trie.get(&k1), Some(&1));
    assert_eq!(trie.get(&k2), Some(&2));
    assert_eq!(trie.get(&k3), Some(&3));
    let mut it = trie.prefix_iter(&base).include_prefix();
    assert_eq!(it.next().unwrap().0, &base);
    assert_eq!(it.next().unwrap().0, &k1);
    assert_eq!(it.next().unwrap().0, &k2);
    assert_eq!(it.next().unwrap().0, &k3);
    assert!(it.next().is_none());
    // a key that is a proper prefix of stored keys is distinguishable from
    // its own extensions
    assert!(trie.remove(&base));
    assert_eq!(trie.get(&base), None);
    assert_eq!(trie.get(&k1), Some(&1));
}

#[test]
fn test_prefix_chain_keys() {
    // a chain of keys, each a proper prefix of the next, exercises the
    // reserved "key exhausted" slot at every level
    let mut trie = Trie::new();
    let full = vec![0x0a, 0x0b, 0x0c, 0x0d];
    for n in 0..=full.len() {
        assert!(trie.insert(full[..n].to_vec(), n));
    }
    for n in 0..=full.len() {
        assert_eq!(trie.get(&full[..n].to_vec()), Some(&n));
    }
    // ascending order: each prefix sorts before its extensions
    let prefix = vec![];
    let mut it = trie.prefix_iter(&prefix).include_prefix();
    for n in 0..=full.len() {
        assert_eq!(it.next().unwrap().0, &full[..n].to_vec());
    }
    assert!(it.next().is_none());
    // removing a middle link keeps the rest intact
    assert!(trie.remove(&full[..2].to_vec()));
    assert_eq!(trie.get(&full[..2].to_vec()), None);
    assert_eq!(trie.get(&full[..1].to_vec()), Some(&1));
    assert_eq!(trie.get(&full[..3].to_vec()), Some(&3));
}

#[test]
fn test_empty_trie_queries() {
    let mut trie: Trie<u8> = Trie::new();
    assert_eq!(trie.get(&vec![1, 2]), None);
    assert_eq!(trie.get_mut(&vec![1, 2]), None);
    assert!(!trie.remove(&vec![1, 2]));
    let prefix = vec![];
    let mut it = trie.prefix_iter(&prefix);
    assert!(it.next().is_none());
}
