use trie_witness::hash::empty_root;
use trie_witness::nibbles::Nibbles;
use trie_witness::nodemap::{NodeRef, SortedNodes};
use trie_witness::root::compute_root;

fn nib(vals: &[u8]) -> Nibbles {
    Nibbles::from_vec(vals.to_vec()).unwrap()
}

fn reference_root(leaves: &[(&[u8], &[u8])]) -> Vec<u8> {
    // leaves given as (nibble values, rlp-encoded value), in sorted order
    let mut hb = alloy_trie::HashBuilder::default();
    for (path, value) in leaves {
        let n = alloy_trie::Nibbles::from_nibbles(*path);
        hb.add_leaf(n, value);
    }
    hb.root().as_slice().to_vec()
}

#[test]
fn empty_root_matches_reference() {
    assert_eq!(empty_root(), alloy_trie::EMPTY_ROOT_HASH.as_slice().to_vec());
}

#[test]
fn single_leaf_root_matches_reference() {
    let value: Vec<u8> = vec![0x84, 0xde, 0xad, 0xbe, 0xef];
    let key: Vec<u8> = (0..64u8).map(|i| i % 16).collect();
    let mut m = SortedNodes::new();
    m.insert(nib(&key), NodeRef::Leaf(value.clone()));
    let root = compute_root(&m);
    assert_eq!(root, reference_root(&[(&key, &value)]));
}

#[test]
fn branching_roots_match_reference() {
    // three leaves forcing a branch below a shared prefix
    let mut k1 = vec![1u8, 1];
    let mut k2 = vec![1u8, 2];
    let mut k3 = vec![1u8, 2];
    k1.extend((0..62u8).map(|i| (i * 3) % 16));
    k2.extend((0..62u8).map(|i| (i * 5) % 16));
    k3.extend((0..62u8).map(|i| (i * 7) % 16));
    let v1 = vec![0x84, 1, 2, 3, 4];
    let v2: Vec<u8> = {
        let mut v = vec![0xb8, 0x40];
        v.extend(vec![0x77u8; 64]);
        v
    };
    let v3 = vec![0x09];
    let mut entries: Vec<(Vec<u8>, Vec<u8>)> =
        vec![(k1, v1), (k2, v2), (k3, v3)];
    entries.sort();
    let mut m = SortedNodes::new();
    for (k, v) in &entries {
        m.insert(nib(k), NodeRef::Leaf(v.clone()));
    }
    let root = compute_root(&m);
    let expected = reference_root(&[
        (&entries[0].0, &entries[0].1),
        (&entries[1].0, &entries[1].1),
        (&entries[2].0, &entries[2].1),
    ]);
    assert_eq!(root, expected);
}

#[test]
fn short_key_roots_match_reference() {
    // short keys produce nodes below 32 bytes, exercising embedding
    let e: Vec<(Vec<u8>, Vec<u8>)> = vec![
        (vec![0u8, 5], vec![0x01]),
        (vec![0u8, 9], vec![0x02]),
        (vec![7u8, 3], vec![0x03]),
    ];
    let mut m = SortedNodes::new();
    for (k, v) in &e {
        m.insert(nib(k), NodeRef::Leaf(v.clone()));
    }
    let root = compute_root(&m);
    let expected = reference_root(&[
        (&e[0].0, &e[0].1),
        (&e[1].0, &e[1].1),
        (&e[2].0, &e[2].1),
    ]);
    assert_eq!(root, expected);
}

#[test]
fn reducer_drops_shallower_prefix_entries() {
    let mut m = SortedNodes::new();
    m.insert(nib(&[1]), NodeRef::Hash(vec![0xaa; 32]));
    m.insert(nib(&[1, 2]), NodeRef::Leaf(vec![0x05]));
    m.insert(nib(&[3, 4]), NodeRef::Hash(vec![0xbb; 32]));
    let r = m.reduce();
    // the [1] entry is a prefix of [1,2] and is superseded
    assert_eq!(r.len(), 2);
    assert!(r.path_at(0).equals(&nib(&[1, 2])));
    assert!(r.path_at(1).equals(&nib(&[3, 4])));
}

#[test]
fn sorted_insert_replaces_equal_paths() {
    let mut m = SortedNodes::new();
    m.insert(nib(&[2]), NodeRef::Hash(vec![0x11; 32]));
    m.insert(nib(&[1]), NodeRef::Hash(vec![0x22; 32]));
    m.insert(nib(&[2]), NodeRef::Hash(vec![0x33; 32]));
    assert_eq!(m.len(), 2);
    assert!(m.path_at(0).equals(&nib(&[1])));
    assert!(m.path_at(1).equals(&nib(&[2])));
    match m.ref_at(1) {
        NodeRef::Hash(h) => assert_eq!(*h, vec![0x33; 32]),
        _ => panic!("expected a hash reference"),
    }
}

#[test]
fn mixed_hash_and_leaf_entries_match_reference() {
    // a leaf next to an untouched sibling subtree known only by hash
    let h = vec![0x5au8; 32];
    let mut key2 = vec![7u8];
    key2.extend((0..63u8).map(|i| i % 16));
    let value = vec![0x84, 9, 9, 9, 9];
    let mut m = SortedNodes::new();
    m.insert(nib(&[5]), NodeRef::Hash(h.clone()));
    m.insert(nib(&key2), NodeRef::Leaf(value.clone()));
    let root = compute_root(&m);
    let mut hb = alloy_trie::HashBuilder::default();
    hb.add_branch(
        alloy_trie::Nibbles::from_nibbles([5u8]),
        alloy_primitives::B256::from_slice(&h),
        false,
    );
    hb.add_leaf(alloy_trie::Nibbles::from_nibbles(key2.clone()), &value);
    assert_eq!(root, hb.root().as_slice().to_vec());
}
