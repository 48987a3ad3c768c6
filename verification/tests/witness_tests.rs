use trie_witness::codec::{encode_node_exec, TrieNode};
use trie_witness::errors::{ProofError, WitnessError};
use trie_witness::extract::target_nodes;
use trie_witness::hash::empty_root;
use trie_witness::nibbles::Nibbles;
use trie_witness::provider::{Multiproof, ProofProvider, StorageMultiproof, TriePrefixSets};
use trie_witness::state::{default_account, encode_account, Account, HashedPostState, HashedStorage};
use trie_witness::witness::{account_leaf_value, next_root_from_proofs, TrieScope, TrieWitness};
use trie_witness::witness_map::Witness;

fn nib(vals: &[u8]) -> Nibbles {
    Nibbles::from_vec(vals.to_vec()).unwrap()
}

fn keccak(bytes: &[u8]) -> Vec<u8> {
    alloy_primitives::keccak256(bytes).to_vec()
}

fn account(nonce: u64) -> Account {
    let mut a = default_account();
    a.nonce = nonce;
    a
}

/// Serves fixed subtree node lists for every request.
struct FixedProvider {
    account_nodes: Vec<(Vec<u8>, Vec<u8>)>,
    storage_addr: Vec<u8>,
    storage_nodes: Vec<(Vec<u8>, Vec<u8>)>,
    storage_root: Vec<u8>,
}

fn to_subtree(nodes: &[(Vec<u8>, Vec<u8>)]) -> Vec<(Nibbles, Vec<u8>)> {
    nodes
        .iter()
        .map(|(p, b)| (Nibbles::from_vec(p.clone()).unwrap(), b.clone()))
        .collect()
}

impl FixedProvider {
    fn storage_mp(&self) -> StorageMultiproof {
        StorageMultiproof {
            root: self.storage_root.clone(),
            subtree: to_subtree(&self.storage_nodes),
        }
    }
}

impl ProofProvider for FixedProvider {
    fn multiproof(
        &mut self,
        _targets: &Vec<(Vec<u8>, Vec<Vec<u8>>)>,
        _prefix_sets: &TriePrefixSets,
    ) -> Result<Multiproof, ProofError> {
        let storages = if self.storage_addr.is_empty() {
            Vec::new()
        } else {
            vec![(self.storage_addr.clone(), self.storage_mp())]
        };
        Ok(Multiproof { account_subtree: to_subtree(&self.account_nodes), storages })
    }

    fn account_proof(&mut self, _path: &Nibbles) -> Result<Multiproof, ProofError> {
        Ok(Multiproof { account_subtree: to_subtree(&self.account_nodes), storages: Vec::new() })
    }

    fn storage_proof(
        &mut self,
        _account: &Vec<u8>,
        _path: &Nibbles,
    ) -> Result<StorageMultiproof, ProofError> {
        Ok(self.storage_mp())
    }
}

fn single_account_fixture() -> (Vec<u8>, Vec<u8>, FixedProvider, HashedPostState) {
    // a trie holding exactly one account at address 0x11..11
    let addr = vec![0x11u8; 32];
    let old_value = encode_account(&account(1), &empty_root());
    let leaf = TrieNode::Leaf { key: Nibbles::unpack(&addr), value: old_value };
    let leaf_bytes = encode_node_exec(&leaf);
    let provider = FixedProvider {
        account_nodes: vec![(Vec::new(), leaf_bytes.clone())],
        storage_addr: Vec::new(),
        storage_nodes: Vec::new(),
        storage_root: empty_root(),
    };
    let state = HashedPostState {
        accounts: vec![(addr.clone(), Some(account(2)))],
        storages: Vec::new(),
    };
    (addr, leaf_bytes, provider, state)
}

#[test]
fn single_account_witness_holds_exactly_the_old_leaf() {
    let (_addr, leaf_bytes, provider, state) = single_account_fixture();
    let witness = TrieWitness::new(provider).compute(state).unwrap();
    assert_eq!(witness.len(), 1);
    let h = keccak(&leaf_bytes);
    assert_eq!(witness.get(&h), Some(&leaf_bytes));
}

#[test]
fn single_account_state_root_matches_reference() {
    let (addr, leaf_bytes, mut provider, _state) = single_account_fixture();
    let key = Nibbles::unpack(&addr);
    let new_value = encode_account(&account(2), &empty_root());
    let proof = vec![(Nibbles::from_vec(Vec::new()).unwrap(), leaf_bytes)];
    let mut w = Witness::new();
    let nodes = target_nodes(&key, Some(new_value.clone()), &proof, &mut w).unwrap();
    let root =
        next_root_from_proofs(nodes, &mut provider, &TrieScope::Account, &mut w).unwrap();
    // the root of the single-entry trie over the new account value
    let mut hb = alloy_trie::HashBuilder::default();
    hb.add_leaf(alloy_trie::Nibbles::unpack(&addr), &new_value);
    assert_eq!(root, hb.root().as_slice().to_vec());
}

fn sibling_fixture() -> (Vec<u8>, Vec<u8>, Vec<u8>, FixedProvider) {
    // two accounts sharing the 1-nibble prefix [1]: 0x11.. and 0x12..
    let addr1 = {
        let mut a = vec![0x11u8];
        a.extend(vec![0x11u8; 31]);
        a
    };
    let addr2 = {
        let mut a = vec![0x12u8];
        a.extend(vec![0x22u8; 31]);
        a
    };
    let slot = vec![0x33u8; 32];
    // storage trie of account 1: one slot with value 1
    let storage_leaf = TrieNode::Leaf {
        key: Nibbles::unpack(&slot),
        value: vec![0x01],
    };
    let storage_leaf_bytes = encode_node_exec(&storage_leaf);
    let storage_root = keccak(&storage_leaf_bytes);
    // account leaves under the branch at [1]
    let suffix = |addr: &Vec<u8>| Nibbles::unpack(addr).skip_first(2);
    let leaf1 = TrieNode::Leaf {
        key: suffix(&addr1),
        value: encode_account(&account(7), &storage_root),
    };
    let leaf2 = TrieNode::Leaf {
        key: suffix(&addr2),
        value: encode_account(&account(9), &empty_root()),
    };
    let leaf1_bytes = encode_node_exec(&leaf1);
    let leaf2_bytes = encode_node_exec(&leaf2);
    let mut children: Vec<Option<Vec<u8>>> = vec![None; 16];
    children[1] = Some(keccak(&leaf1_bytes));
    children[2] = Some(keccak(&leaf2_bytes));
    let branch = TrieNode::Branch { children };
    let branch_bytes = encode_node_exec(&branch);
    let ext = TrieNode::Extension { key: nib(&[1]), child: keccak(&branch_bytes) };
    let ext_bytes = encode_node_exec(&ext);
    let provider = FixedProvider {
        account_nodes: vec![
            (Vec::new(), ext_bytes.clone()),
            (vec![1], branch_bytes.clone()),
            (vec![1, 1], leaf1_bytes.clone()),
            (vec![1, 2], leaf2_bytes.clone()),
        ],
        storage_addr: addr1.clone(),
        storage_nodes: vec![(Vec::new(), storage_leaf_bytes.clone())],
        storage_root,
    };
    (addr1, slot, storage_leaf_bytes, provider)
}

#[test]
fn storage_deletion_collapses_to_the_empty_root() {
    let (addr1, slot, storage_leaf_bytes, mut provider) = sibling_fixture();
    // extract the storage proof against the deleted slot
    let slot_key = Nibbles::unpack(&slot);
    let proof = vec![(Nibbles::from_vec(Vec::new()).unwrap(), storage_leaf_bytes)];
    let mut w = Witness::new();
    let nodes = target_nodes(&slot_key, None, &proof, &mut w).unwrap();
    let scope = TrieScope::Storage(addr1);
    let root = next_root_from_proofs(nodes, &mut provider, &scope, &mut w).unwrap();
    assert_eq!(root, empty_root());
}

#[test]
fn sibling_account_witness_gathers_the_touched_path() {
    let (addr1, slot, storage_leaf_bytes, provider) = sibling_fixture();
    let state = HashedPostState {
        accounts: vec![(addr1.clone(), Some(account(7)))],
        storages: vec![(
            addr1.clone(),
            HashedStorage { storage: vec![(slot.clone(), vec![0u8; 32])] },
        )],
    };
    let ext_bytes = provider.account_nodes[0].1.clone();
    let branch_bytes = provider.account_nodes[1].1.clone();
    let leaf1_bytes = provider.account_nodes[2].1.clone();
    let witness = TrieWitness::new(provider).compute(state).unwrap();
    // every node on the touched paths is present
    assert_eq!(witness.get(&keccak(&ext_bytes)), Some(&ext_bytes));
    assert_eq!(witness.get(&keccak(&branch_bytes)), Some(&branch_bytes));
    assert_eq!(witness.get(&keccak(&leaf1_bytes)), Some(&leaf1_bytes));
    assert_eq!(witness.get(&keccak(&storage_leaf_bytes)), Some(&storage_leaf_bytes));
    assert_eq!(witness.len(), 4);
}

#[test]
fn repeated_computation_is_deterministic() {
    let (addr1, slot, _bytes, provider) = sibling_fixture();
    let (_a, _s, _b, provider2) = sibling_fixture();
    let state = |addr1: &Vec<u8>, slot: &Vec<u8>| HashedPostState {
        accounts: vec![(addr1.clone(), Some(account(7)))],
        storages: vec![(
            addr1.clone(),
            HashedStorage { storage: vec![(slot.clone(), vec![0u8; 32])] },
        )],
    };
    let hashes: Vec<Vec<u8>> = {
        let mut hs: Vec<Vec<u8>> = Vec::new();
        for (_, b) in &provider.account_nodes {
            hs.push(keccak(b));
        }
        hs.push(keccak(&provider.storage_nodes[0].1));
        hs
    };
    let w1 = TrieWitness::new(provider).compute(state(&addr1, &slot)).unwrap();
    let w2 = TrieWitness::new(provider2).compute(state(&addr1, &slot)).unwrap();
    assert_eq!(w1.len(), w2.len());
    for h in &hashes {
        assert_eq!(w1.get(h).cloned(), w2.get(h).cloned());
    }
}

#[test]
fn missing_account_entry_is_reported() {
    let (_addr, _leaf, provider, _state) = single_account_fixture();
    let orphan = vec![0x99u8; 32];
    let state = HashedPostState {
        accounts: Vec::new(),
        storages: vec![(orphan.clone(), HashedStorage { storage: Vec::new() })],
    };
    match TrieWitness::new(provider).compute(state) {
        Err(WitnessError::MissingAccount(k)) => assert_eq!(k, orphan),
        _ => panic!("expected a missing-account failure"),
    }
}

#[test]
fn malformed_proof_node_is_a_decode_failure() {
    let (addr, _leaf, mut provider, state) = single_account_fixture();
    let _ = &addr;
    provider.account_nodes[0].1 = vec![0xff, 0x00, 0x01];
    match TrieWitness::new(provider).compute(state) {
        Err(WitnessError::Decode) => {}
        _ => panic!("expected a decode failure"),
    }
}

#[test]
fn empty_proof_inserts_the_new_value_unconditionally() {
    // a single trie of one item: no proof entries at all
    let key = Nibbles::unpack(&vec![0u8; 32]);
    let mut w = Witness::new();
    let m = target_nodes(&key, Some(vec![1u8]), &Vec::new(), &mut w).unwrap();
    assert_eq!(m.len(), 1);
    assert!(m.path_at(0).equals(&key));
    match m.ref_at(0) {
        trie_witness::nodemap::NodeRef::Leaf(v) => assert_eq!(*v, vec![1u8]),
        _ => panic!("expected the literal value"),
    }
    assert_eq!(w.len(), 0);
}

#[test]
fn prefix_sets_are_a_hint_only() {
    let (_addr, leaf_bytes, provider, state) = single_account_fixture();
    let witness = TrieWitness::new(provider)
        .with_prefix_sets_mut(TriePrefixSets::empty())
        .compute(state)
        .unwrap();
    assert_eq!(witness.len(), 1);
    assert_eq!(witness.get(&keccak(&leaf_bytes)), Some(&leaf_bytes));
}

#[test]
fn witness_recording_is_idempotent() {
    let mut w = Witness::new();
    let bytes = vec![0x01, 0x02, 0x03];
    w.record(&bytes);
    assert_eq!(w.len(), 1);
    w.record(&bytes);
    assert_eq!(w.len(), 1);
    assert_eq!(w.get(&keccak(&bytes)), Some(&bytes));
    let other = vec![0x04];
    w.record(&other);
    assert_eq!(w.len(), 2);
}

#[test]
fn deletion_boundary_on_the_account_leaf() {
    // absent record over the empty storage root: full deletion
    assert!(account_leaf_value(&None, &empty_root()).is_none());
    // absent record over a surviving storage trie still yields a leaf
    let surviving = vec![0x44u8; 32];
    let v = account_leaf_value(&None, &surviving).unwrap();
    assert_eq!(v, encode_account(&default_account(), &surviving));
    // a present record always yields a leaf
    let a = account(5);
    let v2 = account_leaf_value(&Some(account(5)), &empty_root()).unwrap();
    assert_eq!(v2, encode_account(&a, &empty_root()));
}

/// Serves one fixed node for missing-node fallback requests.
struct LoneNodeProvider {
    node: Vec<u8>,
    at: Vec<u8>,
}

impl ProofProvider for LoneNodeProvider {
    fn multiproof(
        &mut self,
        _targets: &Vec<(Vec<u8>, Vec<Vec<u8>>)>,
        _prefix_sets: &TriePrefixSets,
    ) -> Result<Multiproof, ProofError> {
        Err(ProofError::Database)
    }

    fn account_proof(&mut self, path: &Nibbles) -> Result<Multiproof, ProofError> {
        let mut subtree = Vec::new();
        if path.equals(&Nibbles::from_vec(self.at.clone()).unwrap()) {
            subtree.push((Nibbles::from_vec(self.at.clone()).unwrap(), self.node.clone()));
        }
        Ok(Multiproof { account_subtree: subtree, storages: Vec::new() })
    }

    fn storage_proof(
        &mut self,
        _account: &Vec<u8>,
        _path: &Nibbles,
    ) -> Result<StorageMultiproof, ProofError> {
        Err(ProofError::Database)
    }
}

#[test]
fn lone_deep_reference_resolves_through_the_provider() {
    // after a deletion only the sibling subtree at [2,7] remains, known
    // by hash alone: the builder must fetch it to compact correctly
    let mut tail: Vec<u8> = (0..62u8).map(|i| (i * 11) % 16).collect();
    let value = vec![0x84, 1, 2, 3, 4];
    let sibling = TrieNode::Leaf {
        key: Nibbles::from_vec(tail.clone()).unwrap(),
        value: value.clone(),
    };
    let sibling_bytes = encode_node_exec(&sibling);
    let h = keccak(&sibling_bytes);
    let mut provider = LoneNodeProvider { node: sibling_bytes.clone(), at: vec![2, 7] };
    let mut m = trie_witness::nodemap::SortedNodes::new();
    m.insert(nib(&[2, 7]), trie_witness::nodemap::NodeRef::Hash(h.clone()));
    let mut w = Witness::new();
    let root = next_root_from_proofs(m, &mut provider, &TrieScope::Account, &mut w).unwrap();
    // the real compacted trie holds one leaf at the full path
    let mut full = vec![2u8, 7];
    full.append(&mut tail);
    let mut hb = alloy_trie::HashBuilder::default();
    hb.add_leaf(alloy_trie::Nibbles::from_nibbles(full), &value);
    assert_eq!(root, hb.root().as_slice().to_vec());
    // the fetched node was recorded into the witness
    assert_eq!(w.get(&h), Some(&sibling_bytes));
}

#[test]
fn lone_branch_reference_expands_into_its_children() {
    let h1 = vec![0x61u8; 32];
    let h2 = vec![0x62u8; 32];
    let mut children: Vec<Option<Vec<u8>>> = vec![None; 16];
    children[1] = Some(h1.clone());
    children[4] = Some(h2.clone());
    let branch = TrieNode::Branch { children };
    let branch_bytes = encode_node_exec(&branch);
    let h = keccak(&branch_bytes);
    let mut provider = LoneNodeProvider { node: branch_bytes, at: vec![2, 7] };
    let mut m = trie_witness::nodemap::SortedNodes::new();
    m.insert(nib(&[2, 7]), trie_witness::nodemap::NodeRef::Hash(h));
    let mut w = Witness::new();
    let root = next_root_from_proofs(m, &mut provider, &TrieScope::Account, &mut w).unwrap();
    let mut hb = alloy_trie::HashBuilder::default();
    hb.add_branch(
        alloy_trie::Nibbles::from_nibbles([2u8, 7, 1]),
        alloy_primitives::B256::from_slice(&h1),
        false,
    );
    hb.add_branch(
        alloy_trie::Nibbles::from_nibbles([2u8, 7, 4]),
        alloy_primitives::B256::from_slice(&h2),
        false,
    );
    assert_eq!(root, hb.root().as_slice().to_vec());
}

#[test]
fn unresolvable_missing_node_is_reported() {
    let mut provider = LoneNodeProvider { node: vec![0x80], at: vec![9, 9] };
    let mut m = trie_witness::nodemap::SortedNodes::new();
    m.insert(nib(&[2, 7]), trie_witness::nodemap::NodeRef::Hash(vec![0x11u8; 32]));
    let mut w = Witness::new();
    match next_root_from_proofs(m, &mut provider, &TrieScope::Account, &mut w) {
        Err(WitnessError::MissingTargetNode(p)) => assert!(p.equals(&nib(&[2, 7]))),
        _ => panic!("expected a missing-target failure"),
    }
}
