//! State-transition witness generation: for every touched account the
//! orchestrator extracts proof nodes, resolves the storage root, builds
//! the account leaf value and finally resolves the state root, gathering
//! every node it sees into the witness.

use vstd::prelude::*;
use crate::bytes::{copy_bytes, vec_eq};
use crate::codec::{decode_node, TrieNode};
use crate::errors::WitnessError;
use crate::hash::{empty_root, keccak_spec};
use crate::nibbles::{is_prefix_of, lemma_between_prefix, valid_nibbles, Nibbles};
use crate::nodemap::{
    adjacent_nonprefix, entries_antichain, entries_sorted, entries_view, entries_wf, lemma_reduce_wf,
    lemma_sorted_all, reduce_spec, EntryV, NodeRef, SortedNodes,
};
use crate::provider::{
    empty_prefix_sets, subtree_wf, PrefixSetsV, ProofProvider, StorageMultiproof, TriePrefixSets,
};
use crate::root::{compute_root, mpt_root};
use crate::state::{
    default_account, encode_account, encode_storage_value, is_zero_value, proof_targets, slots_for,
    targets_view, Account, HashedPostState, HashedStorage,
};
use crate::extract::target_nodes;
use crate::witness_map::{lemma_preserves_trans, preserves, witness_ok, Witness};

verus! {

/// Upper bound on the extension chains followed while resolving one
/// missing node: guards against a provider that answers with endless
/// extension nodes.
pub const RESOLUTION_FUEL: usize = 4096;

/// Which trie the missing-node fallback should ask the provider about.
pub enum TrieScope {
    /// The account trie.
    Account,
    /// The storage trie of the given hashed address.
    Storage(Vec<u8>),
}

/// The path below which everything belongs to the same parent branch.
pub open spec fn parent_path(p: Seq<u8>) -> Seq<u8> {
    p.take(p.len() - 1)
}

/// Some other entry shares entry `i`'s parent branch region.
pub open spec fn has_parent_witness(es: Seq<EntryV>, i: int) -> bool {
    exists|j: int|
        0 <= j < es.len() && j != i && is_prefix_of(parent_path(es[i].0), #[trigger] es[j].0)
}

/// Every deep hash reference comes with a neighbour in its parent
/// region: the map determines the trie shape without fallback fetches.
pub open spec fn self_sufficient(es: Seq<EntryV>) -> bool {
    forall|i: int|
        0 <= i < es.len() && (#[trigger] es[i]).1 is Hash ==> es[i].0.len() <= 1
            || has_parent_witness(es, i)
}

/// Every leaf entry among the first `i` of `red` appears in `out`.
pub open spec fn leaves_kept_upto(red: Seq<EntryV>, out: Seq<EntryV>, i: int) -> bool {
    forall|k: int|
        0 <= k < i && (#[trigger] red[k]).1 is Leaf ==> exists|m: int|
            0 <= m < out.len() && #[trigger] out[m] == red[k]
}

/// Every leaf entry of `red` appears in `out`: resolution replaces only
/// isolated hash references, never leaf values.
pub open spec fn leaves_kept(red: Seq<EntryV>, out: Seq<EntryV>) -> bool {
    leaves_kept_upto(red, out, red.len() as int)
}

/// Appending entries keeps every containment witness.
proof fn lemma_leaves_kept_grow(red: Seq<EntryV>, out1: Seq<EntryV>, out2: Seq<EntryV>, i: int)
    requires
        leaves_kept_upto(red, out1, i),
        out1.len() <= out2.len(),
        forall|m: int| 0 <= m < out1.len() ==> #[trigger] out2[m] == out1[m],
    ensures
        leaves_kept_upto(red, out2, i),
{
    assert forall|k: int|
        0 <= k < i && (#[trigger] red[k]).1 is Leaf implies exists|m: int|
        0 <= m < out2.len() && #[trigger] out2[m] == red[k] by {
        let m = choose|m: int| 0 <= m < out1.len() && #[trigger] out1[m] == red[k];
        assert(out2[m] == red[k]);
    }
}

/// In a sorted sequence, a parent witness anywhere implies one right
/// next to the entry.
proof fn lemma_parent_witness_neighbor(es: Seq<EntryV>, i: int)
    requires
        entries_sorted(es),
        0 <= i < es.len(),
        es[i].0.len() >= 1,
        has_parent_witness(es, i),
    ensures
        (i > 0 && is_prefix_of(parent_path(es[i].0), es[i - 1].0)) || (i + 1 < es.len()
            && is_prefix_of(parent_path(es[i].0), es[i + 1].0)),
{
    let parent = parent_path(es[i].0);
    assert(is_prefix_of(parent, es[i].0)) by {
        assert(es[i].0.subrange(0, es[i].0.len() - 1) =~= parent);
    }
    let j = choose|j: int|
        0 <= j < es.len() && j != i && is_prefix_of(parent_path(es[i].0), #[trigger] es[j].0);
    if j < i {
        if j == i - 1 {
        } else {
            lemma_sorted_all(es, j, i - 1);
            lemma_sorted_all(es, i - 1, i);
            lemma_between_prefix(parent, es[j].0, es[i - 1].0, es[i].0);
        }
    } else {
        if j == i + 1 {
        } else {
            lemma_sorted_all(es, i, i + 1);
            lemma_sorted_all(es, i + 1, j);
            lemma_between_prefix(parent, es[i].0, es[i + 1].0, es[j].0);
        }
    }
}

/// Finds the encoded node stored at exactly `path`.
fn find_in_subtree(subtree: &Vec<(Nibbles, Vec<u8>)>, path: &Nibbles) -> (r: Option<Vec<u8>>)
    ensures
        match r {
            Some(b) => exists|i: int|
                0 <= i < subtree@.len() && (#[trigger] subtree@[i]).0@ == path@ && subtree@[i].1@
                    == b@,
            None => true,
        },
{
    let mut i: usize = 0;
    while i < subtree.len()
        invariant
            i <= subtree@.len(),
        decreases subtree@.len() - i,
    {
        if subtree[i].0.equals(path) {
            let b = copy_bytes(&subtree[i].1);
            proof {
                assert((subtree@[i as int]).0@ == path@ && subtree@[i as int].1@ == b@);
            }
            return Some(b);
        }
        i += 1;
    }
    None
}

/// Fetches the raw encoded node at `path` through an out-of-band
/// single-target proof request and records it into the witness.
fn fetch_node<P: ProofProvider>(
    provider: &mut P,
    scope: &TrieScope,
    path: &Nibbles,
    witness: &mut Witness,
) -> (r: Result<Vec<u8>, WitnessError>)
    requires
        old(witness).wf(),
    ensures
        final(witness).wf(),
        preserves(old(witness)@, final(witness)@),
        match r {
            Ok(b) => final(witness)@.contains_key(keccak_spec(b@)),
            Err(e) => e is Proof || e is MissingTargetNode,
        },
{
    let found = match scope {
        TrieScope::Account => {
            match provider.account_proof(path) {
                Ok(mp) => find_in_subtree(&mp.account_subtree, path),
                Err(e) => {
                    return Err(WitnessError::Proof(e));
                },
            }
        },
        TrieScope::Storage(addr) => {
            match provider.storage_proof(addr, path) {
                Ok(smp) => find_in_subtree(&smp.subtree, path),
                Err(e) => {
                    return Err(WitnessError::Proof(e));
                },
            }
        },
    };
    match found {
        Some(bytes) => {
            witness.record(&bytes);
            Ok(bytes)
        },
        None => Err(WitnessError::MissingTargetNode(path.duplicate())),
    }
}

/// Computes the trie root committed to by the reduced node map,
/// resolving each isolated deep hash reference through the missing-node
/// provider: the fetched node's children replace the lone reference so
/// that canonical compaction around it is reconstructed correctly.
///
/// Whenever the reduced map already determines the trie shape — every
/// deep hash reference has a neighbour in its parent region — the
/// provider is never consulted and the result is exactly the
/// mathematical root of the reduced map. In every case the root is the
/// mathematical root of a well-formed resolved map that keeps every
/// leaf entry of the reduced input.
#[verifier::rlimit(80)]
pub fn next_root_from_proofs<P: ProofProvider>(
    trie_nodes: SortedNodes,
    provider: &mut P,
    scope: &TrieScope,
    witness: &mut Witness,
) -> (r: Result<Vec<u8>, WitnessError>)
    requires
        trie_nodes.wf(),
        old(witness).wf(),
    ensures
        final(witness).wf(),
        preserves(old(witness)@, final(witness)@),
        match r {
            Ok(root) => {
                &&& root@.len() == 32
                &&& exists|resolved: Seq<EntryV>|
                    #[trigger] entries_sorted(resolved) && entries_wf(resolved)
                        && entries_antichain(resolved) && leaves_kept(
                        reduce_spec(trie_nodes@),
                        resolved,
                    ) && root@ == mpt_root(resolved)
                &&& (self_sufficient(reduce_spec(trie_nodes@)) ==> root@ == mpt_root(
                    reduce_spec(trie_nodes@),
                ))
            },
            Err(e) => !(e is MissingAccount),
        },
        self_sufficient(reduce_spec(trie_nodes@)) ==> r is Ok,
{
    let ghost input = trie_nodes@;
    let reduced = trie_nodes.reduce();
    proof {
        lemma_reduce_wf(input);
    }
    let ghost red = reduced@;
    let ghost hyp = self_sufficient(red);
    let n = reduced.len();
    let mut out: Vec<(Nibbles, NodeRef)> = Vec::new();
    let mut i: usize = 0;
    proof {
        assert(entries_view(out@) =~= red.take(0));
    }
    while i < n
        invariant
            i <= n,
            n == red.len(),
            reduced@ == red,
            reduced.wf(),
            entries_antichain(red),
            red == reduce_spec(trie_nodes@),
            hyp == self_sufficient(red),
            witness.wf(),
            preserves(old(witness)@, witness@),
            leaves_kept_upto(red, entries_view(out@), i as int),
            hyp ==> entries_view(out@) == red.take(i as int),
        decreases n - i,
    {
        let ghost out_pre = out@;
        let path = reduced.path_at(i);
        match reduced.ref_at(i) {
            NodeRef::Leaf(v) => {
                out.push((path.duplicate(), NodeRef::Leaf(copy_bytes(v))));
                proof {
                    assert(forall|m: int|
                        0 <= m < out_pre.len() ==> #[trigger] entries_view(out@)[m]
                            == entries_view(out_pre)[m]);
                    lemma_leaves_kept_grow(red, entries_view(out_pre), entries_view(out@), i as int);
                    assert(entries_view(out@)[out_pre.len() as int] == red[i as int]);
                    if hyp {
                        assert(entries_view(out@) =~= red.take(i + 1));
                    }
                }
            },
            NodeRef::Hash(h) => {
                let plen = path.len();
                let direct = if plen <= 1 {
                    true
                } else {
                    let parent = path.slice_to(plen - 1);
                    let prev_ok = out.len() > 0 && out[out.len() - 1].0.starts_with(&parent);
                    let next_ok = i + 1 < n && reduced.path_at(i + 1).starts_with(&parent);
                    prev_ok || next_ok
                };
                if direct {
                    out.push((path.duplicate(), NodeRef::Hash(copy_bytes(h))));
                    proof {
                        assert(forall|m: int|
                            0 <= m < out_pre.len() ==> #[trigger] entries_view(out@)[m]
                                == entries_view(out_pre)[m]);
                        lemma_leaves_kept_grow(
                            red,
                            entries_view(out_pre),
                            entries_view(out@),
                            i as int,
                        );
                        if hyp {
                            assert(entries_view(out@) =~= red.take(i + 1));
                        }
                    }
                } else {
                    proof {
                        // a lone deep reference: under self-sufficiency a
                        // neighbour would have matched, so the hypothesis
                        // cannot hold on this branch
                        if hyp {
                            assert(red[i as int].1 is Hash);
                            assert(red[i as int].0.len() >= 2);
                            lemma_parent_witness_neighbor(red, i as int);
                            let parent = parent_path(red[i as int].0);
                            if i > 0 && is_prefix_of(parent, red[i as int - 1].0) {
                                assert(entries_view(out_pre) == red.take(i as int));
                                assert(entries_view(out_pre)[i as int - 1] == red[i as int - 1]);
                                assert(false);
                            } else {
                                assert(i + 1 < red.len() && is_prefix_of(
                                    parent,
                                    red[i as int + 1].0,
                                ));
                                assert(false);
                            }
                        }
                        assert(!hyp);
                    }
                    let mut cur = path.duplicate();
                    let mut fuel: usize = RESOLUTION_FUEL;
                    let mut done = false;
                    while !done && fuel > 0
                        invariant
                            red == reduce_spec(trie_nodes@),
                            hyp == self_sufficient(red),
                            !hyp,
                            i < red.len(),
                            witness.wf(),
                            preserves(old(witness)@, witness@),
                            leaves_kept_upto(red, entries_view(out@), i as int),
                        decreases fuel,
                    {
                        fuel -= 1;
                        let ghost w_pre = witness@;
                        let bytes = match fetch_node(provider, scope, &cur, witness) {
                            Ok(b) => b,
                            Err(e) => {
                                proof {
                                    lemma_preserves_trans(old(witness)@, w_pre, witness@);
                                }
                                return Err(e);
                            },
                        };
                        proof {
                            lemma_preserves_trans(old(witness)@, w_pre, witness@);
                        }
                        let node = match decode_node(&bytes) {
                            Ok(nd) => nd,
                            Err(_) => {
                                return Err(WitnessError::Decode);
                            },
                        };
                        match node {
                            TrieNode::Branch { children } => {
                                let ghost out_b = out@;
                                let mut c: u8 = 0;
                                while c < 16
                                    invariant
                                        c <= 16,
                                        children@.len() == 16,
                                        i < red.len(),
                                        out_b.len() <= out@.len(),
                                        forall|m: int|
                                            0 <= m < out_b.len() ==> #[trigger] out@[m] == out_b[
                                                m
                                            ],
                                    decreases 16 - c,
                                {
                                    match &children[c as usize] {
                                        Some(h2) => {
                                            let mut chp = cur.duplicate();
                                            chp.push(c);
                                            out.push((chp, NodeRef::Hash(copy_bytes(h2))));
                                        },
                                        None => {},
                                    }
                                    c += 1;
                                }
                                proof {
                                    assert(forall|m: int|
                                        0 <= m < out_b.len() ==> #[trigger] entries_view(out@)[m]
                                            == entries_view(out_b)[m]);
                                    lemma_leaves_kept_grow(
                                        red,
                                        entries_view(out_b),
                                        entries_view(out@),
                                        i as int,
                                    );
                                }
                                done = true;
                            },
                            TrieNode::Leaf { key: lk, value: lv } => {
                                let ghost out_b = out@;
                                let mut chp = cur.duplicate();
                                chp.extend(&lk);
                                out.push((chp, NodeRef::Leaf(lv)));
                                proof {
                                    assert(forall|m: int|
                                        0 <= m < out_b.len() ==> #[trigger] entries_view(out@)[m]
                                            == entries_view(out_b)[m]);
                                    lemma_leaves_kept_grow(
                                        red,
                                        entries_view(out_b),
                                        entries_view(out@),
                                        i as int,
                                    );
                                }
                                done = true;
                            },
                            TrieNode::Extension { key: ek, child: _ } => {
                                cur.extend(&ek);
                            },
                        }
                    }
                    if !done {
                        return Err(WitnessError::MissingTargetNode(cur));
                    }
                }
            },
        }
        i += 1;
    }
    proof {
        if hyp {
            assert(red.take(n as int) =~= red);
        }
    }
    let ghost outv = entries_view(out@);
    match SortedNodes::from_vec_checked(out) {
        Some(resolved) => {
            let root = compute_root(&resolved);
            proof {
                let rv = resolved@;
                assert(entries_sorted(rv) && entries_wf(rv) && entries_antichain(rv) && root@
                    == mpt_root(rv));
                if hyp {
                    assert(resolved@ == red);
                }
            }
            Ok(root)
        },
        None => {
            proof {
                assert(!hyp) by {
                    if hyp {
                        crate::nodemap::lemma_adjacent_antichain(red);
                        assert(adjacent_nonprefix(red)) by {
                            assert(forall|a: int, b: int|
                                0 <= a < b < red.len() ==> !is_prefix_of(
                                    #[trigger] red[a].0,
                                    #[trigger] red[b].0,
                                ));
                        }
                    }
                }
            }
            Err(WitnessError::Decode)
        },
    }
}

/// The canonical leaf value of an account whose record is absent: the
/// default record around the resolved storage root.
pub open spec fn default_account_rlp(storage_root: Seq<u8>) -> Seq<u8> {
    crate::state::account_rlp(0, Seq::empty(), storage_root, keccak_spec(Seq::empty()))
}

/// Builds the account's leaf value from its post-state record and its
/// resolved storage root. An absent record whose storage root collapsed
/// to the canonical empty root yields no value at all: the account is
/// fully deleted. An absent record over a surviving storage trie still
/// yields a leaf, and a present record always does.
pub fn account_leaf_value(account: &Option<Account>, storage_root: &Vec<u8>) -> (r: Option<
    Vec<u8>,
>)
    requires
        match account {
            Some(a) => a.wf(),
            None => true,
        },
    ensures
        match account {
            Some(a) => r matches Some(v) && v@ == crate::state::account_rlp(
                a.nonce,
                a.balance@,
                storage_root@,
                a.code_hash@,
            ),
            None => {
                if storage_root@ == crate::hash::empty_root_spec() {
                    r is None
                } else {
                    r matches Some(v) && v@ == default_account_rlp(storage_root@)
                }
            },
        },
{
    let empty = empty_root();
    match account {
        Some(a) => Some(encode_account(a, storage_root)),
        None => {
            if vec_eq(storage_root, &empty) {
                None
            } else {
                let d = default_account();
                let out = encode_account(&d, storage_root);
                proof {
                    assert(crate::state::trim_zeros(d.balance@) =~= Seq::<u8>::empty());
                }
                Some(out)
            }
        },
    }
}

/// Finds an account record by hashed address.
fn find_account<'a>(accounts: &'a Vec<(Vec<u8>, Option<Account>)>, key: &Vec<u8>) -> (r: Option<
    &'a Option<Account>,
>)
    ensures
        match r {
            Some(a) => exists|i: int|
                0 <= i < accounts@.len() && (#[trigger] accounts@[i]).0@ == key@ && accounts@[i].1
                    == *a,
            None => forall|i: int| 0 <= i < accounts@.len() ==> (#[trigger] accounts@[i]).0@ != key@,
        },
{
    let mut i: usize = 0;
    while i < accounts.len()
        invariant
            i <= accounts@.len(),
            forall|j: int| 0 <= j < i ==> (#[trigger] accounts@[j]).0@ != key@,
        decreases accounts@.len() - i,
    {
        if vec_eq(&accounts[i].0, key) {
            proof {
                assert((accounts@[i as int]).0@ == key@);
            }
            return Some(&accounts[i].1);
        }
        i += 1;
    }
    None
}

/// Finds an account's storage changes by hashed address.
fn find_storage<'a>(storages: &'a Vec<(Vec<u8>, HashedStorage)>, key: &Vec<u8>) -> (r: Option<
    &'a HashedStorage,
>)
    ensures
        match r {
            Some(s) => exists|i: int|
                0 <= i < storages@.len() && (#[trigger] storages@[i]).0@ == key@ && storages@[i].1
                    == *s,
            None => forall|i: int| 0 <= i < storages@.len() ==> (#[trigger] storages@[i]).0@ != key@,
        },
{
    let mut i: usize = 0;
    while i < storages.len()
        invariant
            i <= storages@.len(),
            forall|j: int| 0 <= j < i ==> (#[trigger] storages@[j]).0@ != key@,
        decreases storages@.len() - i,
    {
        if vec_eq(&storages[i].0, key) {
            proof {
                assert((storages@[i as int]).0@ == key@);
            }
            return Some(&storages[i].1);
        }
        i += 1;
    }
    None
}

/// Finds an account's storage proof inside a multiproof.
fn find_storage_proof<'a>(
    storages: &'a Vec<(Vec<u8>, StorageMultiproof)>,
    key: &Vec<u8>,
) -> (r: Option<&'a StorageMultiproof>)
    ensures
        true,
{
    let mut i: usize = 0;
    while i < storages.len()
        invariant
            i <= storages@.len(),
        decreases storages@.len() - i,
    {
        if vec_eq(&storages[i].0, key) {
            return Some(&storages[i].1);
        }
        i += 1;
    }
    None
}

/// Keeps the proof entries lying on the path to `key`, in order. Every
/// kept path is a prefix of `key` and therefore valid.
fn filter_proof(subtree: &Vec<(Nibbles, Vec<u8>)>, key: &Nibbles) -> (r: Vec<(Nibbles, Vec<u8>)>)
    requires
        key.wf(),
    ensures
        subtree_wf(r@),
{
    let mut out: Vec<(Nibbles, Vec<u8>)> = Vec::new();
    let mut i: usize = 0;
    while i < subtree.len()
        invariant
            i <= subtree@.len(),
            key.wf(),
            subtree_wf(out@),
        decreases subtree@.len() - i,
    {
        if key.starts_with(&subtree[i].0) {
            let p = subtree[i].0.duplicate();
            proof {
                assert(valid_nibbles(p@)) by {
                    assert(forall|j: int| 0 <= j < p@.len() ==> p@[j] == key@[j]);
                }
            }
            let ghost pre = out@;
            out.push((p, copy_bytes(&subtree[i].1)));
            proof {
                assert(forall|j: int| 0 <= j < pre.len() ==> out@[j] == pre[j]);
            }
        }
        i += 1;
    }
    out
}

/// Storage entry `j` has an account entry under the same hashed address.
pub open spec fn covered_at(state: HashedPostState, j: int) -> bool {
    exists|i: int|
        0 <= i < state.accounts@.len() && (#[trigger] state.accounts@[i]).0@
            == state.storages@[j].0@
}

/// Assembles the proof targets of one computation: every changed
/// account, in post-state order, paired with its changed storage slots.
#[verifier::rlimit(60)]
pub fn build_targets(state: &HashedPostState) -> (r: Vec<(Vec<u8>, Vec<Vec<u8>>)>)
    requires
        state.wf(),
    ensures
        targets_view(r@) == proof_targets(*state),
{
    let mut targets: Vec<(Vec<u8>, Vec<Vec<u8>>)> = Vec::new();
    let n = state.accounts.len();
    let mut i: usize = 0;
    while i < n
        invariant
            i <= n,
            n == state.accounts@.len(),
            state.wf(),
            targets@.len() == i,
            forall|k: int|
                0 <= k < i ==> #[trigger] targets_view(targets@)[k] == proof_targets(*state)[k],
        decreases n - i,
    {
        let ghost gi = i as int;
        let ghost pre = targets@;
        let addr = copy_bytes(&state.accounts[i].0);
        let mut slots: Vec<Vec<u8>> = Vec::new();
        match find_storage(&state.storages, &addr) {
            Some(hs) => {
                let m = hs.storage.len();
                let mut s: usize = 0;
                while s < m
                    invariant
                        s <= m,
                        m == hs.storage@.len(),
                        slots@.len() == s,
                        forall|k: int| 0 <= k < s ==> (#[trigger] slots@[k])@ == hs.storage@[k].0@,
                    decreases m - s,
                {
                    slots.push(copy_bytes(&hs.storage[s].0));
                    s += 1;
                }
                proof {
                    // the entry found carries the unique key, so it is the
                    // one the specification selects
                    let i0 = choose|i0: int|
                        0 <= i0 < state.storages@.len() && (#[trigger] state.storages@[i0]).0@
                            == addr@ && state.storages@[i0].1 == *hs;
                    let j = choose|j: int|
                        0 <= j < state.storages@.len() && (#[trigger] state.storages@[j]).0@
                            == addr@;
                    assert(j == i0);
                    assert(Seq::new(slots@.len(), |k: int| slots@[k]@) =~= slots_for(
                        *state,
                        addr@,
                    ));
                }
            },
            None => {
                proof {
                    assert(!exists|j: int|
                        0 <= j < state.storages@.len() && (#[trigger] state.storages@[j]).0@
                            == addr@);
                    assert(Seq::new(slots@.len(), |k: int| slots@[k]@) =~= slots_for(
                        *state,
                        addr@,
                    ));
                }
            },
        }
        targets.push((addr, slots));
        proof {
            assert(targets@[gi].0@ == state.accounts@[gi].0@);
            assert(forall|k: int| 0 <= k < gi ==> #[trigger] targets@[k] == pre[k]);
            assert(targets_view(targets@)[gi] == proof_targets(*state)[gi]) by {
                assert(targets_view(targets@)[gi].1 =~= Seq::new(
                    slots@.len(),
                    |k: int| slots@[k]@,
                ));
            }
            assert forall|k: int| 0 <= k < gi implies #[trigger] targets_view(targets@)[k]
                == proof_targets(*state)[k] by {
                assert(targets_view(targets@)[k].1 =~= targets_view(pre)[k].1);
                assert(targets_view(targets@)[k] == targets_view(pre)[k]);
            }
        }
        i += 1;
    }
    proof {
        assert(targets_view(targets@) =~= proof_targets(*state));
    }
    targets
}

/// Every changed storage key has an account entry in the post-state.
pub open spec fn storages_covered(state: HashedPostState) -> bool {
    forall|j: int| 0 <= j < state.storages@.len() ==> #[trigger] covered_at(state, j)
}

/// State-transition witness generator over a proof provider snapshot.
pub struct TrieWitness<P> {
    provider: P,
    prefix_sets: TriePrefixSets,
    witness: Witness,
}

impl<P: ProofProvider> TrieWitness<P> {
    /// Internal soundness of the accumulated witness.
    pub closed spec fn wf(&self) -> bool {
        self.witness.wf()
    }

    /// The proof provider held by the generator.
    pub closed spec fn provider_of(&self) -> P {
        self.provider
    }

    /// The changed-region hints handed through to the provider.
    pub closed spec fn prefix_sets_view(&self) -> PrefixSetsV {
        self.prefix_sets@
    }

    /// The witness accumulated so far.
    pub closed spec fn witness_view(&self) -> Map<Seq<u8>, Seq<u8>> {
        self.witness@
    }

    /// Creates a new witness generator over the given proof provider:
    /// empty prefix-set hints and an empty witness, fresh per
    /// computation.
    pub fn new(provider: P) -> (r: Self)
        ensures
            r.wf(),
            r.provider_of() == provider,
            r.prefix_sets_view() == empty_prefix_sets(),
            r.witness_view() == Map::<Seq<u8>, Seq<u8>>::empty(),
    {
        TrieWitness { provider, prefix_sets: TriePrefixSets::empty(), witness: Witness::new() }
    }

    /// Sets the prefix sets handed through to the proof provider;
    /// provider and accumulated witness stay as they were.
    pub fn with_prefix_sets_mut(self, prefix_sets: TriePrefixSets) -> (r: Self)
        ensures
            r.prefix_sets_view() == prefix_sets@,
            r.provider_of() == self.provider_of(),
            r.witness_view() == self.witness_view(),
            r.wf() == self.wf(),
    {
        TrieWitness { provider: self.provider, prefix_sets, witness: self.witness }
    }

    /// Computes the state transition witness for `state`: gathers every
    /// trie node required to apply the changes on top of the provider's
    /// snapshot. Every returned binding maps a node hash to exactly the
    /// bytes it digests.
    pub fn compute(self, state: HashedPostState) -> (r: Result<Witness, WitnessError>)
        requires
            self.wf(),
            state.wf(),
        ensures
            match r {
                Ok(w) => w.wf() && witness_ok(w@),
                Err(e) => match e {
                    WitnessError::MissingAccount(_) => !storages_covered(state),
                    _ => true,
                },
            },
            !storages_covered(state) ==> r matches Err(WitnessError::MissingAccount(_)),
    {
        let TrieWitness { mut provider, prefix_sets, witness: mut witness } = self;
        // every storage key must have an account entry
        let mut j: usize = 0;
        while j < state.storages.len()
            invariant
                j <= state.storages@.len(),
                state.wf(),
                witness.wf(),
                forall|j2: int| 0 <= j2 < j ==> #[trigger] covered_at(state, j2),
            decreases state.storages@.len() - j,
        {
            match find_account(&state.accounts, &state.storages[j].0) {
                Some(_) => {
                    proof {
                        assert(covered_at(state, j as int));
                    }
                },
                None => {
                    proof {
                        assert(!covered_at(state, j as int)) by {
                            if covered_at(state, j as int) {
                                let i0 = choose|i: int|
                                    0 <= i < state.accounts@.len() && (
                                    #[trigger] state.accounts@[i]).0@ == state.storages@[
                                        j as int
                                    ].0@;
                                assert(state.accounts@[i0].0@ != state.storages@[j as int].0@);
                            }
                        }
                        assert(!storages_covered(state));
                    }
                    return Err(WitnessError::MissingAccount(copy_bytes(&state.storages[j].0)));
                },
            }
            j += 1;
        }
        proof {
            assert(storages_covered(state));
        }
        // one batched proof covering every changed account and slot:
        // the targets are exactly the specified set
        let targets = build_targets(&state);
        let mp = match provider.multiproof(&targets, &prefix_sets) {
            Ok(m) => m,
            Err(e) => {
                return Err(WitnessError::Proof(e));
            },
        };
        let default_storage_proof = StorageMultiproof::empty();
        let mut account_trie_nodes = SortedNodes::new();
        let mut i2: usize = 0;
        while i2 < state.accounts.len()
            invariant
                i2 <= state.accounts@.len(),
                state.wf(),
                storages_covered(state),
                witness.wf(),
                account_trie_nodes.wf(),
                default_storage_proof.wf(),
            decreases state.accounts@.len() - i2,
        {
            let addr = &state.accounts[i2].0;
            let smp: &StorageMultiproof = match find_storage_proof(&mp.storages, addr) {
                Some(s) => s,
                None => &default_storage_proof,
            };
            let key = Nibbles::unpack(addr);
            // gather this account's storage trie nodes and resolve its
            // post-transition storage root
            let mut storage_trie_nodes = SortedNodes::new();
            match find_storage(&state.storages, addr) {
                Some(hs) => {
                    let mut s: usize = 0;
                    while s < hs.storage.len()
                        invariant
                            s <= hs.storage@.len(),
                            hs.wf(),
                            witness.wf(),
                            storage_trie_nodes.wf(),
                            storages_covered(state),
                        decreases hs.storage@.len() - s,
                    {
                        let slot_key = Nibbles::unpack(&hs.storage[s].0);
                        let slot_value = if is_zero_value(&hs.storage[s].1) {
                            None
                        } else {
                            Some(encode_storage_value(&hs.storage[s].1))
                        };
                        let f2 = filter_proof(&smp.subtree, &slot_key);
                        let m2 = match target_nodes(&slot_key, slot_value, &f2, &mut witness) {
                            Ok(m) => m,
                            Err(e) => {
                                return Err(e);
                            },
                        };
                        storage_trie_nodes.merge_from(m2);
                        s += 1;
                    }
                },
                None => {},
            }
            let scope = TrieScope::Storage(copy_bytes(addr));
            let storage_root = match next_root_from_proofs(
                storage_trie_nodes,
                &mut provider,
                &scope,
                &mut witness,
            ) {
                Ok(rt) => rt,
                Err(e) => {
                    return Err(e);
                },
            };
            // the account leaf value embeds the resolved storage root;
            // an absent record over an empty root is a full deletion
            let value = account_leaf_value(&state.accounts[i2].1, &storage_root);
            let filtered = filter_proof(&mp.account_subtree, &key);
            let extracted = match target_nodes(&key, value, &filtered, &mut witness) {
                Ok(m) => m,
                Err(e) => {
                    return Err(e);
                },
            };
            account_trie_nodes.merge_from(extracted);
            i2 += 1;
        }
        // resolve the new state root over the merged account-level map
        let scope = TrieScope::Account;
        let _state_root = match next_root_from_proofs(
            account_trie_nodes,
            &mut provider,
            &scope,
            &mut witness,
        ) {
            Ok(rt) => rt,
            Err(e) => {
                return Err(e);
            },
        };
        proof {
            witness.lemma_hash_consistent();
        }
        Ok(witness)
    }
}

} // verus!
