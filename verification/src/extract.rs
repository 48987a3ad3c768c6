//! Target-node extractor: walks one proof toward a single target key,
//! recording every visited node into the witness and emitting hash
//! references for untouched sibling branches plus the final leaf value.

use vstd::prelude::*;
use crate::bytes::copy_bytes;
use crate::codec::{decode_node, encode_node, node_wf, TrieNode};
use crate::errors::WitnessError;
use crate::hash::keccak_spec;
use crate::nibbles::{is_prefix_of, valid_nibbles, Nibbles};
use crate::nodemap::{lookup, sorted_insert, NodeRef, RefV, SortedNodes, EntryV, entry_wf};
use crate::provider::subtree_wf;
use crate::witness_map::{lemma_preserves_trans, preserves, record_spec, Witness};

verus! {

/// The witness after recording every proof node's bytes from entry `i`
/// on, in order.
pub open spec fn record_all(
    m: Map<Seq<u8>, Seq<u8>>,
    proof: Seq<(Nibbles, Vec<u8>)>,
    i: int,
) -> Map<Seq<u8>, Seq<u8>>
    decreases proof.len() - i,
{
    if i < 0 || i >= proof.len() {
        m
    } else {
        record_all(record_spec(m, proof[i].1@), proof, i + 1)
    }
}

/// The sibling references contributed by one branch node at `path`: for
/// every present child whose induced path is not on the way to `key`, a
/// hash reference at that child path.
pub open spec fn branch_child_inserts(
    m: Seq<EntryV>,
    path: Seq<u8>,
    children: Seq<Option<Vec<u8>>>,
    key: Seq<u8>,
    c: int,
) -> Seq<EntryV>
    decreases 16 - c,
{
    if c < 0 || c >= 16 {
        m
    } else {
        let m1 = match children[c] {
            Some(h) => if !is_prefix_of(path.push(c as u8), key) {
                sorted_insert(m, path.push(c as u8), RefV::Hash(h@))
            } else {
                m
            },
            None => m,
        };
        branch_child_inserts(m1, path, children, key, c + 1)
    }
}

/// What one decoded proof node at `path` contributes to the extracted
/// map: branch siblings, nothing for an extension, and a stale leaf's
/// value when the leaf does not sit exactly at `key`.
pub open spec fn extract_step(m: Seq<EntryV>, path: Seq<u8>, node: TrieNode, key: Seq<u8>) -> Seq<
    EntryV,
> {
    match node {
        TrieNode::Branch { children } => branch_child_inserts(m, path, children@, key, 0),
        TrieNode::Extension { key: ek, child } => m,
        TrieNode::Leaf { key: lk, value } => {
            let np = path + lk@;
            if np != key {
                sorted_insert(m, np, RefV::Leaf(value@))
            } else {
                m
            }
        },
    }
}

/// Folds the proof nodes' contributions in order, from entry `i` on.
pub open spec fn extract_fold(
    m: Seq<EntryV>,
    key: Seq<u8>,
    paths: Seq<Seq<u8>>,
    nodes: Seq<TrieNode>,
    i: int,
) -> Seq<EntryV>
    decreases nodes.len() - i,
{
    if i < 0 || i >= nodes.len() {
        m
    } else {
        extract_fold(extract_step(m, paths[i], nodes[i], key), key, paths, nodes, i + 1)
    }
}

/// The extracted map for a whole proof: the folded node contributions,
/// then — exactly when a new value is supplied — the target's own entry.
pub open spec fn extract_entries(
    key: Seq<u8>,
    value: Option<Seq<u8>>,
    paths: Seq<Seq<u8>>,
    nodes: Seq<TrieNode>,
) -> Seq<EntryV> {
    let m = extract_fold(Seq::empty(), key, paths, nodes, 0);
    match value {
        Some(v) => sorted_insert(m, key, RefV::Leaf(v)),
        None => m,
    }
}

pub proof fn lemma_lookup_insert_eq(es: Seq<EntryV>, k: Seq<u8>, v: RefV)
    ensures
        lookup(sorted_insert(es, k, v), k) == Some(v),
    decreases es.len(),
{
    let out = sorted_insert(es, k, v);
    if es.len() == 0 {
        assert(out[0] == (k, v));
    } else if crate::nibbles::lex_lt(es[0].0, k) {
        lemma_lookup_insert_eq(es.skip(1), k, v);
        assert(out =~= seq![es[0]] + sorted_insert(es.skip(1), k, v));
        assert(out[0] == es[0]);
        assert(es[0].0 != k) by {
            crate::nibbles::lemma_lex_lt_irrefl(k);
        }
        assert(out.skip(1) =~= sorted_insert(es.skip(1), k, v));
    } else {
        assert(out[0] == (k, v));
    }
}

pub proof fn lemma_lookup_insert_ne(es: Seq<EntryV>, k: Seq<u8>, v: RefV, k2: Seq<u8>)
    requires
        k2 != k,
    ensures
        lookup(sorted_insert(es, k, v), k2) == lookup(es, k2),
    decreases es.len(),
{
    let out = sorted_insert(es, k, v);
    if es.len() == 0 {
        assert(out[0] == (k, v));
        assert(out.skip(1) =~= Seq::<EntryV>::empty());
        assert(lookup(out, k2) == lookup(out.skip(1), k2));
    } else if crate::nibbles::lex_lt(es[0].0, k) {
        lemma_lookup_insert_ne(es.skip(1), k, v, k2);
        assert(out =~= seq![es[0]] + sorted_insert(es.skip(1), k, v));
        assert(out[0] == es[0]);
        assert(out.skip(1) =~= sorted_insert(es.skip(1), k, v));
        if es[0].0 == k2 {
            assert(lookup(out, k2) == Some(es[0].1));
            assert(lookup(es, k2) == Some(es[0].1));
        } else {
            assert(lookup(out, k2) == lookup(out.skip(1), k2));
            assert(lookup(es, k2) == lookup(es.skip(1), k2));
        }
    } else if es[0].0 == k {
        assert(out =~= seq![(k, v)] + es.skip(1));
        assert(out[0] == (k, v));
        assert(out.skip(1) =~= es.skip(1));
        assert(lookup(out, k2) == lookup(es.skip(1), k2));
        assert(lookup(es, k2) == lookup(es.skip(1), k2));
    } else {
        assert(out =~= seq![(k, v)] + es);
        assert(out[0] == (k, v));
        assert(out.skip(1) =~= es);
        assert(lookup(out, k2) == lookup(es, k2));
    }
}

/// No branch contribution ever lands on the target key itself.
proof fn lemma_branch_inserts_no_key(
    m: Seq<EntryV>,
    path: Seq<u8>,
    children: Seq<Option<Vec<u8>>>,
    key: Seq<u8>,
    c: int,
)
    requires
        lookup(m, key) is None,
    ensures
        lookup(branch_child_inserts(m, path, children, key, c), key) is None,
    decreases 16 - c,
{
    if c < 0 || c >= 16 {
    } else {
        let m1 = match children[c] {
            Some(h) => if !is_prefix_of(path.push(c as u8), key) {
                sorted_insert(m, path.push(c as u8), RefV::Hash(h@))
            } else {
                m
            },
            None => m,
        };
        match children[c] {
            Some(h) => {
                if !is_prefix_of(path.push(c as u8), key) {
                    assert(path.push(c as u8) != key) by {
                        if path.push(c as u8) == key {
                            assert(key.subrange(0, key.len() as int) =~= key);
                        }
                    }
                    lemma_lookup_insert_ne(m, path.push(c as u8), RefV::Hash(h@), key);
                }
            },
            None => {},
        }
        lemma_branch_inserts_no_key(m1, path, children, key, c + 1);
    }
}

/// The folded contributions never place an entry at the target key.
proof fn lemma_extract_fold_no_key(
    m: Seq<EntryV>,
    key: Seq<u8>,
    paths: Seq<Seq<u8>>,
    nodes: Seq<TrieNode>,
    i: int,
)
    requires
        lookup(m, key) is None,
    ensures
        lookup(extract_fold(m, key, paths, nodes, i), key) is None,
    decreases nodes.len() - i,
{
    if i < 0 || i >= nodes.len() {
    } else {
        let m1 = extract_step(m, paths[i], nodes[i], key);
        match nodes[i] {
            TrieNode::Branch { children } => {
                lemma_branch_inserts_no_key(m, paths[i], children@, key, 0);
            },
            TrieNode::Extension { .. } => {},
            TrieNode::Leaf { key: lk, value } => {
                if paths[i] + lk@ != key {
                    lemma_lookup_insert_ne(m, paths[i] + lk@, RefV::Leaf(value@), key);
                }
            },
        }
        lemma_extract_fold_no_key(m1, key, paths, nodes, i + 1);
    }
}

/// The fold over one more decoded node is that node's contribution on
/// top of the fold so far.
proof fn lemma_extract_fold_snoc(
    m: Seq<EntryV>,
    key: Seq<u8>,
    paths: Seq<Seq<u8>>,
    nodes: Seq<TrieNode>,
    n: TrieNode,
    i: int,
)
    requires
        0 <= i <= nodes.len(),
        nodes.len() < paths.len(),
    ensures
        extract_fold(m, key, paths, nodes.push(n), i) == extract_step(
            extract_fold(m, key, paths, nodes, i),
            paths[nodes.len() as int],
            n,
            key,
        ),
    decreases nodes.len() - i,
{
    let np = nodes.push(n);
    if i == nodes.len() {
        assert(np[i] == n);
        assert(extract_fold(extract_step(m, paths[i], n, key), key, paths, np, i + 1)
            == extract_step(m, paths[i], n, key));
    } else {
        assert(np[i] == nodes[i]);
        lemma_extract_fold_snoc(
            extract_step(m, paths[i], nodes[i], key),
            key,
            paths,
            nodes,
            n,
            i + 1,
        );
    }
}

/// Decodes and unrolls all nodes of one proof walk toward `key`. Records
/// every node into the witness. Returns the path-ordered map of sibling
/// hash references and stale leaf values; the supplied new value, if
/// any, is placed at `key` itself — its absence encodes deletion.
#[verifier::rlimit(80)]
pub fn target_nodes(
    key: &Nibbles,
    value: Option<Vec<u8>>,
    proof: &Vec<(Nibbles, Vec<u8>)>,
    witness: &mut Witness,
) -> (r: Result<SortedNodes, WitnessError>)
    requires
        key.wf(),
        old(witness).wf(),
        subtree_wf(proof@),
    ensures
        final(witness).wf(),
        preserves(old(witness)@, final(witness)@),
        match r {
            Ok(m) => {
                &&& m.wf()
                &&& final(witness)@ == record_all(old(witness)@, proof@, 0)
                &&& exists|nodes: Seq<TrieNode>|
                    {
                        &&& #[trigger] nodes.len() == proof@.len()
                        &&& (forall|i: int|
                            0 <= i < nodes.len() ==> node_wf(#[trigger] nodes[i]) && encode_node(
                                nodes[i],
                            ) == proof@[i].1@)
                        &&& m@ == extract_entries(
                            key@,
                            match value {
                                Some(v) => Some(v@),
                                None => None,
                            },
                            Seq::new(proof@.len() as nat, |i: int| proof@[i].0@),
                            nodes,
                        )
                    }
                &&& (forall|i: int|
                    0 <= i < proof@.len() ==> final(witness)@.contains_key(
                        keccak_spec(#[trigger] proof@[i].1@),
                    ))
                &&& match value {
                    Some(v) => lookup(m@, key@) == Some(RefV::Leaf(v@)),
                    None => lookup(m@, key@) is None,
                }
            },
            Err(e) => e is Decode,
        },
        (forall|i: int|
            0 <= i < proof@.len() ==> exists|n: TrieNode|
                node_wf(n) && encode_node(n) == (#[trigger] proof@[i]).1@) ==> r is Ok,
{
    let ghost paths = Seq::new(proof@.len() as nat, |i: int| proof@[i].0@);
    let mut out = SortedNodes::new();
    let ghost mut nodes: Seq<TrieNode> = Seq::empty();
    let mut i: usize = 0;
    while i < proof.len()
        invariant
            i <= proof@.len(),
            key.wf(),
            subtree_wf(proof@),
            witness.wf(),
            paths == Seq::new(proof@.len() as nat, |j: int| proof@[j].0@),
            preserves(old(witness)@, witness@),
            forall|j: int|
                0 <= j < i ==> witness@.contains_key(keccak_spec(#[trigger] proof@[j].1@)),
            nodes.len() == i,
            forall|j: int|
                0 <= j < i ==> node_wf(#[trigger] nodes[j]) && encode_node(nodes[j])
                    == proof@[j].1@,
            out.wf(),
            out@ == extract_fold(Seq::<EntryV>::empty(), key@, paths, nodes, 0),
            record_all(old(witness)@, proof@, 0) == record_all(witness@, proof@, i as int),
        decreases proof@.len() - i,
    {
        let ghost w_pre = witness@;
        witness.record(&proof[i].1);
        proof {
            lemma_preserves_trans(old(witness)@, w_pre, witness@);
        }
        let node = match decode_node(&proof[i].1) {
            Ok(n) => n,
            Err(_) => {
                proof {
                    // a canonical proof can never reach this arm
                    if forall|j: int|
                        0 <= j < proof@.len() ==> exists|n2: TrieNode|
                            node_wf(n2) && encode_node(n2) == (#[trigger] proof@[j]).1@ {
                        assert(exists|n2: TrieNode|
                            node_wf(n2) && encode_node(n2) == proof@[i as int].1@);
                        assert(false);
                    }
                }
                return Err(WitnessError::Decode);
            },
        };
        let ghost gnode = node;
        let ghost m_pre = out@;
        let path = &proof[i].0;
        match node {
            TrieNode::Branch { children } => {
                let mut c: u8 = 0;
                while c < 16
                    invariant
                        c <= 16,
                        key.wf(),
                        valid_nibbles(path@),
                        out.wf(),
                        gnode == (TrieNode::Branch { children }),
                        node_wf(gnode),
                        branch_child_inserts(m_pre, path@, children@, key@, 0)
                            == branch_child_inserts(out@, path@, children@, key@, c as int),
                    decreases 16 - c,
                {
                    match &children[c as usize] {
                        Some(h) => {
                            let mut child_path = path.duplicate();
                            child_path.push(c);
                            if !key.starts_with(&child_path) {
                                proof {
                                    assert(entry_wf((child_path@, RefV::Hash(h@))));
                                }
                                out.insert(child_path, NodeRef::Hash(copy_bytes(h)));
                            }
                        },
                        None => {},
                    }
                    c += 1;
                }
                proof {
                    assert(out@ == extract_step(m_pre, path@, gnode, key@));
                }
            },
            TrieNode::Extension { .. } => {
                proof {
                    assert(out@ == extract_step(m_pre, path@, gnode, key@));
                }
            },
            TrieNode::Leaf { key: lk, value: lv } => {
                let mut np = path.duplicate();
                np.extend(&lk);
                if !np.equals(key) {
                    proof {
                        assert(valid_nibbles(np@));
                    }
                    out.insert(np, NodeRef::Leaf(lv));
                } else {
                }
                proof {
                    assert(out@ == extract_step(m_pre, path@, gnode, key@));
                }
            },
        }
        proof {
            lemma_extract_fold_snoc(Seq::<EntryV>::empty(), key@, paths, nodes, gnode, 0);
            nodes = nodes.push(gnode);
            assert(paths[i as int] == proof@[i as int].0@);
            assert(out@ == extract_fold(Seq::<EntryV>::empty(), key@, paths, nodes, 0));
        }
        i += 1;
    }
    let ghost m_folded = out@;
    proof {
        lemma_extract_fold_no_key(Seq::<EntryV>::empty(), key@, paths, nodes, 0);
    }
    match value {
        Some(v) => {
            let ghost gv = v@;
            out.insert(key.duplicate(), NodeRef::Leaf(v));
            proof {
                lemma_lookup_insert_eq(m_folded, key@, RefV::Leaf(gv));
            }
        },
        None => {},
    }
    proof {
        let gnodes = nodes;
        assert(gnodes.len() == proof@.len());
    }
    Ok(out)
}

} // verus!
