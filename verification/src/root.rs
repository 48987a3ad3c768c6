//! Incremental root builder: reconstructs the minimal trie over a
//! path-ordered map of leaf values and subtree hashes and computes the
//! resulting root hash.
//!
//! The specification [`mpt_root`] is the mathematical definition of the
//! Merkle-Patricia root over such a map: compaction (extension nodes) is
//! part of the definition, so the executable builder is proved to return
//! exactly the root of the real trie over the same entries.

use vstd::prelude::*;
use crate::bytes::push_all;
use crate::codec::{hp_encode, rlp_list, rlp_list_exec, rlp_str, rlp_str_exec, hp_encode_exec};
use crate::hash::{keccak256, keccak_spec, empty_root, empty_root_spec};
use crate::nibbles::{
    is_prefix_of, lcp2, lemma_between_prefix, lemma_lcp2_prefix, lemma_lex_lt_irrefl,
    lemma_lex_lt_trans, lemma_prefix_lex_le, lex_le, lex_lt, valid_nibbles, Nibbles,
};
use crate::nodemap::{
    entries_antichain, entries_sorted, entries_wf, entry_wf, lemma_sorted_all, EntryV, NodeRef,
    RefV, SortedNodes,
};

verus! {

/// The length of the longest path among the entries.
pub open spec fn max_plen(es: Seq<EntryV>) -> nat
    decreases es.len(),
{
    if es.len() == 0 {
        0
    } else {
        let m = max_plen(es.drop_last());
        if es.last().0.len() >= m {
            es.last().0.len()
        } else {
            m
        }
    }
}

pub proof fn lemma_max_plen_ge(es: Seq<EntryV>, i: int)
    requires
        0 <= i < es.len(),
    ensures
        es[i].0.len() <= max_plen(es),
    decreases es.len(),
{
    if i == es.len() - 1 {
    } else {
        lemma_max_plen_ge(es.drop_last(), i);
    }
}

/// Every entry's path extends `prefix`.
pub open spec fn all_extend(prefix: Seq<u8>, es: Seq<EntryV>) -> bool {
    forall|i: int| 0 <= i < es.len() ==> is_prefix_of(prefix, #[trigger] es[i].0)
}

/// The termination measure of the subtree recursion: how much deeper the
/// deepest path goes below the current prefix.
pub open spec fn measure(prefix: Seq<u8>, es: Seq<EntryV>) -> nat {
    if max_plen(es) + 1 >= prefix.len() {
        (max_plen(es) + 1 - prefix.len()) as nat
    } else {
        0
    }
}

/// The entries whose path passes through nibble `c` at depth `d`.
pub open spec fn group_at(es: Seq<EntryV>, d: int, c: u8) -> Seq<EntryV>
    decreases es.len(),
{
    if es.len() == 0 {
        es
    } else {
        let front = group_at(es.drop_last(), d, c);
        let e = es.last();
        if e.0.len() > d && e.0[d] == c {
            front.push(e)
        } else {
            front
        }
    }
}

pub proof fn lemma_group_at_max_plen(es: Seq<EntryV>, d: int, c: u8)
    ensures
        group_at(es, d, c).len() <= es.len(),
        max_plen(group_at(es, d, c)) <= max_plen(es),
    decreases es.len(),
{
    if es.len() == 0 {
    } else {
        lemma_group_at_max_plen(es.drop_last(), d, c);
        let front = group_at(es.drop_last(), d, c);
        let e = es.last();
        if e.0.len() > d && e.0[d] == c {
            assert(front.push(e).drop_last() =~= front);
            assert(front.push(e).last() == e);
        }
    }
}

/// Membership plus the filter facts for every retained entry.
pub proof fn lemma_group_at_membership(es: Seq<EntryV>, d: int, c: u8, k: int)
    requires
        0 <= k < group_at(es, d, c).len(),
    ensures
        exists|j: int|
            0 <= j < es.len() && #[trigger] es[j] == group_at(es, d, c)[k] && es[j].0.len() > d
                && es[j].0[d] == c,
    decreases es.len(),
{
    let g = group_at(es, d, c);
    if es.len() == 0 {
    } else {
        let front = group_at(es.drop_last(), d, c);
        let e = es.last();
        if e.0.len() > d && e.0[d] == c {
            if k == g.len() - 1 {
                assert(es[es.len() - 1] == g[k]);
            } else {
                lemma_group_at_membership(es.drop_last(), d, c, k);
                let j = choose|j: int|
                    0 <= j < es.drop_last().len() && #[trigger] es.drop_last()[j] == front[k]
                        && es.drop_last()[j].0.len() > d && es.drop_last()[j].0[d] == c;
                assert(es[j] == g[k]);
            }
        } else {
            lemma_group_at_membership(es.drop_last(), d, c, k);
            let j = choose|j: int|
                0 <= j < es.drop_last().len() && #[trigger] es.drop_last()[j] == front[k]
                    && es.drop_last()[j].0.len() > d && es.drop_last()[j].0[d] == c;
            assert(es[j] == g[k]);
        }
    }
}

/// The group keeps order, the antichain property, well-formedness, and
/// every member extends the branch prefix by `c`.
pub proof fn lemma_group_at_props(es: Seq<EntryV>, d: int, c: u8, l: Seq<u8>)
    requires
        entries_sorted(es),
        entries_antichain(es),
        entries_wf(es),
        all_extend(l, es),
        l.len() == d,
        0 <= d,
    ensures
        entries_sorted(group_at(es, d, c)),
        entries_antichain(group_at(es, d, c)),
        entries_wf(group_at(es, d, c)),
        all_extend(l.push(c), group_at(es, d, c)),
    decreases es.len(),
{
    let g = group_at(es, d, c);
    if es.len() == 0 {
    } else {
        let front = es.drop_last();
        assert(forall|i: int| 0 <= i < front.len() ==> front[i] == es[i]);
        lemma_group_at_props(front, d, c, l);
        let gf = group_at(front, d, c);
        let e = es.last();
        if e.0.len() > d && e.0[d] == c {
            assert(g == gf.push(e));
            assert(forall|i: int| 0 <= i < gf.len() ==> g[i] == gf[i]);
            assert(g[g.len() - 1] == e);
            // order and antichain against the new last element
            assert forall|k: int| 0 <= k < gf.len() implies lex_lt(g[k].0, e.0) && !is_prefix_of(
                g[k].0,
                e.0,
            ) by {
                lemma_group_at_membership(front, d, c, k);
                let j = choose|j: int|
                    0 <= j < front.len() && #[trigger] front[j] == gf[k] && front[j].0.len() > d
                        && front[j].0[d] == c;
                lemma_sorted_all(es, j, es.len() - 1);
            }
            assert(entries_sorted(g));
            assert(entries_antichain(g)) by {
                assert(forall|i: int, j: int|
                    0 <= i < j < g.len() - 1 ==> !is_prefix_of(
                        #[trigger] g[i].0,
                        #[trigger] g[j].0,
                    ));
            }
            assert(entries_wf(g));
            assert(all_extend(l.push(c), g)) by {
                assert(is_prefix_of(l.push(c), e.0)) by {
                    assert(is_prefix_of(l, e.0));
                    assert(e.0.subrange(0, d + 1) =~= l.push(c));
                }
            }
        } else {
            assert(g == gf);
        }
    }
}

/// Anything that is a prefix of both sequences is a prefix of their
/// longest common prefix.
pub proof fn lemma_lcp2_longest(p: Seq<u8>, a: Seq<u8>, b: Seq<u8>)
    requires
        is_prefix_of(p, a),
        is_prefix_of(p, b),
    ensures
        is_prefix_of(p, lcp2(a, b)),
    decreases p.len(),
{
    if p.len() == 0 {
        assert(lcp2(a, b).subrange(0, 0) =~= p);
    } else {
        assert(a.len() > 0 && b.len() > 0 && a[0] == p[0] && b[0] == p[0]);
        let p1 = p.skip(1);
        assert(is_prefix_of(p1, a.skip(1))) by {
            assert(a.skip(1).subrange(0, p.len() - 1) =~= p1);
        }
        assert(is_prefix_of(p1, b.skip(1))) by {
            assert(b.skip(1).subrange(0, p.len() - 1) =~= p1);
        }
        lemma_lcp2_longest(p1, a.skip(1), b.skip(1));
        let l = lcp2(a, b);
        let l1 = lcp2(a.skip(1), b.skip(1));
        assert(l =~= seq![a[0]] + l1);
        assert(l.subrange(0, p.len() as int) =~= seq![p[0]] + l1.subrange(0, p.len() - 1));
        assert(p =~= seq![p[0]] + p1);
    }
}

/// The reference standing for an encoded node inside its parent: the raw
/// encoding when short, otherwise its wrapped digest.
pub open spec fn rlp_ref_of(enc: Seq<u8>) -> Seq<u8> {
    if enc.len() < 32 {
        enc
    } else {
        rlp_str(keccak_spec(enc))
    }
}

/// Encoding of a leaf node.
pub open spec fn leaf_enc(key: Seq<u8>, v: Seq<u8>) -> Seq<u8> {
    rlp_list(rlp_str(hp_encode(key, true)) + rlp_str(v))
}

/// Encoding of an extension node around an already-referenced child item.
pub open spec fn ext_enc(key: Seq<u8>, child_item: Seq<u8>) -> Seq<u8> {
    rlp_list(rlp_str(hp_encode(key, false)) + child_item)
}

/// The RLP item standing for the subtree holding `es` below `prefix`.
pub open spec fn sub_ref(prefix: Seq<u8>, es: Seq<EntryV>) -> Seq<u8>
    decreases measure(prefix, es), 2int, 0int,
        when es.len() > 0 && all_extend(prefix, es)
{
    if es.len() == 1 && es[0].1 is Hash && es[0].0.len() == prefix.len() {
        rlp_str(es[0].1->Hash_0)
    } else {
        rlp_ref_of(sub_enc(prefix, es))
    }
}

/// The encoding of the subtree's top node (defined whenever the subtree
/// is more than a bare hash reference at `prefix`).
pub open spec fn sub_enc(prefix: Seq<u8>, es: Seq<EntryV>) -> Seq<u8>
    decreases measure(prefix, es), 1int, 0int,
        when es.len() > 0 && all_extend(prefix, es)
    via sub_enc_decreases
{
    if es.len() == 1 {
        match es[0].1 {
            RefV::Leaf(v) => leaf_enc(es[0].0.skip(prefix.len() as int), v),
            RefV::Hash(h) => ext_enc(es[0].0.skip(prefix.len() as int), rlp_str(h)),
        }
    } else {
        let l = lcp2(es[0].0, es[es.len() - 1].0);
        let benc = rlp_list(slots(l, es, 0));
        if l.len() == prefix.len() {
            benc
        } else {
            ext_enc(l.skip(prefix.len() as int), rlp_ref_of(benc))
        }
    }
}

/// The concatenated branch payload from slot `c` on, ending with the
/// empty value slot.
pub open spec fn slots(l: Seq<u8>, es: Seq<EntryV>, c: int) -> Seq<u8>
    decreases measure(l, es), 0int, 16 - c,
        when es.len() > 0 && all_extend(l, es) && 0 <= c
    via slots_decreases
{
    if c >= 16 {
        seq![0x80u8]
    } else {
        let g = group_at(es, l.len() as int, c as u8);
        let item = if g.len() == 0 {
            seq![0x80u8]
        } else {
            sub_ref(l.push(c as u8), g)
        };
        item + slots(l, es, c + 1)
    }
}

#[via_fn]
proof fn sub_enc_decreases(prefix: Seq<u8>, es: Seq<EntryV>) {
    if es.len() > 1 && all_extend(prefix, es) {
        let l = lcp2(es[0].0, es[es.len() - 1].0);
        lemma_lcp2_longest(prefix, es[0].0, es[es.len() - 1].0);
        assert(l.len() >= prefix.len());
        assert(measure(l, es) <= measure(prefix, es));
    }
}

#[via_fn]
proof fn slots_decreases(l: Seq<u8>, es: Seq<EntryV>, c: int) {
    if es.len() > 0 && all_extend(l, es) && 0 <= c < 16 {
        let g = group_at(es, l.len() as int, c as u8);
        if g.len() > 0 {
            lemma_group_at_max_plen(es, l.len() as int, c as u8);
            lemma_max_plen_ge(es, 0);
            assert(is_prefix_of(l, es[0].0));
            assert(max_plen(es) >= l.len());
            assert(measure(l.push(c as u8), g) < measure(l, es));
        }
    }
}

/// The Merkle-Patricia root hash committed to by a path-ordered map of
/// leaf values and subtree hashes: the root of the real, canonically
/// compacted trie over exactly those entries.
pub open spec fn mpt_root(es: Seq<EntryV>) -> Seq<u8> {
    if es.len() == 0 {
        empty_root_spec()
    } else {
        keccak_spec(sub_enc(Seq::empty(), es))
    }
}

proof fn lemma_lcp2_unfold(a: Seq<u8>, b: Seq<u8>, i: int)
    requires
        0 <= i <= a.len(),
        i <= b.len(),
        forall|j: int| 0 <= j < i ==> a[j] == b[j],
    ensures
        lcp2(a, b) == a.take(i) + lcp2(a.skip(i), b.skip(i)),
    decreases i,
{
    if i == 0 {
        assert(a.skip(0) =~= a);
        assert(b.skip(0) =~= b);
        assert(a.take(0) + lcp2(a, b) =~= lcp2(a, b));
    } else {
        assert(a.len() > 0 && b.len() > 0 && a[0] == b[0]);
        let a1 = a.skip(1);
        let b1 = b.skip(1);
        assert(forall|j: int| 0 <= j < i - 1 ==> a1[j] == b1[j]) by {
            assert(forall|j: int| 0 <= j < a1.len() ==> a1[j] == a[j + 1]);
            assert(forall|j: int| 0 <= j < b1.len() ==> b1[j] == b[j + 1]);
        }
        lemma_lcp2_unfold(a1, b1, i - 1);
        assert(a1.skip(i - 1) =~= a.skip(i));
        assert(b1.skip(i - 1) =~= b.skip(i));
        assert(lcp2(a, b) =~= seq![a[0]] + (a1.take(i - 1) + lcp2(a.skip(i), b.skip(i))));
        assert(a.take(i) =~= seq![a[0]] + a1.take(i - 1));
        assert(seq![a[0]] + (a1.take(i - 1) + lcp2(a.skip(i), b.skip(i))) =~= a.take(i) + lcp2(
            a.skip(i),
            b.skip(i),
        ));
    }
}

/// Longest common prefix of two paths.
fn lcp_exec(a: &Nibbles, b: &Nibbles) -> (r: Nibbles)
    ensures
        r@ == lcp2(a@, b@),
{
    let mut i: usize = 0;
    while i < a.len() && i < b.len() && a.get(i) == b.get(i)
        invariant
            i <= a@.len(),
            i <= b@.len(),
            forall|j: int| 0 <= j < i ==> a@[j] == b@[j],
        decreases a@.len() - i,
    {
        i += 1;
    }
    proof {
        lemma_lcp2_unfold(a@, b@, i as int);
        assert(lcp2(a@.skip(i as int), b@.skip(i as int)) =~= Seq::<u8>::empty());
        assert(a@.take(i as int) + Seq::<u8>::empty() =~= a@.take(i as int));
    }
    a.slice_to(i)
}

/// Wraps an encoded node into the item standing for it in its parent.
fn rlp_ref_exec(enc: Vec<u8>) -> (r: Vec<u8>)
    ensures
        r@ == rlp_ref_of(enc@),
{
    if enc.len() < 32 {
        enc
    } else {
        let h = keccak256(&enc);
        rlp_str_exec(&h)
    }
}

/// Collects, in order, the entries whose path passes through nibble `c`
/// just below prefix `l`.
fn collect_group(es: &SortedNodes, l: &Nibbles, c: u8) -> (g: SortedNodes)
    requires
        es.wf(),
    ensures
        g@ == group_at(es@, l@.len() as int, c),
        g.wf(),
{
    let d = l.len();
    let mut out = SortedNodes::new();
    let ghost mut last_j: int = 0int;
    let mut i: usize = 0;
    proof {
        assert(es@.take(0) =~= Seq::<EntryV>::empty());
    }
    while i < es.len()
        invariant
            i <= es@.len(),
            es.wf(),
            d == l@.len(),
            out@ == group_at(es@.take(i as int), d as int, c),
            out.wf(),
            out@.len() > 0 ==> 0 <= last_j < i && es@[last_j] == out@.last(),
        decreases es@.len() - i,
    {
        let ghost pre = out@;
        let p = es.path_at(i);
        if p.len() > d && p.get(d) == c {
            proof {
                if out@.len() > 0 {
                    lemma_sorted_all(es@, last_j, i as int);
                }
                assert(entry_wf(es@[i as int]));
            }
            let key = p.duplicate();
            let val = es.ref_at(i).duplicate();
            out.push_back(key, val);
            proof {
                last_j = i as int;
                assert((key@, val@) == es@[i as int]) by {
                    assert(key@ == es@[i as int].0 && val@ == es@[i as int].1);
                }
            }
        }
        proof {
            assert(es@.take(i + 1).drop_last() =~= es@.take(i as int));
            assert(es@.take(i + 1).last() == es@[i as int]);
            assert(out@ == group_at(es@.take(i + 1), d as int, c));
        }
        i += 1;
    }
    proof {
        assert(es@.take(es@.len() as int) =~= es@);
    }
    out
}

/// The item bytes standing for the subtree of `es` below `prefix`.
fn build_ref(prefix: &Nibbles, es: &SortedNodes) -> (r: Vec<u8>)
    requires
        es.wf(),
        entries_antichain(es@),
        es@.len() > 0,
        all_extend(prefix@, es@),
        prefix.wf(),
    ensures
        r@ == sub_ref(prefix@, es@),
    decreases measure(prefix@, es@), 2int, 0int,
{
    if es.len() == 1 {
        let p0 = es.path_at(0);
        match es.ref_at(0) {
            NodeRef::Hash(h) => {
                if p0.len() == prefix.len() {
                    return rlp_str_exec(h);
                }
            },
            NodeRef::Leaf(_) => {},
        }
    }
    let enc = build_enc(prefix, es);
    rlp_ref_exec(enc)
}

/// The encoding of the top node of the subtree of `es` below `prefix`.
#[verifier::rlimit(60)]
fn build_enc(prefix: &Nibbles, es: &SortedNodes) -> (r: Vec<u8>)
    requires
        es.wf(),
        entries_antichain(es@),
        es@.len() > 0,
        all_extend(prefix@, es@),
        prefix.wf(),
        !(es@.len() == 1 && es@[0].1 is Hash && es@[0].0.len() == prefix@.len()),
    ensures
        r@ == sub_enc(prefix@, es@),
    decreases measure(prefix@, es@), 1int, 0int,
{
    let d = prefix.len();
    if es.len() == 1 {
        let p0 = es.path_at(0);
        proof {
            assert(is_prefix_of(prefix@, es@[0].0));
            assert(entry_wf(es@[0]));
        }
        let suffix = p0.skip_first(d);
        proof {
            assert(valid_nibbles(suffix@)) by {
                assert(forall|j: int| 0 <= j < suffix@.len() ==> suffix@[j] == es@[0].0[j + d]);
            }
        }
        match es.ref_at(0) {
            NodeRef::Leaf(v) => {
                let hp = hp_encode_exec(&suffix, true);
                let mut payload = rlp_str_exec(&hp);
                let venc = rlp_str_exec(v);
                push_all(&mut payload, &venc);
                let out = rlp_list_exec(&payload);
                proof {
                    assert(es@[0].1 == RefV::Leaf(v@));
                    assert(out@ == leaf_enc(es@[0].0.skip(d as int), v@));
                }
                out
            },
            NodeRef::Hash(h) => {
                let hp = hp_encode_exec(&suffix, false);
                let mut payload = rlp_str_exec(&hp);
                let henc = rlp_str_exec(h);
                push_all(&mut payload, &henc);
                let out = rlp_list_exec(&payload);
                proof {
                    assert(es@[0].1 == RefV::Hash(h@));
                    assert(out@ == ext_enc(es@[0].0.skip(d as int), rlp_str(h@)));
                }
                out
            },
        }
    } else {
        let last_i = es.len() - 1;
        let l = lcp_exec(es.path_at(0), es.path_at(last_i));
        proof {
            lemma_lcp2_prefix(es@[0].0, es@[last_i as int].0);
            lemma_lcp2_longest(prefix@, es@[0].0, es@[last_i as int].0);
            assert forall|k: int| 0 <= k < es@.len() implies is_prefix_of(
                l@,
                #[trigger] es@[k].0,
            ) by {
                if 0 < k {
                    lemma_sorted_all(es@, 0, k);
                }
                if k < es@.len() - 1 {
                    lemma_sorted_all(es@, k, es@.len() - 1);
                }
                lemma_between_prefix(l@, es@[0].0, es@[k].0, es@[last_i as int].0);
            }
            assert forall|k: int| 0 <= k < es@.len() implies #[trigger] es@[k].0.len()
                > l@.len() by {
                if es@[k].0.len() == l@.len() {
                    assert(es@[k].0 =~= l@) by {
                        assert(es@[k].0.subrange(0, l@.len() as int) =~= es@[k].0);
                    }
                    if k < es@.len() - 1 {
                        assert(is_prefix_of(es@[k].0, es@[last_i as int].0));
                        assert(false);
                    } else {
                        lemma_prefix_lex_le(es@[k].0, es@[0].0);
                        lemma_sorted_all(es@, 0, k);
                        if es@[k].0 == es@[0].0 {
                            lemma_lex_lt_irrefl(es@[0].0);
                        } else {
                            lemma_lex_lt_trans(es@[0].0, es@[k].0, es@[0].0);
                            lemma_lex_lt_irrefl(es@[0].0);
                        }
                        assert(false);
                    }
                }
            }
            assert(valid_nibbles(l@)) by {
                assert(entry_wf(es@[0]));
                assert(forall|j: int| 0 <= j < l@.len() ==> l@[j] == es@[0].0[j]);
            }
        }
        let dl = l.len();
        let mut payload: Vec<u8> = Vec::new();
        let mut c: u8 = 0;
        proof {
            assert(slots(l@, es@, 0) == payload@ + slots(l@, es@, 0)) by {
                assert(payload@ + slots(l@, es@, 0) =~= slots(l@, es@, 0));
            }
        }
        while c < 16
            invariant
                c <= 16,
                es.wf(),
                entries_antichain(es@),
                es@.len() > 1,
                l.wf(),
                dl == l@.len(),
                d == prefix@.len(),
                prefix@.len() <= l@.len(),
                all_extend(l@, es@),
                forall|k: int| 0 <= k < es@.len() ==> #[trigger] es@[k].0.len() > l@.len(),
                slots(l@, es@, 0) == payload@ + slots(l@, es@, c as int),
            decreases 16 - c,
        {
            let g = collect_group(es, &l, c);
            proof {
                lemma_group_at_props(es@, dl as int, c, l@);
                lemma_group_at_max_plen(es@, dl as int, c);
                lemma_max_plen_ge(es@, 0);
            }
            if g.len() == 0 {
                payload.push(0x80);
            } else {
                let mut lc = l.duplicate();
                lc.push(c);
                proof {
                    assert(lc@ == l@.push(c));
                    assert(measure(lc@, g@) < measure(prefix@, es@)) by {
                        assert(max_plen(g@) <= max_plen(es@));
                        assert(max_plen(es@) >= l@.len()) by {
                            assert(es@[0].0.len() <= max_plen(es@));
                        }
                        assert(l@.len() >= prefix@.len());
                    }
                }
                let item = build_ref(&lc, &g);
                push_all(&mut payload, &item);
            }
            proof {
                assert(slots(l@, es@, c as int) == (if group_at(es@, l@.len() as int, c).len()
                    == 0 {
                    seq![0x80u8]
                } else {
                    sub_ref(l@.push(c), group_at(es@, l@.len() as int, c))
                }) + slots(l@, es@, c + 1));
            }
            c += 1;
        }
        payload.push(0x80);
        proof {
            assert(slots(l@, es@, 16) =~= seq![0x80u8]);
            assert(payload@ =~= slots(l@, es@, 0));
        }
        let benc = rlp_list_exec(&payload);
        if dl == d {
            proof {
                assert(benc@ == sub_enc(prefix@, es@));
            }
            benc
        } else {
            let suffix = l.skip_first(d);
            proof {
                assert(is_prefix_of(prefix@, es@[0].0));
                assert(is_prefix_of(prefix@, l@)) by {
                    assert(l@.len() >= prefix@.len());
                }
                assert(valid_nibbles(suffix@)) by {
                    assert(forall|j: int| 0 <= j < suffix@.len() ==> suffix@[j] == l@[j + d]);
                }
            }
            let hp = hp_encode_exec(&suffix, false);
            let mut pl2 = rlp_str_exec(&hp);
            let bref = rlp_ref_exec(benc);
            push_all(&mut pl2, &bref);
            let out = rlp_list_exec(&pl2);
            proof {
                assert(out@ == ext_enc(l@.skip(d as int), rlp_ref_of(rlp_list(slots(l@, es@, 0)))));
            }
            out
        }
    }
}

/// Computes the root hash committed to by the given path-ordered map:
/// exactly [`mpt_root`] of its entries. The result equals the root of the
/// full canonical trie restricted to those entries; compaction never
/// changes it.
pub fn compute_root(es: &SortedNodes) -> (r: Vec<u8>)
    requires
        es.wf(),
        entries_antichain(es@),
    ensures
        r@ == mpt_root(es@),
        r@.len() == 32,
{
    if es.len() == 0 {
        empty_root()
    } else {
        let empty_prefix = Nibbles::new();
        proof {
            assert(all_extend(empty_prefix@, es@)) by {
                assert forall|i: int| 0 <= i < es@.len() implies is_prefix_of(
                    empty_prefix@,
                    #[trigger] es@[i].0,
                ) by {
                    assert(es@[i].0.subrange(0, 0) =~= empty_prefix@);
                }
            }
            if es@.len() == 1 && es@[0].1 is Hash {
                assert(entry_wf(es@[0]));
                assert(es@[0].0.len() >= 1);
            }
        }
        let enc = build_enc(&empty_prefix, es);
        keccak256(&enc)
    }
}

} // verus!
