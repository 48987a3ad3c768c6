//! Canonical trie node codec: the three node shapes and their byte
//! encoding, whose Keccak-256 digest is the node's identity.

use vstd::prelude::*;
use crate::bytes::{copy_bytes, push_all, sub_bytes, vec_eq};
use crate::errors::WitnessError;
use crate::nibbles::{valid_nibbles, Nibbles};

verus! {

/// 256^k.
pub open spec fn pow256(k: nat) -> nat
    decreases k,
{
    if k == 0 {
        1
    } else {
        256 * pow256((k - 1) as nat)
    }
}

/// Minimal big-endian byte representation of `n` (empty for zero).
pub open spec fn be_bytes(n: nat) -> Seq<u8>
    decreases n,
{
    if n == 0 {
        Seq::empty()
    } else {
        be_bytes(n / 256) + seq![(n % 256) as u8]
    }
}

pub proof fn lemma_be_bytes_len(n: nat, k: nat)
    requires
        n < pow256(k),
    ensures
        be_bytes(n).len() <= k,
    decreases k,
{
    if n == 0 {
    } else {
        assert(k > 0);
        assert(n / 256 < pow256((k - 1) as nat)) by {
            assert(pow256(k) == 256 * pow256((k - 1) as nat));
        }
        lemma_be_bytes_len(n / 256, (k - 1) as nat);
    }
}

/// Any 64-bit value fits in eight big-endian bytes.
pub proof fn lemma_be_bytes_len8(n: u64)
    ensures
        be_bytes(n as nat).len() <= 8,
{
    assert(pow256(0) == 1);
    assert(pow256(1) == 256);
    assert(pow256(2) == 0x1_0000);
    assert(pow256(3) == 0x100_0000);
    assert(pow256(4) == 0x1_0000_0000);
    assert(pow256(5) == 0x100_0000_0000);
    assert(pow256(6) == 0x1_0000_0000_0000);
    assert(pow256(7) == 0x100_0000_0000_0000);
    assert(pow256(8) == 0x1_0000_0000_0000_0000);
    lemma_be_bytes_len(n as nat, 8);
}

/// The canonical encoding of a byte string.
pub open spec fn rlp_str(p: Seq<u8>) -> Seq<u8> {
    if p.len() == 1 && p[0] < 0x80 {
        p
    } else if p.len() < 56 {
        seq![(0x80 + p.len()) as u8] + p
    } else {
        seq![(0xb7 + be_bytes(p.len() as nat).len()) as u8] + be_bytes(p.len() as nat) + p
    }
}

/// The canonical encoding of a list with the given concatenated payload.
pub open spec fn rlp_list(p: Seq<u8>) -> Seq<u8> {
    if p.len() < 56 {
        seq![(0xc0 + p.len()) as u8] + p
    } else {
        seq![(0xf7 + be_bytes(p.len() as nat).len()) as u8] + be_bytes(p.len() as nat) + p
    }
}

/// Packs consecutive nibble pairs into bytes, dropping an odd trailing
/// nibble.
pub open spec fn pack_pairs(nibs: Seq<u8>) -> Seq<u8>
    decreases nibs.len(),
{
    if nibs.len() < 2 {
        Seq::empty()
    } else {
        seq![(nibs[0] * 16 + nibs[1]) as u8] + pack_pairs(nibs.skip(2))
    }
}

/// The hex-prefix encoding of a node key: a flag byte carrying the node
/// kind and the parity, then the packed nibbles.
pub open spec fn hp_encode(nibs: Seq<u8>, is_leaf: bool) -> Seq<u8> {
    let flag: u8 = if is_leaf {
        2
    } else {
        0
    };
    if nibs.len() % 2 == 0 {
        seq![(flag * 16) as u8] + pack_pairs(nibs)
    } else {
        seq![(flag * 16 + 16 + nibs[0]) as u8] + pack_pairs(nibs.skip(1))
    }
}

/// The three Merkle-Patricia node shapes. Child references are 32-byte
/// node hashes; a branch holds one optional reference per nibble value.
pub enum TrieNode {
    /// Terminal key/value pair: the remaining key suffix and the literal
    /// value bytes.
    Leaf { key: Nibbles, value: Vec<u8> },
    /// Single-child path compression: a non-empty key suffix and the
    /// child's hash.
    Extension { key: Nibbles, child: Vec<u8> },
    /// Multi-way fork: one optional child hash per nibble.
    Branch { children: Vec<Option<Vec<u8>>> },
}

/// Structural validity of a node.
pub open spec fn node_wf(n: TrieNode) -> bool {
    match n {
        TrieNode::Leaf { key, value } => valid_nibbles(key@),
        TrieNode::Extension { key, child } => valid_nibbles(key@) && key@.len() >= 1 && child@.len()
            == 32,
        TrieNode::Branch { children } => children@.len() == 16 && forall|i: int|
            0 <= i < 16 ==> match #[trigger] children@[i] {
                Some(h) => h@.len() == 32,
                None => true,
            },
    }
}

/// The encoding of one branch slot: a child hash or the empty marker.
pub open spec fn child_ref_enc(c: Option<Vec<u8>>) -> Seq<u8> {
    match c {
        Some(h) => rlp_str(h@),
        None => seq![0x80u8],
    }
}

/// The concatenated branch payload from slot `i` on, ending with the
/// empty value slot.
pub open spec fn branch_payload(children: Seq<Option<Vec<u8>>>, i: int) -> Seq<u8>
    decreases children.len() - i,
{
    if i < 0 || i >= children.len() {
        seq![0x80u8]
    } else {
        child_ref_enc(children[i]) + branch_payload(children, i + 1)
    }
}

/// The canonical byte encoding of a node; its digest is the node's
/// identity.
pub open spec fn encode_node(n: TrieNode) -> Seq<u8> {
    match n {
        TrieNode::Leaf { key, value } => rlp_list(rlp_str(hp_encode(key@, true)) + rlp_str(value@)),
        TrieNode::Extension { key, child } => rlp_list(
            rlp_str(hp_encode(key@, false)) + rlp_str(child@),
        ),
        TrieNode::Branch { children } => rlp_list(branch_payload(children@, 0)),
    }
}

/// Minimal big-endian bytes of a machine integer.
pub fn be_bytes_exec(n: u64) -> (r: Vec<u8>)
    ensures
        r@ == be_bytes(n as nat),
        r@.len() <= 8,
    decreases n,
{
    proof {
        lemma_be_bytes_len8(n);
    }
    if n == 0 {
        Vec::new()
    } else {
        let mut r = be_bytes_exec(n / 256);
        r.push((n % 256) as u8);
        proof {
            assert(r@ =~= be_bytes(n as nat / 256) + seq![(n as nat % 256) as u8]);
        }
        r
    }
}

/// Canonical string encoding.
pub fn rlp_str_exec(p: &Vec<u8>) -> (r: Vec<u8>)
    ensures
        r@ == rlp_str(p@),
{
    if p.len() == 1 && p[0] < 0x80 {
        copy_bytes(p)
    } else if p.len() < 56 {
        let mut out: Vec<u8> = Vec::new();
        out.push(0x80 + p.len() as u8);
        push_all(&mut out, p);
        proof {
            assert(out@ =~= seq![(0x80 + p@.len()) as u8] + p@);
        }
        out
    } else {
        let be = be_bytes_exec(p.len() as u64);
        let mut out: Vec<u8> = Vec::new();
        out.push(0xb7 + be.len() as u8);
        push_all(&mut out, &be);
        push_all(&mut out, p);
        proof {
            assert(out@ =~= seq![(0xb7 + be_bytes(p@.len() as nat).len()) as u8] + be_bytes(
                p@.len() as nat,
            ) + p@);
        }
        out
    }
}

/// Canonical list encoding around an already concatenated payload.
pub fn rlp_list_exec(p: &Vec<u8>) -> (r: Vec<u8>)
    ensures
        r@ == rlp_list(p@),
{
    if p.len() < 56 {
        let mut out: Vec<u8> = Vec::new();
        out.push(0xc0 + p.len() as u8);
        push_all(&mut out, p);
        proof {
            assert(out@ =~= seq![(0xc0 + p@.len()) as u8] + p@);
        }
        out
    } else {
        let be = be_bytes_exec(p.len() as u64);
        let mut out: Vec<u8> = Vec::new();
        out.push(0xf7 + be.len() as u8);
        push_all(&mut out, &be);
        push_all(&mut out, p);
        proof {
            assert(out@ =~= seq![(0xf7 + be_bytes(p@.len() as nat).len()) as u8] + be_bytes(
                p@.len() as nat,
            ) + p@);
        }
        out
    }
}

proof fn lemma_pack_pairs_append(prefix: Seq<u8>, rest: Seq<u8>)
    requires
        prefix.len() % 2 == 0,
        valid_nibbles(prefix),
    ensures
        pack_pairs(prefix + rest) == pack_pairs(prefix) + pack_pairs(rest),
    decreases prefix.len(),
{
    if prefix.len() == 0 {
        assert(prefix + rest =~= rest);
        assert(pack_pairs(prefix) + pack_pairs(rest) =~= pack_pairs(rest));
    } else {
        let whole = prefix + rest;
        assert(whole[0] == prefix[0] && whole[1] == prefix[1]);
        assert(whole.skip(2) =~= prefix.skip(2) + rest);
        assert(valid_nibbles(prefix.skip(2)));
        lemma_pack_pairs_append(prefix.skip(2), rest);
        assert(pack_pairs(whole) =~= seq![(prefix[0] * 16 + prefix[1]) as u8] + (pack_pairs(
            prefix.skip(2),
        ) + pack_pairs(rest)));
        assert(pack_pairs(prefix) =~= seq![(prefix[0] * 16 + prefix[1]) as u8] + pack_pairs(
            prefix.skip(2),
        ));
        assert(pack_pairs(prefix) + pack_pairs(rest) =~= seq![(prefix[0] * 16 + prefix[1]) as u8]
            + (pack_pairs(prefix.skip(2)) + pack_pairs(rest)));
    }
}

proof fn lemma_pack_pairs_snoc(s: Seq<u8>, i: int)
    requires
        0 <= i,
        i + 2 <= s.len(),
        i % 2 == 0,
        valid_nibbles(s),
    ensures
        pack_pairs(s.subrange(0, i + 2)) == pack_pairs(s.subrange(0, i)).push(
            (s[i] * 16 + s[i + 1]) as u8,
        ),
{
    let p = s.subrange(0, i);
    let r = s.subrange(i, i + 2);
    assert(valid_nibbles(p));
    assert(p + r =~= s.subrange(0, i + 2));
    lemma_pack_pairs_append(p, r);
    assert(r.skip(2) =~= Seq::<u8>::empty());
    assert(pack_pairs(r) =~= seq![(r[0] * 16 + r[1]) as u8] + pack_pairs(r.skip(2)));
    assert(pack_pairs(p) + pack_pairs(r) =~= pack_pairs(p).push((s[i] * 16 + s[i + 1]) as u8));
}

/// Packs the nibble pairs of `tail` (whose length is even) into bytes.
fn pack_pairs_exec(tail: &Nibbles) -> (r: Vec<u8>)
    requires
        tail.wf(),
        tail@.len() % 2 == 0,
    ensures
        r@ == pack_pairs(tail@),
{
    let mut out: Vec<u8> = Vec::new();
    let mut i: usize = 0;
    while i + 1 < tail.len()
        invariant
            tail.wf(),
            tail@.len() % 2 == 0,
            i % 2 == 0,
            i <= tail@.len(),
            out@ == pack_pairs(tail@.subrange(0, i as int)),
        decreases tail@.len() - i,
    {
        let hi = tail.get(i);
        let lo = tail.get(i + 1);
        let proof_i = i;
        out.push(hi * 16 + lo);
        proof {
            lemma_pack_pairs_snoc(tail@, proof_i as int);
        }
        i += 2;
    }
    proof {
        assert(tail@.subrange(0, i as int) =~= tail@);
    }
    out
}

/// Hex-prefix encoding of a node key.
pub fn hp_encode_exec(key: &Nibbles, is_leaf: bool) -> (r: Vec<u8>)
    requires
        key.wf(),
    ensures
        r@ == hp_encode(key@, is_leaf),
{
    let flag: u8 = if is_leaf {
        2
    } else {
        0
    };
    let mut out: Vec<u8> = Vec::new();
    if key.len() % 2 == 0 {
        out.push(flag * 16);
        let packed = pack_pairs_exec(key);
        push_all(&mut out, &packed);
        proof {
            assert(out@ =~= seq![(flag * 16) as u8] + pack_pairs(key@));
        }
    } else {
        out.push(flag * 16 + 16 + key.get(0));
        let tail = key.skip_first(1);
        proof {
            assert(valid_nibbles(tail@));
        }
        let packed = pack_pairs_exec(&tail);
        push_all(&mut out, &packed);
        proof {
            assert(out@ =~= seq![(flag * 16 + 16 + key@[0]) as u8] + pack_pairs(key@.skip(1)));
        }
    }
    out
}

/// Canonical encoding of a node.
pub fn encode_node_exec(n: &TrieNode) -> (r: Vec<u8>)
    requires
        node_wf(*n),
    ensures
        r@ == encode_node(*n),
{
    match n {
        TrieNode::Leaf { key, value } => {
            let hp = hp_encode_exec(key, true);
            let mut payload = rlp_str_exec(&hp);
            let v_enc = rlp_str_exec(value);
            push_all(&mut payload, &v_enc);
            rlp_list_exec(&payload)
        },
        TrieNode::Extension { key, child } => {
            let hp = hp_encode_exec(key, false);
            let mut payload = rlp_str_exec(&hp);
            let c_enc = rlp_str_exec(child);
            push_all(&mut payload, &c_enc);
            rlp_list_exec(&payload)
        },
        TrieNode::Branch { children } => {
            let mut payload: Vec<u8> = Vec::new();
            let mut c: usize = 0;
            while c < 16
                invariant
                    node_wf(TrieNode::Branch { children: *children }),
                    c <= 16,
                    children@.len() == 16,
                    branch_payload(children@, 0) == payload@ + branch_payload(children@, c as int),
                decreases 16 - c,
            {
                match &children[c] {
                    Some(h) => {
                        let h_enc = rlp_str_exec(h);
                        push_all(&mut payload, &h_enc);
                    },
                    None => {
                        payload.push(0x80);
                    },
                }
                proof {
                    assert(branch_payload(children@, c as int) =~= child_ref_enc(
                        children@[c as int],
                    ) + branch_payload(children@, c + 1));
                }
                c += 1;
            }
            payload.push(0x80);
            proof {
                assert(branch_payload(children@, 16) =~= seq![0x80u8]);
                assert(payload@ =~= branch_payload(children@, 0));
            }
            rlp_list_exec(&payload)
        },
    }
}

/// `chunk` sits at position `pos` inside `b`.
pub open spec fn bytes_at(b: Seq<u8>, pos: int, chunk: Seq<u8>) -> bool {
    0 <= pos && pos + chunk.len() <= b.len() && b.subrange(pos, pos + chunk.len()) == chunk
}

/// The big-endian value of a byte string.
pub open spec fn be_val(s: Seq<u8>) -> nat
    decreases s.len(),
{
    if s.len() == 0 {
        0
    } else {
        (be_val(s.drop_last()) * 256 + s.last()) as nat
    }
}

proof fn lemma_be_val_roundtrip(n: nat)
    ensures
        be_val(be_bytes(n)) == n,
    decreases n,
{
    if n == 0 {
    } else {
        lemma_be_val_roundtrip(n / 256);
        assert(be_bytes(n).drop_last() =~= be_bytes(n / 256));
        assert(be_bytes(n).last() == (n % 256) as u8);
    }
}

proof fn lemma_pow256_pos(k: nat)
    ensures
        pow256(k) >= 1,
        k >= 1 ==> pow256(k) >= 256,
    decreases k,
{
    if k > 0 {
        lemma_pow256_pos((k - 1) as nat);
    }
}

/// A big-endian prefix scaled by the remaining digits stays below the
/// whole value.
proof fn lemma_be_val_prefix_bound(s: Seq<u8>, i: int)
    requires
        0 <= i <= s.len(),
    ensures
        be_val(s.take(i)) * pow256((s.len() - i) as nat) <= be_val(s),
    decreases s.len() - i,
{
    if i == s.len() {
        assert(s.take(i) =~= s);
        assert(pow256((s.len() - i) as nat) == 1);
        assert(be_val(s.take(i)) == be_val(s));
        assert(be_val(s) * 1 == be_val(s)) by (nonlinear_arith);
        assert(be_val(s.take(i)) * pow256((s.len() - i) as nat) == be_val(s));
    } else {
        assert(s.drop_last().take(i) =~= s.take(i));
        lemma_be_val_prefix_bound(s.drop_last(), i);
        let k = (s.len() - 1 - i) as nat;
        assert(pow256(k + 1) == 256 * pow256(k));
        assert(be_val(s.take(i)) * pow256(k + 1) <= be_val(s.drop_last()) * 256) by (nonlinear_arith)
            requires
                be_val(s.take(i)) * pow256(k) <= be_val(s.drop_last()),
                pow256(k + 1) == 256 * pow256(k),
        ;
        assert(be_val(s) == be_val(s.drop_last()) * 256 + s.last());
        assert(be_val(s) >= be_val(s.drop_last()) * 256);
        assert((s.len() - i) as nat == k + 1);
        assert(be_val(s.take(i)) * pow256((s.len() - i) as nat) <= be_val(s));
    }
}

/// Bytes sitting at a position index through to the buffer.
proof fn lemma_bytes_at_index(b: Seq<u8>, pos: int, chunk: Seq<u8>)
    requires
        bytes_at(b, pos, chunk),
    ensures
        forall|m: int| 0 <= m < chunk.len() ==> b[pos + m] == chunk[m],
{
    assert forall|m: int| 0 <= m < chunk.len() implies b[pos + m] == chunk[m] by {
        assert(b.subrange(pos, pos + chunk.len())[m] == chunk[m]);
    }
}

/// Any length a byte buffer can have fits in eight big-endian bytes.
proof fn lemma_be_bytes_len_usize(n: nat)
    requires
        n <= usize::MAX,
    ensures
        be_bytes(n).len() <= 8,
{
    assert(pow256(0) == 1);
    assert(pow256(1) == 256);
    assert(pow256(2) == 0x1_0000);
    assert(pow256(3) == 0x100_0000);
    assert(pow256(4) == 0x1_0000_0000);
    assert(pow256(5) == 0x100_0000_0000);
    assert(pow256(6) == 0x1_0000_0000_0000);
    assert(pow256(7) == 0x100_0000_0000_0000);
    assert(pow256(8) == 0x1_0000_0000_0000_0000);
    assert(usize::MAX as nat <= u64::MAX as nat);
    lemma_be_bytes_len(n, 8);
}

/// Reads `ll` big-endian length bytes starting at `pos`. When those
/// bytes are the canonical encoding of a representable length, that
/// length is returned.
fn parse_long_len(b: &Vec<u8>, pos: usize, ll: usize) -> (r: Option<usize>)
    ensures
        r is Some ==> pos + ll <= b@.len(),
        forall|n: nat|
            n <= usize::MAX && pos + ll <= b@.len() && b@.subrange(
                pos as int,
                pos as int + ll as int,
            ) == be_bytes(n) ==> (match r {
                Some(v) => v == n,
                None => false,
            }),
{
    let blen = b.len();
    if ll > blen || pos > blen - ll {
        return None;
    }
    let ghost whole = b@.subrange(pos as int, pos as int + ll as int);
    let mut l: usize = 0;
    let mut i: usize = 0;
    proof {
        assert(whole.take(0) =~= b@.subrange(pos as int, pos as int));
        assert(be_val(b@.subrange(pos as int, pos as int)) == 0);
    }
    while i < ll
        invariant
            i <= ll,
            pos + ll <= b@.len(),
            b@.len() <= usize::MAX,
            whole == b@.subrange(pos as int, pos as int + ll as int),
            l == be_val(whole.take(i as int)),
        decreases ll - i,
    {
        let d = b[pos + i];
        proof {
            assert(whole.take(i + 1).drop_last() =~= whole.take(i as int));
            assert(whole.take(i + 1).last() == d);
        }
        if l > usize::MAX / 256 {
            proof {
                assert forall|n: nat|
                    n <= usize::MAX && whole == be_bytes(n) implies false by {
                    lemma_be_val_prefix_bound(whole, i as int);
                    lemma_be_val_roundtrip(n);
                    lemma_pow256_pos((ll - i) as nat);
                    assert(l * 256 <= l * pow256((ll - i) as nat)) by (nonlinear_arith)
                        requires
                            pow256((ll - i) as nat) >= 256,
                            l >= 0,
                    ;
                    assert(l * 256 <= usize::MAX);
                }
            }
            return None;
        }
        if l * 256 > usize::MAX - d as usize {
            proof {
                assert forall|n: nat|
                    n <= usize::MAX && whole == be_bytes(n) implies false by {
                    lemma_be_val_prefix_bound(whole, i + 1);
                    lemma_be_val_roundtrip(n);
                    lemma_pow256_pos((ll - i - 1) as nat);
                    assert(be_val(whole.take(i + 1)) * 1 <= be_val(whole.take(i + 1)) * pow256(
                        (ll - i - 1) as nat,
                    )) by (nonlinear_arith)
                        requires
                            pow256((ll - i - 1) as nat) >= 1,
                            be_val(whole.take(i + 1)) >= 0,
                    ;
                    assert(be_val(whole.take(i + 1)) == l * 256 + d);
                }
            }
            return None;
        }
        l = l * 256 + d as usize;
        i += 1;
    }
    proof {
        assert(whole.take(ll as int) =~= whole);
        assert forall|n: nat|
            n <= usize::MAX && whole == be_bytes(n) implies l == n by {
            lemma_be_val_roundtrip(n);
        }
    }
    Some(l)
}

/// Reads one string item at `pos`: its payload bytes and the position
/// just past the item. Wherever a canonical string encoding sits at
/// `pos`, exactly its payload is returned; everything the parser accepts
/// is re-encoded and compared by the caller.
#[verifier::rlimit(100)]
fn read_str_item(b: &Vec<u8>, pos: usize) -> (r: Option<(Vec<u8>, usize)>)
    ensures
        match r {
            Some(pn) => pos < pn.1 && pn.1 <= b@.len(),
            None => true,
        },
        forall|p: Seq<u8>|
            bytes_at(b@, pos as int, rlp_str(p)) ==> (match r {
                Some(pn) => pn.0@ == p && pn.1 == pos + rlp_str(p).len(),
                None => false,
            }),
{
    let blen = b.len();
    if pos >= blen {
        return None;
    }
    let h = b[pos];
    if h < 0x80 {
        let mut payload: Vec<u8> = Vec::new();
        payload.push(h);
        proof {
            assert forall|p: Seq<u8>| bytes_at(b@, pos as int, rlp_str(p)) implies payload@ == p
                && pos + 1 == pos + rlp_str(p).len() by {
            lemma_str_head(b@, pos as int, p);
                assert(p =~= seq![h]);
            }
        }
        return Some((payload, pos + 1));
    }
    if h < 0xb8 {
        let l = (h - 0x80) as usize;
        if l > blen - (pos + 1) {
            proof {
                assert forall|p: Seq<u8>| bytes_at(b@, pos as int, rlp_str(p)) implies false by {
                    lemma_str_head(b@, pos as int, p);
                }
            }
            return None;
        }
        let payload = sub_bytes(b, pos + 1, pos + 1 + l);
        proof {
            assert forall|p: Seq<u8>| bytes_at(b@, pos as int, rlp_str(p)) implies payload@ == p
                && pos + 1 + l == pos + rlp_str(p).len() by {
                lemma_str_head(b@, pos as int, p);
                assert(payload@ =~= p);
            }
        }
        return Some((payload, pos + 1 + l));
    }
    if h < 0xc0 {
        let ll = (h - 0xb7) as usize;
        let l = match parse_long_len(b, pos + 1, ll) {
            Some(v) => v,
            None => {
                proof {
                    assert forall|p: Seq<u8>| bytes_at(b@, pos as int, rlp_str(p)) implies false by {
                        lemma_str_head(b@, pos as int, p);
                    }
                }
                return None;
            },
        };
        if l > blen - (pos + 1 + ll) {
            proof {
                assert forall|p: Seq<u8>| bytes_at(b@, pos as int, rlp_str(p)) implies false by {
                    lemma_str_head(b@, pos as int, p);
                }
            }
            return None;
        }
        let payload = sub_bytes(b, pos + 1 + ll, pos + 1 + ll + l);
        proof {
            assert forall|p: Seq<u8>| bytes_at(b@, pos as int, rlp_str(p)) implies payload@ == p
                && pos + 1 + ll + l == pos + rlp_str(p).len() by {
                lemma_str_head(b@, pos as int, p);
                assert(payload@ =~= p);
            }
        }
        return Some((payload, pos + 1 + ll + l));
    }
    proof {
        assert forall|p: Seq<u8>| bytes_at(b@, pos as int, rlp_str(p)) implies false by {
            lemma_str_head(b@, pos as int, p);
        }
    }
    None
}

/// Relates the head byte of a canonical string item to its shape: which
/// of the three encoding cases applies is read off the first byte.
proof fn lemma_str_head(b: Seq<u8>, pos: int, p: Seq<u8>)
    requires
        bytes_at(b, pos, rlp_str(p)),
        b.len() <= usize::MAX,
    ensures
        p.len() == 1 && p[0] < 0x80 ==> b[pos] == p[0] && rlp_str(p).len() == 1 && b.subrange(
            pos,
            pos + 1,
        ) == p,
        !(p.len() == 1 && p[0] < 0x80) && p.len() < 56 ==> b[pos] == 0x80 + p.len()
            && rlp_str(p).len() == 1 + p.len() && b.subrange(pos + 1, pos + 1 + p.len() as int)
            == p,
        !(p.len() == 1 && p[0] < 0x80) && p.len() >= 56 ==> {
            let bl = be_bytes(p.len() as nat).len();
            &&& 1 <= bl <= 8
            &&& b[pos] == 0xb7 + bl
            &&& rlp_str(p).len() == 1 + bl + p.len()
            &&& b.subrange(pos + 1, pos + 1 + bl as int) == be_bytes(p.len() as nat)
            &&& b.subrange(pos + 1 + bl as int, pos + 1 + bl + p.len() as int) == p
        },
{
    let e = rlp_str(p);
    lemma_bytes_at_index(b, pos, e);
    if p.len() == 1 && p[0] < 0x80 {
        assert(b[pos] == e[0]);
        assert(b.subrange(pos, pos + 1) =~= p);
    } else if p.len() < 56 {
        assert(b[pos] == e[0]);
        assert(forall|m: int| 0 <= m < p.len() ==> e[1 + m] == p[m]);
        assert(b.subrange(pos + 1, pos + 1 + p.len() as int) =~= p);
    } else {
        lemma_be_bytes_len_usize(p.len() as nat);
        let be = be_bytes(p.len() as nat);
        let bl = be.len();
        assert(bl >= 1) by {
            assert(p.len() as nat != 0);
        }
        assert(b[pos] == e[0]);
        assert(forall|m: int| 0 <= m < bl ==> e[1 + m] == be[m]);
        assert(forall|m: int| 0 <= m < p.len() ==> e[1 + bl + m] == p[m]);
        assert(b.subrange(pos + 1, pos + 1 + bl as int) =~= be);
        assert(b.subrange(pos + 1 + bl as int, pos + 1 + bl + p.len() as int) =~= p);
    }
}

/// Relates the head byte of a canonical list encoding covering the whole
/// buffer to its payload.
proof fn lemma_list_head(b: Seq<u8>, q: Seq<u8>)
    requires
        b == rlp_list(q),
        b.len() <= usize::MAX,
    ensures
        q.len() < 56 ==> b[0] == 0xc0 + q.len() && b.len() == 1 + q.len() && b.subrange(
            1,
            1 + q.len() as int,
        ) == q,
        q.len() >= 56 ==> {
            let bl = be_bytes(q.len() as nat).len();
            &&& 1 <= bl <= 8
            &&& b[0] == 0xf7 + bl
            &&& b.len() == 1 + bl + q.len()
            &&& b.subrange(1, 1 + bl as int) == be_bytes(q.len() as nat)
            &&& b.subrange(1 + bl as int, 1 + bl + q.len() as int) == q
        },
{
    if q.len() < 56 {
        assert(forall|m: int| 0 <= m < q.len() ==> b[1 + m] == q[m]);
        assert(b.subrange(1, 1 + q.len() as int) =~= q);
    } else {
        lemma_be_bytes_len_usize(q.len() as nat);
        let be = be_bytes(q.len() as nat);
        let bl = be.len();
        assert(bl >= 1) by {
            assert(q.len() as nat != 0);
        }
        assert(forall|m: int| 0 <= m < bl ==> b[1 + m] == be[m]);
        assert(forall|m: int| 0 <= m < q.len() ==> b[1 + bl + m] == q[m]);
        assert(b.subrange(1, 1 + bl as int) =~= be);
        assert(b.subrange(1 + bl as int, 1 + bl + q.len() as int) =~= q);
    }
}

/// Reads the list header of a whole node buffer: where the payload
/// starts and how long it is. Wherever the buffer is a canonical list,
/// exactly its payload region is returned.
fn read_list_header(b: &Vec<u8>) -> (r: Option<(usize, usize)>)
    ensures
        match r {
            Some(sl) => sl.0 + sl.1 <= b@.len(),
            None => true,
        },
        forall|q: Seq<u8>|
            b@ == rlp_list(q) ==> (match r {
                Some(sl) => sl.1 == q.len() && sl.0 + sl.1 == b@.len() && b@.subrange(
                    sl.0 as int,
                    sl.0 as int + sl.1 as int,
                ) == q,
                None => false,
            }),
{
    let blen = b.len();
    if blen == 0 {
        return None;
    }
    let h = b[0];
    if h < 0xc0 {
        proof {
            assert forall|q: Seq<u8>| b@ == rlp_list(q) implies false by {
                lemma_list_head(b@, q);
            }
        }
        return None;
    }
    if h < 0xf8 {
        let l = (h - 0xc0) as usize;
        if l != blen - 1 {
            proof {
                assert forall|q: Seq<u8>| b@ == rlp_list(q) implies false by {
                    lemma_list_head(b@, q);
                }
            }
            return None;
        }
        proof {
            assert forall|q: Seq<u8>| b@ == rlp_list(q) implies l == q.len() && 1 + l == b@.len()
                && b@.subrange(1, 1 + l as int) == q by {
                lemma_list_head(b@, q);
            }
        }
        return Some((1, l));
    }
    let ll = (h - 0xf7) as usize;
    let l = match parse_long_len(b, 1, ll) {
        Some(v) => v,
        None => {
            proof {
                assert forall|q: Seq<u8>| b@ == rlp_list(q) implies false by {
                    lemma_list_head(b@, q);
                }
            }
            return None;
        },
    };
    if l != blen - (1 + ll) {
        proof {
            assert forall|q: Seq<u8>| b@ == rlp_list(q) implies false by {
                lemma_list_head(b@, q);
            }
        }
        return None;
    }
    proof {
        assert forall|q: Seq<u8>| b@ == rlp_list(q) implies l == q.len() && 1 + ll + l == b@.len()
            && b@.subrange(1 + ll as int, 1 + ll as int + l as int) == q by {
            lemma_list_head(b@, q);
        }
    }
    Some((1 + ll, l))
}

proof fn lemma_pack_pairs_len(nibs: Seq<u8>)
    requires
        nibs.len() % 2 == 0,
    ensures
        pack_pairs(nibs).len() == nibs.len() / 2,
    decreases nibs.len(),
{
    if nibs.len() >= 2 {
        lemma_pack_pairs_len(nibs.skip(2));
    }
}

proof fn lemma_pack_pairs_index(nibs: Seq<u8>, k: int)
    requires
        nibs.len() % 2 == 0,
        0 <= k < nibs.len() / 2,
    ensures
        pack_pairs(nibs).len() == nibs.len() / 2,
        pack_pairs(nibs)[k] == (nibs[2 * k] * 16 + nibs[2 * k + 1]) as u8,
    decreases nibs.len(),
{
    lemma_pack_pairs_len(nibs);
    if k == 0 {
    } else {
        lemma_pack_pairs_index(nibs.skip(2), k - 1);
        assert(nibs.skip(2)[2 * (k - 1)] == nibs[2 * k]);
        assert(nibs.skip(2)[2 * (k - 1) + 1] == nibs[2 * k + 1]);
    }
}

/// Splitting packed nibble pairs restores the nibbles.
proof fn lemma_unpack_pack(nibs: Seq<u8>)
    requires
        valid_nibbles(nibs),
        nibs.len() % 2 == 0,
    ensures
        crate::nibbles::unpack_spec(pack_pairs(nibs)) == nibs,
{
    lemma_pack_pairs_len(nibs);
    let u = crate::nibbles::unpack_spec(pack_pairs(nibs));
    assert forall|i: int| 0 <= i < nibs.len() implies u[i] == nibs[i] by {
        lemma_pack_pairs_index(nibs, i / 2);
        let a = nibs[2 * (i / 2)];
        let b2 = nibs[2 * (i / 2) + 1];
        if i % 2 == 0 {
            assert((a * 16 + b2) / 16 == a) by (nonlinear_arith)
                requires
                    a < 16,
                    b2 < 16,
            ;
        } else {
            assert((a * 16 + b2) % 16 == b2) by (nonlinear_arith)
                requires
                    a < 16,
                    b2 < 16,
            ;
        }
    }
    assert(u =~= nibs);
}

/// Decodes the hex-prefix bytes of a two-item node: the node kind flag
/// and the key nibbles. Wherever the bytes are a canonical hex-prefix
/// encoding, exactly its flag and nibbles come back.
#[verifier::rlimit(100)]
fn parse_hp(hp: &Vec<u8>) -> (r: Option<(bool, Nibbles)>)
    ensures
        match r {
            Some(p) => p.1.wf(),
            None => true,
        },
        forall|nibs: Seq<u8>, leaf: bool|
            valid_nibbles(nibs) && hp@ == hp_encode(nibs, leaf) ==> (match r {
                Some(p) => p.0 == leaf && p.1@ == nibs,
                None => false,
            }),
{
    if hp.len() == 0 {
        return None;
    }
    let first = hp[0];
    let flag = first / 16;
    if flag > 3 {
        proof {
            assert forall|nibs: Seq<u8>, leaf: bool|
                valid_nibbles(nibs) && hp@ == hp_encode(nibs, leaf) implies false by {
                assert(hp@[0] == hp_encode(nibs, leaf)[0]);
            }
        }
        return None;
    }
    let is_leaf = flag >= 2;
    let odd = flag % 2 == 1;
    let rest = sub_bytes(hp, 1, hp.len());
    let unpacked = Nibbles::unpack(&rest);
    if odd {
        let mut key = Nibbles::new();
        let low = first % 16;
        key.push(low);
        key.extend(&unpacked);
        proof {
            assert forall|nibs: Seq<u8>, leaf: bool|
                valid_nibbles(nibs) && hp@ == hp_encode(nibs, leaf) implies is_leaf == leaf
                && key@ == nibs by {
                assert(hp@[0] == hp_encode(nibs, leaf)[0]);
                assert(nibs.len() % 2 == 1) by {
                    if nibs.len() % 2 == 0 {
                        // an even encoding has a zero low nibble and an
                        // even flag
                        assert(hp@[0] / 16 == (if leaf { 2u8 } else { 0u8 }));
                    }
                }
                assert(valid_nibbles(nibs.skip(1)));
                assert(rest@ =~= pack_pairs(nibs.skip(1)));
                lemma_unpack_pack(nibs.skip(1));
                assert(hp@[0] % 16 == nibs[0]);
                assert(key@ =~= nibs);
            }
        }
        Some((is_leaf, key))
    } else {
        proof {
            assert forall|nibs: Seq<u8>, leaf: bool|
                valid_nibbles(nibs) && hp@ == hp_encode(nibs, leaf) implies is_leaf == leaf
                && unpacked@ == nibs by {
                assert(hp@[0] == hp_encode(nibs, leaf)[0]);
                assert(nibs.len() % 2 == 0) by {
                    if nibs.len() % 2 == 1 {
                        assert(hp@[0] / 16 == (if leaf { 3u8 } else { 1u8 }));
                    }
                }
                assert(rest@ =~= pack_pairs(nibs));
                lemma_unpack_pack(nibs);
            }
        }
        Some((is_leaf, unpacked))
    }
}

/// The string payloads of a node's list items, in order: the hex-prefix
/// bytes and value for a leaf, the hex-prefix bytes and child hash for
/// an extension, and the sixteen child slots plus the empty value slot
/// for a branch.
pub open spec fn chunk_payloads(n: TrieNode) -> Seq<Seq<u8>> {
    match n {
        TrieNode::Leaf { key, value } => seq![hp_encode(key@, true), value@],
        TrieNode::Extension { key, child } => seq![hp_encode(key@, false), child@],
        TrieNode::Branch { children } => Seq::new(
            17,
            |c: int|
                if c < 16 {
                    match children@[c] {
                        Some(h) => h@,
                        None => Seq::empty(),
                    }
                } else {
                    Seq::empty()
                },
        ),
    }
}

/// The concatenated item encodings from chunk `k` on.
pub open spec fn enc_cat(chunks: Seq<Seq<u8>>, k: int) -> Seq<u8>
    decreases chunks.len() - k,
{
    if k < 0 || k >= chunks.len() {
        Seq::empty()
    } else {
        rlp_str(chunks[k]) + enc_cat(chunks, k + 1)
    }
}

/// A node's whole encoding is the list wrapper around its concatenated
/// item encodings.
proof fn lemma_payload_chunks(n: TrieNode)
    requires
        node_wf(n),
    ensures
        encode_node(n) == rlp_list(enc_cat(chunk_payloads(n), 0)),
{
    let chunks = chunk_payloads(n);
    match n {
        TrieNode::Leaf { key, value } => {
            assert(enc_cat(chunks, 2) =~= Seq::<u8>::empty());
            assert(enc_cat(chunks, 1) == rlp_str(chunks[1]) + enc_cat(chunks, 2));
            assert(enc_cat(chunks, 0) == rlp_str(chunks[0]) + enc_cat(chunks, 1));
            assert(enc_cat(chunks, 0) =~= rlp_str(hp_encode(key@, true)) + rlp_str(value@));
        },
        TrieNode::Extension { key, child } => {
            assert(enc_cat(chunks, 2) =~= Seq::<u8>::empty());
            assert(enc_cat(chunks, 1) == rlp_str(chunks[1]) + enc_cat(chunks, 2));
            assert(enc_cat(chunks, 0) == rlp_str(chunks[0]) + enc_cat(chunks, 1));
            assert(enc_cat(chunks, 0) =~= rlp_str(hp_encode(key@, false)) + rlp_str(child@));
        },
        TrieNode::Branch { children } => {
            lemma_branch_payload_cat(children, chunks, 0);
        },
    }
}

/// Slot by slot, the branch payload is the concatenation of the slot
/// encodings.
proof fn lemma_branch_payload_cat(children: Vec<Option<Vec<u8>>>, chunks: Seq<Seq<u8>>, c: int)
    requires
        children@.len() == 16,
        chunks == chunk_payloads(TrieNode::Branch { children }),
        0 <= c <= 16,
    ensures
        branch_payload(children@, c) == enc_cat(chunks, c),
    decreases 16 - c,
{
    if c == 16 {
        assert(enc_cat(chunks, 17) =~= Seq::<u8>::empty());
        assert(rlp_str(chunks[16]) =~= seq![0x80u8]);
        assert(enc_cat(chunks, 16) =~= seq![0x80u8]);
    } else {
        lemma_branch_payload_cat(children, chunks, c + 1);
        assert(child_ref_enc(children@[c]) == rlp_str(chunks[c])) by {
            match children@[c] {
                Some(h) => {},
                None => {
                    assert(rlp_str(Seq::<u8>::empty()) =~= seq![0x80u8]);
                },
            }
        }
    }
}

/// Peeling one chunk off a concatenation that sits at `pos`.
proof fn lemma_cat_at(b: Seq<u8>, pos: int, chunks: Seq<Seq<u8>>, k: int)
    requires
        bytes_at(b, pos, enc_cat(chunks, k)),
        0 <= k < chunks.len(),
    ensures
        bytes_at(b, pos, rlp_str(chunks[k])),
        bytes_at(b, pos + rlp_str(chunks[k]).len(), enc_cat(chunks, k + 1)),
{
    let e = rlp_str(chunks[k]);
    let t = enc_cat(chunks, k + 1);
    lemma_bytes_at_index(b, pos, enc_cat(chunks, k));
    assert(forall|m: int| 0 <= m < e.len() ==> enc_cat(chunks, k)[m] == e[m]);
    assert(forall|m: int| 0 <= m < t.len() ==> enc_cat(chunks, k)[e.len() + m] == t[m]);
    assert(b.subrange(pos, pos + e.len()) =~= e);
    assert(b.subrange(pos + e.len(), pos + e.len() + t.len()) =~= t);
}

/// Decodes a node from its canonical byte encoding. On success the
/// returned node is well formed and re-encodes to exactly the input, so
/// the input's digest is the returned node's identity; and every
/// canonical encoding of a well-formed node is accepted.
pub fn decode_node(b: &Vec<u8>) -> (r: Result<TrieNode, WitnessError>)
    ensures
        match r {
            Ok(n) => node_wf(n) && encode_node(n) == b@,
            Err(e) => e is Decode,
        },
        (exists|n: TrieNode| node_wf(n) && encode_node(n) == b@) ==> r is Ok,
{
    let node = match parse_node_raw(b) {
        Some(n) => n,
        None => {
            return Err(WitnessError::Decode);
        },
    };
    let enc = encode_node_exec(&node);
    if vec_eq(&enc, b) {
        Ok(node)
    } else {
        proof {
            if exists|n: TrieNode| node_wf(n) && encode_node(n) == b@ {
                let n = choose|n: TrieNode| node_wf(n) && encode_node(n) == b@;
                assert(encode_node(node) == b@);
            }
        }
        Err(WitnessError::Decode)
    }
}

/// Structural parse of one node buffer; canonicality is enforced by the
/// caller's re-encoding check, while every canonical encoding parses to
/// a node with that same encoding.
#[verifier::rlimit(100)]
#[verifier::spinoff_prover]
fn parse_node_raw(b: &Vec<u8>) -> (r: Option<TrieNode>)
    ensures
        match r {
            Some(n2) => node_wf(n2),
            None => true,
        },
        forall|n: TrieNode|
            node_wf(n) && encode_node(n) == b@ ==> (match r {
                Some(n2) => encode_node(n2) == b@,
                None => false,
            }),
{
    let blen = b.len();
    let (s, l) = match read_list_header(b) {
        Some(x) => x,
        None => {
            proof {
                assert forall|n: TrieNode|
                    node_wf(n) && encode_node(n) == b@ implies false by {
                    lemma_payload_chunks(n);
                }
            }
            return None;
        },
    };
    if s + l != blen {
        proof {
            assert forall|n: TrieNode| node_wf(n) && encode_node(n) == b@ implies false by {
                lemma_payload_chunks(n);
            }
        }
        return None;
    }
    let end = blen;
    let mut items: Vec<Vec<u8>> = Vec::new();
    let mut cur: usize = s;
    proof {
        assert forall|n: TrieNode|
            node_wf(n) && encode_node(n) == b@ implies bytes_at(
            b@,
            cur as int,
            enc_cat(chunk_payloads(n), 0),
        ) && cur + enc_cat(chunk_payloads(n), 0).len() == b@.len() by {
            lemma_payload_chunks(n);
            assert(b@.subrange(s as int, s as int + l as int) =~= enc_cat(chunk_payloads(n), 0));
        }
    }
    while cur < end
        invariant
            s <= cur <= end,
            end == b@.len(),
            forall|n: TrieNode|
                node_wf(n) && #[trigger] encode_node(n) == b@ ==> {
                    let chunks = chunk_payloads(n);
                    &&& items@.len() <= chunks.len()
                    &&& (forall|j: int|
                        0 <= j < items@.len() ==> (#[trigger] items@[j])@ == chunks[j])
                    &&& bytes_at(b@, cur as int, enc_cat(chunks, items@.len() as int))
                    &&& cur + enc_cat(chunks, items@.len() as int).len() == b@.len()
                },
        decreases end - cur,
    {
        let ghost pre_items = items@;
        let ghost cur0 = cur as int;
        let (payload, next) = match read_str_item(b, cur) {
            Some(x) => x,
            None => {
                proof {
                    assert forall|n: TrieNode|
                        node_wf(n) && encode_node(n) == b@ implies false by {
                        let chunks = chunk_payloads(n);
                        let k = pre_items.len() as int;
                        assert(k < chunks.len()) by {
                            if k == chunks.len() {
                                assert(enc_cat(chunks, k).len() == 0);
                            }
                        }
                        lemma_cat_at(b@, cur as int, chunks, k);
                    }
                }
                return None;
            },
        };
        items.push(payload);
        cur = next;
        proof {
            assert forall|n: TrieNode|
                node_wf(n) && #[trigger] encode_node(n) == b@ implies {
                let chunks = chunk_payloads(n);
                &&& items@.len() <= chunks.len()
                &&& (forall|j: int| 0 <= j < items@.len() ==> (#[trigger] items@[j])@ == chunks[j])
                &&& bytes_at(b@, cur as int, enc_cat(chunks, items@.len() as int))
                &&& cur + enc_cat(chunks, items@.len() as int).len() == b@.len()
            } by {
                let chunks = chunk_payloads(n);
                let k = pre_items.len() as int;
                assert(k < chunks.len()) by {
                    if k == chunks.len() {
                        assert(enc_cat(chunks, k).len() == 0);
                    }
                }
                lemma_cat_at(b@, cur0, chunks, k);
                // the reader returned exactly this chunk and stopped
                // right after it
                assert(payload@ == chunks[k] && next == cur0 + rlp_str(chunks[k]).len());
                assert(forall|j: int| 0 <= j < k ==> (#[trigger] items@[j]) == pre_items[j]);
            }
        }
    }
    proof {
        assert forall|n: TrieNode|
            node_wf(n) && #[trigger] encode_node(n) == b@ implies items@.len()
            == chunk_payloads(n).len() && (forall|j: int|
            0 <= j < items@.len() ==> (#[trigger] items@[j])@ == chunk_payloads(n)[j]) by {
            let chunks = chunk_payloads(n);
            let k = items@.len() as int;
            if k < chunks.len() {
                assert(rlp_str(chunks[k]).len() >= 1);
                assert(enc_cat(chunks, k).len() >= rlp_str(chunks[k]).len());
            }
        }
    }
    if items.len() == 2 {
        let (is_leaf, key) = match parse_hp(&items[0]) {
            Some(p) => p,
            None => {
                proof {
                    assert forall|n: TrieNode|
                        node_wf(n) && encode_node(n) == b@ implies false by {
                        match n {
                            TrieNode::Leaf { key: nk, value } => {
                                assert(items@[0]@ == hp_encode(nk@, true));
                            },
                            TrieNode::Extension { key: nk, child } => {
                                assert(items@[0]@ == hp_encode(nk@, false));
                            },
                            TrieNode::Branch { children } => {},
                        }
                    }
                }
                return None;
            },
        };
        let payload = copy_bytes(&items[1]);
        if is_leaf {
            let out = TrieNode::Leaf { key, value: payload };
            proof {
                assert forall|n: TrieNode|
                    node_wf(n) && encode_node(n) == b@ implies encode_node(out) == b@ by {
                    match n {
                        TrieNode::Leaf { key: nk, value } => {
                            assert(items@[0]@ == hp_encode(nk@, true));
                        },
                        TrieNode::Extension { key: nk, child } => {
                            assert(items@[0]@ == hp_encode(nk@, false));
                        },
                        TrieNode::Branch { children } => {},
                    }
                }
            }
            return Some(out);
        }
        if key.is_empty() || payload.len() != 32 {
            proof {
                assert forall|n: TrieNode| node_wf(n) && encode_node(n) == b@ implies false by {
                    match n {
                        TrieNode::Leaf { key: nk, value } => {
                            assert(items@[0]@ == hp_encode(nk@, true));
                        },
                        TrieNode::Extension { key: nk, child } => {
                            assert(items@[0]@ == hp_encode(nk@, false));
                            assert(items@[1]@ == child@);
                        },
                        TrieNode::Branch { children } => {},
                    }
                }
            }
            return None;
        }
        let out = TrieNode::Extension { key, child: payload };
        proof {
            assert forall|n: TrieNode|
                node_wf(n) && encode_node(n) == b@ implies encode_node(out) == b@ by {
                match n {
                    TrieNode::Leaf { key: nk, value } => {
                        assert(items@[0]@ == hp_encode(nk@, true));
                    },
                    TrieNode::Extension { key: nk, child } => {
                        assert(items@[0]@ == hp_encode(nk@, false));
                    },
                    TrieNode::Branch { children } => {},
                }
            }
        }
        return Some(out);
    }
    if items.len() == 17 {
        let mut children: Vec<Option<Vec<u8>>> = Vec::new();
        let mut c: usize = 0;
        while c < 16
            invariant
                c <= 16,
                children@.len() == c,
                items@.len() == 17,
                forall|n: TrieNode|
                    node_wf(n) && #[trigger] encode_node(n) == b@ ==> chunk_payloads(n).len() == 17
                        && (forall|j: int|
                        0 <= j < 17 ==> (#[trigger] items@[j])@ == chunk_payloads(n)[j]),
                forall|i: int|
                    0 <= i < c ==> match #[trigger] children@[i] {
                        Some(h) => h@.len() == 32 && items@[i]@ == h@,
                        None => items@[i]@.len() == 0,
                    },
            decreases 16 - c,
        {
            if items[c].len() == 0 {
                children.push(None);
            } else if items[c].len() == 32 {
                children.push(Some(copy_bytes(&items[c])));
            } else {
                proof {
                    assert forall|n: TrieNode|
                        node_wf(n) && encode_node(n) == b@ implies false by {
                        match n {
                            TrieNode::Branch { children: nc } => {
                                assert(items@[c as int]@ == chunk_payloads(n)[c as int]);
                                assert(match nc@[c as int] {
                                    Some(h) => h@.len() == 32,
                                    None => true,
                                });
                            },
                            _ => {},
                        }
                    }
                }
                return None;
            }
            c += 1;
        }
        if items[16].len() != 0 {
            proof {
                assert forall|n: TrieNode| node_wf(n) && encode_node(n) == b@ implies false by {
                    match n {
                        TrieNode::Branch { children: nc } => {
                            assert(items@[16]@ == chunk_payloads(n)[16]);
                        },
                        _ => {},
                    }
                }
            }
            return None;
        }
        let out = TrieNode::Branch { children };
        proof {
            assert forall|n: TrieNode|
                node_wf(n) && encode_node(n) == b@ implies encode_node(out) == b@ by {
                match n {
                    TrieNode::Branch { children: nc } => {
                        let out_children = (match out {
                            TrieNode::Branch { children: oc } => oc,
                            _ => arbitrary(),
                        });
                        assert forall|i: int| 0 <= i < 16 implies child_ref_enc(
                            #[trigger] out_children@[i],
                        ) == child_ref_enc(#[trigger] nc@[i]) by {
                            assert(items@[i]@ == chunk_payloads(n)[i]);
                            match nc@[i] {
                                Some(h) => {
                                    assert(items@[i]@ == h@ && h@.len() == 32);
                                },
                                None => {
                                    assert(items@[i]@.len() == 0);
                                },
                            }
                        }
                        lemma_branch_payload_eq(out_children, nc, 0);
                    },
                    _ => {},
                }
            }
        }
        return Some(out);
    }
    proof {
        assert forall|n: TrieNode| node_wf(n) && encode_node(n) == b@ implies false by {
            match n {
                TrieNode::Leaf { .. } => {},
                TrieNode::Extension { .. } => {},
                TrieNode::Branch { .. } => {},
            }
        }
    }
    None
}

/// Two branch child lists whose slots encode alike yield the same
/// payload.
proof fn lemma_branch_payload_eq(a: Vec<Option<Vec<u8>>>, b2: Vec<Option<Vec<u8>>>, c: int)
    requires
        a@.len() == 16,
        b2@.len() == 16,
        forall|i: int|
            0 <= i < 16 ==> child_ref_enc(#[trigger] a@[i]) == child_ref_enc(#[trigger] b2@[i]),
        0 <= c <= 16,
    ensures
        branch_payload(a@, c) == branch_payload(b2@, c),
    decreases 16 - c,
{
    if c < 16 {
        lemma_branch_payload_eq(a, b2, c + 1);
    }
}

} // verus!
