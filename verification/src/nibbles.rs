//! Nibble paths: fixed-radix (16-ary) trie keys with prefix and slice
//! operations, together with the lexicographic order used by every
//! path-ordered map in the crate.

use vstd::prelude::*;

verus! {

/// Every element of the sequence is a nibble value, i.e. below 16.
pub open spec fn valid_nibbles(s: Seq<u8>) -> bool {
    forall|i: int| 0 <= i < s.len() ==> s[i] < 16
}

/// `p` is a (not necessarily strict) prefix of `q`.
pub open spec fn is_prefix_of(p: Seq<u8>, q: Seq<u8>) -> bool {
    p.len() <= q.len() && q.subrange(0, p.len() as int) == p
}

/// `p` is a strict prefix of `q`.
pub open spec fn is_strict_prefix_of(p: Seq<u8>, q: Seq<u8>) -> bool {
    is_prefix_of(p, q) && p.len() < q.len()
}

/// Strict lexicographic order on nibble sequences; a strict prefix sorts
/// before its extensions.
pub open spec fn lex_lt(a: Seq<u8>, b: Seq<u8>) -> bool
    decreases a.len(),
{
    if b.len() == 0 {
        false
    } else if a.len() == 0 {
        true
    } else if a[0] < b[0] {
        true
    } else if a[0] > b[0] {
        false
    } else {
        lex_lt(a.skip(1), b.skip(1))
    }
}

/// Non-strict lexicographic order.
pub open spec fn lex_le(a: Seq<u8>, b: Seq<u8>) -> bool {
    a == b || lex_lt(a, b)
}

pub proof fn lemma_lex_lt_irrefl(a: Seq<u8>)
    ensures
        !lex_lt(a, a),
    decreases a.len(),
{
    if a.len() > 0 {
        lemma_lex_lt_irrefl(a.skip(1));
    }
}

pub proof fn lemma_lex_lt_trans(a: Seq<u8>, b: Seq<u8>, c: Seq<u8>)
    requires
        lex_lt(a, b),
        lex_lt(b, c),
    ensures
        lex_lt(a, c),
    decreases a.len(),
{
    if a.len() > 0 && b.len() > 0 && c.len() > 0 && a[0] == b[0] && b[0] == c[0] {
        lemma_lex_lt_trans(a.skip(1), b.skip(1), c.skip(1));
    }
}

/// The order is total: two sequences that are not ordered are equal.
pub proof fn lemma_lex_lt_connex(a: Seq<u8>, b: Seq<u8>)
    requires
        !lex_lt(a, b),
        !lex_lt(b, a),
    ensures
        a == b,
    decreases a.len(),
{
    if a.len() == 0 {
        assert(b.len() == 0);
        assert(a =~= b);
    } else {
        assert(b.len() > 0);
        assert(a[0] == b[0]);
        lemma_lex_lt_connex(a.skip(1), b.skip(1));
        assert(a =~= seq![a[0]] + a.skip(1));
        assert(b =~= seq![b[0]] + b.skip(1));
    }
}

/// A strict prefix sorts strictly before its extension.
pub proof fn lemma_strict_prefix_lex_lt(p: Seq<u8>, q: Seq<u8>)
    requires
        is_strict_prefix_of(p, q),
    ensures
        lex_lt(p, q),
    decreases p.len(),
{
    if p.len() > 0 {
        assert(q[0] == p[0]);
        assert(is_strict_prefix_of(p.skip(1), q.skip(1))) by {
            assert(q.skip(1).subrange(0, p.len() - 1) =~= p.skip(1));
        }
        lemma_strict_prefix_lex_lt(p.skip(1), q.skip(1));
    }
}

/// A prefix sorts no later than its extension.
pub proof fn lemma_prefix_lex_le(p: Seq<u8>, q: Seq<u8>)
    requires
        is_prefix_of(p, q),
    ensures
        lex_le(p, q),
{
    if p.len() < q.len() {
        lemma_strict_prefix_lex_lt(p, q);
    } else {
        assert(p =~= q);
    }
}

/// Everything lying lexicographically between two extensions of `l` is
/// itself an extension of `l`.
pub proof fn lemma_between_prefix(l: Seq<u8>, a: Seq<u8>, m: Seq<u8>, b: Seq<u8>)
    requires
        is_prefix_of(l, a),
        is_prefix_of(l, b),
        lex_le(a, m),
        lex_le(m, b),
    ensures
        is_prefix_of(l, m),
    decreases l.len(),
{
    if l.len() > 0 {
        assert(a.len() > 0 && b.len() > 0 && a[0] == l[0] && b[0] == l[0]);
        if m.len() == 0 {
            // m < a unless a == m; both contradict a nonempty, m empty, a <= m
            assert(lex_lt(m, a));
            if a == m {
            } else {
                lemma_lex_lt_trans(a, m, a);
                lemma_lex_lt_irrefl(a);
            }
        } else {
            // heads: a[0] <= m[0] <= b[0] and a[0] == b[0] == l[0]
            if m[0] < a[0] {
                assert(lex_lt(m, a));
                if a == m {
                } else {
                    lemma_lex_lt_trans(a, m, a);
                    lemma_lex_lt_irrefl(a);
                }
            } else if m[0] > b[0] {
                assert(lex_lt(b, m));
                if m == b {
                } else {
                    lemma_lex_lt_trans(m, b, m);
                    lemma_lex_lt_irrefl(m);
                }
            } else {
                assert(m[0] == l[0]);
                assert(is_prefix_of(l.skip(1), a.skip(1))) by {
                    assert(a.skip(1).subrange(0, l.len() - 1) =~= l.skip(1));
                }
                assert(is_prefix_of(l.skip(1), b.skip(1))) by {
                    assert(b.skip(1).subrange(0, l.len() - 1) =~= l.skip(1));
                }
                assert(lex_le(a.skip(1), m.skip(1))) by {
                    if a == m {
                        assert(a.skip(1) =~= m.skip(1));
                    }
                }
                assert(lex_le(m.skip(1), b.skip(1))) by {
                    if m == b {
                        assert(m.skip(1) =~= b.skip(1));
                    }
                }
                lemma_between_prefix(l.skip(1), a.skip(1), m.skip(1), b.skip(1));
                assert(m.subrange(0, l.len() as int) =~= seq![l[0]] + m.skip(1).subrange(
                    0,
                    l.len() - 1,
                ));
                assert(l =~= seq![l[0]] + l.skip(1));
            }
        }
    } else {
        assert(m.subrange(0, 0) =~= l);
    }
}

/// Longest common prefix of two sequences.
pub open spec fn lcp2(a: Seq<u8>, b: Seq<u8>) -> Seq<u8>
    decreases a.len(),
{
    if a.len() == 0 || b.len() == 0 || a[0] != b[0] {
        Seq::empty()
    } else {
        seq![a[0]] + lcp2(a.skip(1), b.skip(1))
    }
}

pub proof fn lemma_lcp2_prefix(a: Seq<u8>, b: Seq<u8>)
    ensures
        is_prefix_of(lcp2(a, b), a),
        is_prefix_of(lcp2(a, b), b),
    decreases a.len(),
{
    if a.len() == 0 || b.len() == 0 || a[0] != b[0] {
        assert(a.subrange(0, 0) =~= Seq::<u8>::empty());
        assert(b.subrange(0, 0) =~= Seq::<u8>::empty());
    } else {
        lemma_lcp2_prefix(a.skip(1), b.skip(1));
        let l = lcp2(a, b);
        let l1 = lcp2(a.skip(1), b.skip(1));
        assert(a.subrange(0, l.len() as int) =~= seq![a[0]] + a.skip(1).subrange(
            0,
            l1.len() as int,
        ));
        assert(b.subrange(0, l.len() as int) =~= seq![b[0]] + b.skip(1).subrange(
            0,
            l1.len() as int,
        ));
    }
}

/// A path in a 16-ary trie: an ordered sequence of nibble values.
#[derive(Debug)]
pub struct Nibbles {
    v: Vec<u8>,
}

impl View for Nibbles {
    type V = Seq<u8>;

    closed spec fn view(&self) -> Seq<u8> {
        self.v@
    }
}

impl Nibbles {
    /// Every stored element is a valid nibble.
    pub open spec fn wf(&self) -> bool {
        valid_nibbles(self@)
    }

    /// The empty path.
    pub fn new() -> (r: Self)
        ensures
            r@ == Seq::<u8>::empty(),
            r.wf(),
    {
        Nibbles { v: Vec::new() }
    }

    /// Builds a path from raw nibble values; rejects values above 15.
    pub fn from_vec(v: Vec<u8>) -> (r: Option<Self>)
        ensures
            match r {
                Some(n) => n@ == v@ && n.wf(),
                None => !valid_nibbles(v@),
            },
    {
        let mut i: usize = 0;
        while i < v.len()
            invariant
                i <= v.len(),
                forall|j: int| 0 <= j < i ==> v@[j] < 16,
            decreases v.len() - i,
        {
            if v[i] >= 16 {
                return None;
            }
            i += 1;
        }
        Some(Nibbles { v })
    }

    pub fn len(&self) -> (r: usize)
        ensures
            r == self@.len(),
    {
        self.v.len()
    }

    pub fn is_empty(&self) -> (r: bool)
        ensures
            r == (self@.len() == 0),
    {
        self.v.len() == 0
    }

    pub fn get(&self, i: usize) -> (r: u8)
        requires
            i < self@.len(),
        ensures
            r == self@[i as int],
    {
        self.v[i]
    }

    pub fn push(&mut self, n: u8)
        requires
            n < 16,
        ensures
            final(self)@ == old(self)@.push(n),
    {
        self.v.push(n);
    }

    /// Appends all nibbles of `other`.
    pub fn extend(&mut self, other: &Nibbles)
        ensures
            final(self)@ == old(self)@ + other@,
    {
        let mut i: usize = 0;
        while i < other.v.len()
            invariant
                i <= other@.len(),
                self@ == old(self)@ + other@.subrange(0, i as int),
            decreases other@.len() - i,
        {
            let proof_i = i;
            self.v.push(other.v[i]);
            proof {
                assert(old(self)@ + other@.subrange(0, proof_i + 1) =~= (old(self)@
                    + other@.subrange(0, proof_i as int)).push(other@[proof_i as int]));
            }
            i += 1;
        }
        proof {
            assert(other@.subrange(0, other@.len() as int) =~= other@);
        }
    }

    /// The prefix consisting of the first `n` nibbles.
    pub fn slice_to(&self, n: usize) -> (r: Nibbles)
        requires
            n <= self@.len(),
        ensures
            r@ == self@.subrange(0, n as int),
    {
        let mut out: Vec<u8> = Vec::new();
        let mut i: usize = 0;
        while i < n
            invariant
                i <= n,
                n <= self@.len(),
                out@ == self@.subrange(0, i as int),
            decreases n - i,
        {
            let proof_i = i;
            out.push(self.v[i]);
            proof {
                assert(self@.subrange(0, proof_i + 1) =~= self@.subrange(0, proof_i as int).push(
                    self@[proof_i as int],
                ));
            }
            i += 1;
        }
        Nibbles { v: out }
    }

    /// The suffix after the first `n` nibbles.
    pub fn skip_first(&self, n: usize) -> (r: Nibbles)
        requires
            n <= self@.len(),
        ensures
            r@ == self@.skip(n as int),
    {
        let mut out: Vec<u8> = Vec::new();
        let mut i: usize = n;
        while i < self.v.len()
            invariant
                n <= i <= self@.len(),
                out@ == self@.subrange(n as int, i as int),
            decreases self@.len() - i,
        {
            let proof_i = i;
            out.push(self.v[i]);
            proof {
                assert(self@.subrange(n as int, proof_i + 1) =~= self@.subrange(
                    n as int,
                    proof_i as int,
                ).push(self@[proof_i as int]));
            }
            i += 1;
        }
        proof {
            assert(self@.subrange(n as int, self@.len() as int) =~= self@.skip(n as int));
        }
        Nibbles { v: out }
    }

    /// Whether `p` is a prefix of `self`.
    pub fn starts_with(&self, p: &Nibbles) -> (r: bool)
        ensures
            r == is_prefix_of(p@, self@),
    {
        if p.v.len() > self.v.len() {
            proof {
                assert(!is_prefix_of(p@, self@));
            }
            return false;
        }
        let mut i: usize = 0;
        while i < p.v.len()
            invariant
                i <= p@.len(),
                p@.len() <= self@.len(),
                forall|j: int| 0 <= j < i ==> self@[j] == p@[j],
            decreases p@.len() - i,
        {
            if self.v[i] != p.v[i] {
                proof {
                    assert(self@.subrange(0, p@.len() as int)[i as int] != p@[i as int]);
                }
                return false;
            }
            i += 1;
        }
        proof {
            assert(self@.subrange(0, p@.len() as int) =~= p@);
        }
        true
    }

    /// Strict lexicographic comparison.
    pub fn lt(&self, other: &Nibbles) -> (r: bool)
        ensures
            r == lex_lt(self@, other@),
    {
        proof {
            assert(self@.skip(0) =~= self@);
            assert(other@.skip(0) =~= other@);
        }
        let mut i: usize = 0;
        while i < self.v.len() && i < other.v.len()
            invariant
                i <= self@.len(),
                i <= other@.len(),
                forall|j: int| 0 <= j < i ==> self@[j] == other@[j],
                lex_lt(self@, other@) == lex_lt(self@.skip(i as int), other@.skip(i as int)),
            decreases self@.len() - i,
        {
            let a = self.v[i];
            let b = other.v[i];
            proof {
                assert(self@.skip(i as int)[0] == a);
                assert(other@.skip(i as int)[0] == b);
                assert(self@.skip(i as int).skip(1) =~= self@.skip(i + 1));
                assert(other@.skip(i as int).skip(1) =~= other@.skip(i + 1));
            }
            if a < b {
                return true;
            }
            if a > b {
                return false;
            }
            i += 1;
        }
        proof {
            assert(self@.skip(i as int).len() == self@.len() - i);
            assert(other@.skip(i as int).len() == other@.len() - i);
        }
        self.v.len() < other.v.len()
    }

    /// Equality of paths.
    pub fn equals(&self, other: &Nibbles) -> (r: bool)
        ensures
            r == (self@ == other@),
    {
        if self.v.len() != other.v.len() {
            return false;
        }
        let mut i: usize = 0;
        while i < self.v.len()
            invariant
                i <= self@.len(),
                self@.len() == other@.len(),
                forall|j: int| 0 <= j < i ==> self@[j] == other@[j],
            decreases self@.len() - i,
        {
            if self.v[i] != other.v[i] {
                return false;
            }
            i += 1;
        }
        proof {
            assert(self@ =~= other@);
        }
        true
    }

    /// Whether every stored element is a valid nibble.
    pub fn check_valid(&self) -> (r: bool)
        ensures
            r == valid_nibbles(self@),
    {
        let mut i: usize = 0;
        while i < self.v.len()
            invariant
                i <= self@.len(),
                forall|j: int| 0 <= j < i ==> self@[j] < 16,
            decreases self@.len() - i,
        {
            if self.v[i] >= 16 {
                return false;
            }
            i += 1;
        }
        true
    }

    /// An identical copy of the path.
    pub fn duplicate(&self) -> (r: Nibbles)
        ensures
            r@ == self@,
    {
        self.skip_first(0)
    }

    /// Splits a sequence of bytes into its nibbles, high half first: the
    /// canonical key derivation for a hashed 32-byte key.
    pub fn unpack(bytes: &Vec<u8>) -> (r: Nibbles)
        ensures
            r@ == unpack_spec(bytes@),
            r.wf(),
    {
        let mut out: Vec<u8> = Vec::new();
        let mut i: usize = 0;
        while i < bytes.len()
            invariant
                i <= bytes@.len(),
                out@.len() == 2 * i,
                out@ =~= unpack_spec(bytes@).subrange(0, 2 * i as int),
                valid_nibbles(out@),
            decreases bytes@.len() - i,
        {
            let b = bytes[i];
            let hi = b >> 4u8;
            let lo = b & 0x0fu8;
            proof {
                assert(hi < 16 && lo < 16 && hi == b / 16 && lo == b % 16) by (bit_vector)
                    requires
                        hi == b >> 4u8,
                        lo == b & 0x0fu8,
                ;
            }
            let proof_i = i;
            out.push(hi);
            out.push(lo);
            proof {
                assert(unpack_spec(bytes@).subrange(0, 2 * (proof_i + 1) as int)
                    =~= unpack_spec(bytes@).subrange(0, 2 * proof_i as int).push(
                    unpack_spec(bytes@)[2 * proof_i as int],
                ).push(unpack_spec(bytes@)[2 * proof_i + 1]));
            }
            i += 1;
        }
        proof {
            assert(unpack_spec(bytes@).subrange(0, unpack_spec(bytes@).len() as int)
                =~= unpack_spec(bytes@));
        }
        Nibbles { v: out }
    }

    /// Packs nibbles back into bytes, two per byte; an odd trailing nibble
    /// occupies the high half of the final byte. Lossy on odd lengths:
    /// meant for producing byte-aligned lookup targets, not round trips.
    pub fn pack(&self) -> (r: Vec<u8>)
        requires
            self.wf(),
        ensures
            r@ == pack_spec(self@),
    {
        let mut out: Vec<u8> = Vec::new();
        let mut i: usize = 0;
        while i + 1 < self.v.len()
            invariant
                self.wf(),
                i <= self@.len(),
                i % 2 == 0,
                out@ =~= pack_spec(self@.subrange(0, i as int)),
            decreases self@.len() - i,
        {
            let hi = self.v[i];
            let lo = self.v[i + 1];
            let proof_i = i;
            out.push(hi * 16 + lo);
            proof {
                lemma_pack_spec_snoc2(self@, proof_i as int);
            }
            i += 2;
        }
        if i < self.v.len() {
            let proof_i = i;
            out.push(self.v[i] * 16);
            proof {
                lemma_pack_spec_snoc1(self@, proof_i as int);
            }
        } else {
            proof {
                assert(self@.subrange(0, i as int) =~= self@);
            }
        }
        Nibbles { v: out }.v
    }
}

/// The nibble sequence of a byte sequence, high halves first.
pub open spec fn unpack_spec(bytes: Seq<u8>) -> Seq<u8> {
    Seq::new(
        2 * bytes.len(),
        |i: int| if i % 2 == 0 { bytes[i / 2] / 16 } else { bytes[i / 2] % 16 },
    )
}

/// The packed bytes of a nibble sequence; an odd trailing nibble is
/// shifted into the high half of the last byte.
pub open spec fn pack_spec(nibs: Seq<u8>) -> Seq<u8>
    decreases nibs.len(),
{
    if nibs.len() == 0 {
        Seq::empty()
    } else if nibs.len() == 1 {
        seq![(nibs[0] * 16) as u8]
    } else {
        seq![(nibs[0] * 16 + nibs[1]) as u8] + pack_spec(nibs.skip(2))
    }
}

proof fn lemma_pack_spec_append2(prefix: Seq<u8>, rest: Seq<u8>)
    requires
        prefix.len() % 2 == 0,
        valid_nibbles(prefix),
    ensures
        pack_spec(prefix + rest) == pack_spec(prefix) + pack_spec(rest),
    decreases prefix.len(),
{
    if prefix.len() == 0 {
        assert(prefix + rest =~= rest);
        assert(pack_spec(prefix) + pack_spec(rest) =~= pack_spec(rest));
    } else {
        let whole = prefix + rest;
        assert(whole.len() >= 2);
        assert(whole[0] == prefix[0] && whole[1] == prefix[1]);
        assert(whole.skip(2) =~= prefix.skip(2) + rest);
        assert(valid_nibbles(prefix.skip(2)));
        lemma_pack_spec_append2(prefix.skip(2), rest);
        assert(pack_spec(whole) =~= seq![(prefix[0] * 16 + prefix[1]) as u8] + (pack_spec(
            prefix.skip(2),
        ) + pack_spec(rest)));
        assert(pack_spec(prefix) =~= seq![(prefix[0] * 16 + prefix[1]) as u8] + pack_spec(
            prefix.skip(2),
        ));
        assert(pack_spec(prefix) + pack_spec(rest) =~= seq![(prefix[0] * 16 + prefix[1]) as u8]
            + (pack_spec(prefix.skip(2)) + pack_spec(rest)));
    }
}

proof fn lemma_pack_spec_snoc2(s: Seq<u8>, i: int)
    requires
        0 <= i,
        i + 2 <= s.len(),
        i % 2 == 0,
        valid_nibbles(s),
    ensures
        pack_spec(s.subrange(0, i + 2)) == pack_spec(s.subrange(0, i)).push(
            (s[i] * 16 + s[i + 1]) as u8,
        ),
{
    let p = s.subrange(0, i);
    let r = s.subrange(i, i + 2);
    assert(valid_nibbles(p));
    assert(p + r =~= s.subrange(0, i + 2));
    lemma_pack_spec_append2(p, r);
    assert(r.skip(2) =~= Seq::<u8>::empty());
    assert(pack_spec(r) =~= seq![(r[0] * 16 + r[1]) as u8] + pack_spec(r.skip(2)));
    assert(pack_spec(r) =~= seq![(r[0] * 16 + r[1]) as u8]);
    assert(pack_spec(p) + seq![(s[i] * 16 + s[i + 1]) as u8] =~= pack_spec(p).push(
        (s[i] * 16 + s[i + 1]) as u8,
    ));
}

proof fn lemma_pack_spec_snoc1(s: Seq<u8>, i: int)
    requires
        0 <= i,
        i + 1 == s.len(),
        i % 2 == 0,
        valid_nibbles(s),
    ensures
        pack_spec(s) == pack_spec(s.subrange(0, i)).push((s[i] * 16) as u8),
{
    let p = s.subrange(0, i);
    let r = s.subrange(i, i + 1);
    assert(valid_nibbles(p));
    assert(p + r =~= s);
    lemma_pack_spec_append2(p, r);
    assert(pack_spec(r) =~= seq![(r[0] * 16) as u8]);
    assert(pack_spec(p) + seq![(s[i] * 16) as u8] =~= pack_spec(p).push((s[i] * 16) as u8));
}

} // verus!
