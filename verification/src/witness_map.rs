//! The witness: raw encoded trie nodes keyed by their Keccak-256 digest.
//! Once a hash is present its bytes are immutable; re-inserting the same
//! node is a no-op.

use vstd::prelude::*;
use crate::bytes::{copy_bytes, vec_eq};
use crate::hash::{keccak256, keccak_spec};

verus! {

/// Every key of the map is the digest of its value: the map can never
/// hold bytes under a foreign hash.
pub open spec fn witness_ok(m: Map<Seq<u8>, Seq<u8>>) -> bool {
    forall|k: Seq<u8>| m.contains_key(k) ==> k == keccak_spec(#[trigger] m[k])
}

/// `w2` keeps every binding of `w1`: nodes are only ever added, never
/// replaced or removed.
pub open spec fn preserves(w1: Map<Seq<u8>, Seq<u8>>, w2: Map<Seq<u8>, Seq<u8>>) -> bool {
    forall|k: Seq<u8>|
        w1.contains_key(k) ==> #[trigger] w2.contains_key(k) && w2[k] == w1[k]
}

pub proof fn lemma_preserves_trans(
    a: Map<Seq<u8>, Seq<u8>>,
    b: Map<Seq<u8>, Seq<u8>>,
    c: Map<Seq<u8>, Seq<u8>>,
)
    requires
        preserves(a, b),
        preserves(b, c),
    ensures
        preserves(a, c),
{
}

/// What recording a node's bytes does to the witness map: nothing when
/// its digest is already present, otherwise one new binding.
pub open spec fn record_spec(m: Map<Seq<u8>, Seq<u8>>, bytes: Seq<u8>) -> Map<Seq<u8>, Seq<u8>> {
    if m.contains_key(keccak_spec(bytes)) {
        m
    } else {
        m.insert(keccak_spec(bytes), bytes)
    }
}

/// Recording the same node twice is a no-op: once a hash is present its
/// bytes are immutable, and re-inserting the same bytes changes nothing.
pub proof fn lemma_record_idempotent(m: Map<Seq<u8>, Seq<u8>>, bytes: Seq<u8>)
    ensures
        record_spec(record_spec(m, bytes), bytes) == record_spec(m, bytes),
{
}

/// Accumulated witness of one computation: node hash to raw encoded node
/// bytes. This is the externally consumable artifact: together with the
/// pre-state root it lets a verifier resolve every node touched by the
/// transition without full trie access.
pub struct Witness {
    entries: Vec<(Vec<u8>, Vec<u8>)>,
}

/// The map committed to by the entry list, later entries unreachable
/// under an equal earlier key (insertion skips present keys, so keys are
/// in fact unique).
pub open spec fn map_of(s: Seq<(Vec<u8>, Vec<u8>)>) -> Map<Seq<u8>, Seq<u8>>
    decreases s.len(),
{
    if s.len() == 0 {
        Map::empty()
    } else {
        map_of(s.drop_last()).insert(s.last().0@, s.last().1@)
    }
}

impl View for Witness {
    type V = Map<Seq<u8>, Seq<u8>>;

    closed spec fn view(&self) -> Map<Seq<u8>, Seq<u8>> {
        map_of(self.entries@)
    }
}

proof fn lemma_map_of_contains(s: Seq<(Vec<u8>, Vec<u8>)>, k: Seq<u8>)
    ensures
        map_of(s).contains_key(k) <==> exists|i: int| 0 <= i < s.len() && (#[trigger] s[i]).0@ == k,
    decreases s.len(),
{
    if s.len() == 0 {
    } else {
        lemma_map_of_contains(s.drop_last(), k);
        if s.last().0@ == k {
            assert(s[s.len() - 1].0@ == k);
        } else if map_of(s).contains_key(k) {
            let i = choose|i: int| 0 <= i < s.drop_last().len() && (#[trigger] s.drop_last()[i]).0@
                == k;
            assert(s[i].0@ == k);
        } else {
            if exists|i: int| 0 <= i < s.len() && (#[trigger] s[i]).0@ == k {
                let i = choose|i: int| 0 <= i < s.len() && (#[trigger] s[i]).0@ == k;
                assert(i < s.len() - 1);
                assert(s.drop_last()[i].0@ == k);
            }
        }
    }
}

impl Witness {
    /// Keys are unique and each key is the digest of its bytes.
    pub closed spec fn wf(&self) -> bool {
        &&& forall|i: int, j: int|
            0 <= i < j < self.entries@.len() ==> (#[trigger] self.entries@[i]).0@ != (
            #[trigger] self.entries@[j]).0@
        &&& forall|i: int|
            0 <= i < self.entries@.len() ==> (#[trigger] self.entries@[i]).0@ == keccak_spec(
                self.entries@[i].1@,
            )
    }

    /// An empty witness.
    pub fn new() -> (r: Self)
        ensures
            r@ == Map::<Seq<u8>, Seq<u8>>::empty(),
            r.wf(),
    {
        Witness { entries: Vec::new() }
    }

    /// The number of distinct recorded nodes.
    pub fn len(&self) -> (r: usize)
        requires
            self.wf(),
        ensures
            r == self@.dom().len(),
    {
        proof {
            lemma_map_len(self.entries@);
        }
        self.entries.len()
    }

    /// Records a node: hashes its bytes and stores them under the digest
    /// unless that digest is already present. Inserting the same node
    /// twice is a no-op.
    pub fn record(&mut self, bytes: &Vec<u8>)
        requires
            old(self).wf(),
        ensures
            final(self).wf(),
            final(self)@ == record_spec(old(self)@, bytes@),
            final(self)@.contains_key(keccak_spec(bytes@)),
            preserves(old(self)@, final(self)@),
            witness_ok(old(self)@) ==> witness_ok(final(self)@),
    {
        let h = keccak256(bytes);
        let ghost es0 = self.entries@;
        let mut i: usize = 0;
        while i < self.entries.len()
            invariant
                self == old(self),
                old(self).wf(),
                i <= self.entries@.len(),
                h@ == keccak_spec(bytes@),
                forall|j: int| 0 <= j < i ==> (#[trigger] self.entries@[j]).0@ != h@,
            decreases self.entries@.len() - i,
        {
            if vec_eq(&self.entries[i].0, &h) {
                proof {
                    assert(self.entries@[i as int].0@ == h@);
                    lemma_map_of_contains(self.entries@, h@);
                    assert(self@.contains_key(keccak_spec(bytes@)));
                }
                return ;
            }
            i += 1;
        }
        proof {
            lemma_map_of_contains(es0, h@);
            assert(!self@.contains_key(keccak_spec(bytes@)));
        }
        let b = copy_bytes(bytes);
        self.entries.push((h, b));
        proof {
            assert(self.entries@.drop_last() =~= es0);
            assert(final(self)@ == map_of(es0).insert(keccak_spec(bytes@), bytes@));
            assert forall|i2: int, j2: int| 0 <= i2 < j2 < self.entries@.len() implies (
            #[trigger] self.entries@[i2]).0@ != (#[trigger] self.entries@[j2]).0@ by {
                if j2 == self.entries@.len() - 1 {
                    assert(self.entries@[i2] == es0[i2]);
                }
            }
        }
    }

    /// Looks a node up by its hash.
    pub fn get(&self, hash: &Vec<u8>) -> (r: Option<&Vec<u8>>)
        requires
            self.wf(),
        ensures
            match r {
                Some(b) => self@.contains_key(hash@) && b@ == self@[hash@],
                None => !self@.contains_key(hash@),
            },
    {
        let ghost es = self.entries@;
        let mut i: usize = 0;
        while i < self.entries.len()
            invariant
                i <= es.len(),
                es == self.entries@,
                self.wf(),
                forall|j: int| 0 <= j < i ==> (#[trigger] es[j]).0@ != hash@,
            decreases es.len() - i,
        {
            if vec_eq(&self.entries[i].0, hash) {
                proof {
                    lemma_map_of_at(es, i as int);
                    assert(es[i as int].0@ == hash@);
                }
                return Some(&self.entries[i].1);
            }
            i += 1;
        }
        proof {
            lemma_map_of_contains(es, hash@);
        }
        None
    }

    /// The map holds each key as the digest of its bytes.
    pub proof fn lemma_hash_consistent(&self)
        requires
            self.wf(),
        ensures
            witness_ok(self@),
    {
        assert forall|k: Seq<u8>| self@.contains_key(k) implies k == keccak_spec(
            #[trigger] self@[k],
        ) by {
            lemma_map_of_contains(self.entries@, k);
            let i = choose|i: int|
                0 <= i < self.entries@.len() && (#[trigger] self.entries@[i]).0@ == k;
            lemma_map_of_at(self.entries@, i);
        }
    }
}

/// If no later entry shares position `i`'s key, the map holds exactly
/// entry `i`'s bytes at that key.
proof fn lemma_map_of_at(s: Seq<(Vec<u8>, Vec<u8>)>, i: int)
    requires
        0 <= i < s.len(),
        forall|j: int, j2: int| 0 <= j < j2 < s.len() ==> (#[trigger] s[j]).0@ != (
        #[trigger] s[j2]).0@,
    ensures
        map_of(s).contains_key(s[i].0@),
        map_of(s)[s[i].0@] == s[i].1@,
    decreases s.len(),
{
    if i == s.len() - 1 {
    } else {
        assert(forall|j: int| 0 <= j < s.drop_last().len() ==> #[trigger] s.drop_last()[j] == s[j]);
        lemma_map_of_at(s.drop_last(), i);
        assert(s.last().0@ != s[i].0@);
    }
}

proof fn lemma_map_len(s: Seq<(Vec<u8>, Vec<u8>)>)
    requires
        forall|j: int, j2: int| 0 <= j < j2 < s.len() ==> (#[trigger] s[j]).0@ != (
        #[trigger] s[j2]).0@,
    ensures
        map_of(s).dom().len() == s.len(),
        map_of(s).dom().finite(),
    decreases s.len(),
{
    if s.len() == 0 {
        assert(map_of(s).dom() =~= Set::<Seq<u8>>::empty());
    } else {
        assert(forall|j: int| 0 <= j < s.drop_last().len() ==> #[trigger] s.drop_last()[j] == s[j]);
        lemma_map_len(s.drop_last());
        lemma_map_of_contains(s.drop_last(), s.last().0@);
        assert(!map_of(s.drop_last()).contains_key(s.last().0@));
        assert(map_of(s).dom() =~= map_of(s.drop_last()).dom().insert(s.last().0@));
    }
}

} // verus!
