//! The multiproof provider interface: the external collaborator that
//! supplies, for a set of target keys, the sibling nodes along each
//! target's path against an immutable trie snapshot.

use vstd::prelude::*;
use crate::errors::ProofError;
use crate::nibbles::{valid_nibbles, Nibbles};

verus! {

/// A proof over one account's storage trie: the storage root at proof
/// time plus the encoded nodes visited, keyed by path.
pub struct StorageMultiproof {
    /// The account's storage root at proof time.
    pub root: Vec<u8>,
    /// Path-ordered encoded nodes of the storage trie walk.
    pub subtree: Vec<(Nibbles, Vec<u8>)>,
}

/// A batched proof over the account trie and the storage tries of every
/// requested account.
pub struct Multiproof {
    /// Path-ordered encoded nodes of the account trie walk.
    pub account_subtree: Vec<(Nibbles, Vec<u8>)>,
    /// Storage proofs keyed by hashed address.
    pub storages: Vec<(Vec<u8>, StorageMultiproof)>,
}

/// Every proof path holds valid nibbles.
pub open spec fn subtree_wf(s: Seq<(Nibbles, Vec<u8>)>) -> bool {
    forall|i: int| 0 <= i < s.len() ==> valid_nibbles((#[trigger] s[i]).0@)
}

impl StorageMultiproof {
    pub open spec fn wf(&self) -> bool {
        self.root@.len() == 32 && subtree_wf(self.subtree@)
    }

    /// An empty storage proof: the empty-trie root and no nodes.
    pub fn empty() -> (r: Self)
        ensures
            r.wf(),
            r.root@ == crate::hash::empty_root_spec(),
            r.subtree@.len() == 0,
    {
        StorageMultiproof { root: crate::hash::empty_root(), subtree: Vec::new() }
    }
}

impl Multiproof {
    pub open spec fn wf(&self) -> bool {
        &&& subtree_wf(self.account_subtree@)
        &&& forall|i: int| 0 <= i < self.storages@.len() ==> (#[trigger] self.storages@[i]).1.wf()
    }
}

/// Trie regions known to have changed since the last commit: a hint
/// passed through to the proof provider, never consulted for the
/// correctness of the witness itself.
pub struct TriePrefixSets {
    /// Changed account-trie prefixes.
    pub account_prefixes: Vec<Nibbles>,
    /// Changed storage-trie prefixes per hashed address.
    pub storage_prefixes: Vec<(Vec<u8>, Vec<Nibbles>)>,
    /// Accounts destroyed in this transition.
    pub destroyed_accounts: Vec<Vec<u8>>,
}

/// The mathematical value of a set of changed-region hints.
pub struct PrefixSetsV {
    pub account_prefixes: Seq<Seq<u8>>,
    pub storage_prefixes: Seq<(Seq<u8>, Seq<Seq<u8>>)>,
    pub destroyed_accounts: Seq<Seq<u8>>,
}

impl View for TriePrefixSets {
    type V = PrefixSetsV;

    open spec fn view(&self) -> PrefixSetsV {
        PrefixSetsV {
            account_prefixes: Seq::new(
                self.account_prefixes@.len(),
                |i: int| self.account_prefixes@[i]@,
            ),
            storage_prefixes: Seq::new(
                self.storage_prefixes@.len(),
                |i: int|
                    (
                        self.storage_prefixes@[i].0@,
                        Seq::new(
                            self.storage_prefixes@[i].1@.len(),
                            |j: int| self.storage_prefixes@[i].1@[j]@,
                        ),
                    ),
            ),
            destroyed_accounts: Seq::new(
                self.destroyed_accounts@.len(),
                |i: int| self.destroyed_accounts@[i]@,
            ),
        }
    }
}

/// The hint value naming no changed regions at all.
pub open spec fn empty_prefix_sets() -> PrefixSetsV {
    PrefixSetsV {
        account_prefixes: Seq::empty(),
        storage_prefixes: Seq::empty(),
        destroyed_accounts: Seq::empty(),
    }
}

impl TriePrefixSets {
    /// No known changed regions.
    pub fn empty() -> (r: Self)
        ensures
            r@ == empty_prefix_sets(),
    {
        let r = TriePrefixSets {
            account_prefixes: Vec::new(),
            storage_prefixes: Vec::new(),
            destroyed_accounts: Vec::new(),
        };
        proof {
            assert(r@.account_prefixes =~= Seq::<Seq<u8>>::empty());
            assert(r@.storage_prefixes =~= Seq::<(Seq<u8>, Seq<Seq<u8>>)>::empty());
            assert(r@.destroyed_accounts =~= Seq::<Seq<u8>>::empty());
            assert(r@ =~= empty_prefix_sets());
        }
        r
    }
}

/// The external collaborator that generates Merkle proofs against an
/// immutable point-in-time snapshot of the trie. Implementations promise
/// nothing that verification relies on: every result is re-validated by
/// the decoding and root computations of this crate.
pub trait ProofProvider {
    /// A batched proof for many targets: each target pairs a hashed
    /// address with the hashed storage slots to cover.
    fn multiproof(
        &mut self,
        targets: &Vec<(Vec<u8>, Vec<Vec<u8>>)>,
        prefix_sets: &TriePrefixSets,
    ) -> Result<Multiproof, ProofError>;

    /// A proof for a single account-trie path.
    fn account_proof(&mut self, path: &Nibbles) -> Result<Multiproof, ProofError>;

    /// A proof for a single path of one account's storage trie.
    fn storage_proof(&mut self, account: &Vec<u8>, path: &Nibbles) -> Result<
        StorageMultiproof,
        ProofError,
    >;
}

} // verus!
