//! Merkle-Patricia trie state-transition witness generation.
//!
//! Given a set of account and storage changes applied on top of a trie
//! snapshot, the library computes the minimal set of trie nodes needed to
//! prove the transition (the witness) together with the new root hash.

pub mod blob_pool;
pub mod block_body;
pub mod bytes;
pub mod codec;
pub mod errors;
pub mod extract;
pub mod hash;
pub mod nibbles;
pub mod nodemap;
pub mod provider;
pub mod root;
pub mod state;
pub mod witness;
pub mod witness_map;

use vstd::prelude::*;

verus! {

} // verus!
