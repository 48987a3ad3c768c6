//! Error taxonomy: every failure aborts the whole computation.

use vstd::prelude::*;
use crate::nibbles::Nibbles;

verus! {

/// Failure surfaced by a proof provider (storage or I/O layer).
#[derive(Clone, Copy, PartialEq, Eq, Structural, Debug)]
pub enum ProofError {
    /// The underlying database failed.
    Database,
    /// The provider could not decode stored data.
    Rlp,
}

/// Terminal failure of a witness computation.
#[derive(Debug)]
pub enum WitnessError {
    /// A node's bytes were not a canonical node encoding.
    Decode,
    /// A target referenced in the post-state has no account entry.
    MissingAccount(Vec<u8>),
    /// The missing-node provider could not resolve a requested path.
    MissingTargetNode(Nibbles),
    /// Surfaced verbatim from the proof provider.
    Proof(ProofError),
}

impl WitnessError {
    /// A short description of the error kind.
    pub fn describe(&self) -> (r: &'static str)
        ensures
            true,
    {
        match self {
            WitnessError::Decode => "malformed node encoding",
            WitnessError::MissingAccount(_) => "missing account in post-state",
            WitnessError::MissingTargetNode(_) => "missing target node",
            WitnessError::Proof(ProofError::Database) => "proof provider database failure",
            WitnessError::Proof(ProofError::Rlp) => "proof provider decode failure",
        }
    }
}

} // verus!
