//! Block body abstraction.

use vstd::prelude::*;

verus! {

/// Abstraction for a block's body: access to the signed transactions
/// committed in the block.
pub trait BlockBody {
    /// Signed transaction, committed in the block.
    type Transaction;

    /// Returns the transactions in the block.
    fn transactions(&self) -> &Vec<Self::Transaction>;
}

/// Helper trait that unifies all behaviour required of a block body to
/// support full node operations.
pub trait FullBlockBody: BlockBody {

}

/// A minimal block body: a plain list of encoded transactions.
pub struct EncodedBlockBody {
    pub transactions: Vec<Vec<u8>>,
}

impl BlockBody for EncodedBlockBody {
    type Transaction = Vec<u8>;

    fn transactions(&self) -> &Vec<Vec<u8>> {
        &self.transactions
    }
}

impl FullBlockBody for EncodedBlockBody {

}

} // verus!
