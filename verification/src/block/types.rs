use vstd::prelude::*;

use crate::txns::types::SignedTxn;

verus! {

/// A block of signed transactions, chained to its predecessor by hash.
pub struct Block {
    pub index: u64,
    pub timestamp: u64,
    pub txns: Vec<SignedTxn>,
    pub previous_hash: String,
    pub nonce: u64,
}

impl Block {
    /// Builds a block from its parts, which it keeps as given.
    pub fn new(
        index: u64,
        timestamp: u64,
        txns: Vec<SignedTxn>,
        previous_hash: String,
        nonce: u64,
    ) -> (block: Self)
        ensures
            block.index == index,
            block.timestamp == timestamp,
            block.txns@ == txns@,
            block.previous_hash@ == previous_hash@,
            block.nonce == nonce,
    {
        Self { index, timestamp, txns, previous_hash, nonce }
    }
}

} // verus!
