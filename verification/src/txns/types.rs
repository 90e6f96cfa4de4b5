use vstd::prelude::*;

verus! {

/// A transaction: a message sent by a numbered sender.
#[derive(Debug)]
pub struct Txn {
    pub sender: u64,
    pub message: String,
}

/// A transaction together with the signature that accompanies it.
#[derive(Debug)]
pub struct SignedTxn {
    pub txn: Txn,
    pub signature: String,
}

impl Txn {
    /// Builds a transaction from its sender and message.
    pub fn new(sender: u64, message: String) -> (txn: Self)
        ensures
            txn.sender == sender,
            txn.message@ == message@,
    {
        Self { sender, message }
    }
}

impl SignedTxn {
    /// Pairs a transaction with a signature. The signature is carried as
    /// given: nothing here checks it against the transaction.
    pub fn new(txn: Txn, signature: String) -> (signed: Self)
        ensures
            signed.txn == txn,
            signed.signature@ == signature@,
    {
        Self { txn, signature }
    }
}

} // verus!
