use malachite_store::block::types::Block;
use malachite_store::txns::types::{SignedTxn, Txn};
use malachite_store::types::{Address, Height, ProposalData, ProposalInit, ProposalPart, Round};

#[test]
fn txn_keeps_sender_and_message() {
    let txn = Txn::new(42, String::from("hello"));
    assert_eq!(txn.sender, 42);
    assert_eq!(txn.message, "hello");
}

#[test]
fn signed_txn_keeps_txn_and_signature() {
    let signed = SignedTxn::new(Txn::new(1, String::from("m")), String::from("sig"));
    assert_eq!(signed.txn.sender, 1);
    assert_eq!(signed.txn.message, "m");
    assert_eq!(signed.signature, "sig");
}

#[test]
fn block_keeps_its_parts() {
    let txns = vec![SignedTxn::new(Txn::new(3, String::from("a")), String::from("s"))];
    let block = Block::new(7, 1_700_000_000, txns, String::from("abcd"), 99);
    assert_eq!(block.index, 7);
    assert_eq!(block.timestamp, 1_700_000_000);
    assert_eq!(block.txns.len(), 1);
    assert_eq!(block.txns[0].txn.sender, 3);
    assert_eq!(block.previous_hash, "abcd");
    assert_eq!(block.nonce, 99);
}

#[test]
fn round_as_signed_number() {
    assert_eq!(Round::Nil.as_i64(), -1);
    assert_eq!(Round::Defined(0).as_i64(), 0);
    assert_eq!(Round::Defined(u32::MAX).as_i64(), 4_294_967_295);
}

#[test]
fn init_part_is_found() {
    let init = ProposalInit {
        height: Height(4),
        round: Round::Defined(1),
        pol_round: Round::Nil,
        proposer: Address([0u8; 20]),
    };
    assert_eq!(ProposalPart::Init(init).as_init(), Some(&init));
    assert_eq!(ProposalPart::Data(ProposalData { factor: 3 }).as_init(), None);
}
