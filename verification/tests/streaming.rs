use malachite_store::streaming::{
    PartStreamsMap, PeerId, ProposalParts, StreamContent, StreamMessage,
};
use malachite_store::types::{
    Address, Height, ProposalData, ProposalFin, ProposalInit, ProposalPart, Round,
};

fn init_part(height: u64, round: u32) -> ProposalInit {
    ProposalInit {
        height: Height(height),
        round: Round::Defined(round),
        pol_round: Round::Nil,
        proposer: Address([7u8; 20]),
    }
}

fn msg(stream_id: u64, sequence: u64, content: StreamContent<ProposalPart>) -> StreamMessage<ProposalPart> {
    StreamMessage { stream_id, sequence, content }
}

fn init_msg(stream_id: u64, init: ProposalInit) -> StreamMessage<ProposalPart> {
    msg(stream_id, 0, StreamContent::Data(ProposalPart::Init(init)))
}

fn data_msg(stream_id: u64, sequence: u64, factor: u64) -> StreamMessage<ProposalPart> {
    msg(stream_id, sequence, StreamContent::Data(ProposalPart::Data(ProposalData { factor })))
}

fn sig_msg(stream_id: u64, sequence: u64) -> StreamMessage<ProposalPart> {
    msg(
        stream_id,
        sequence,
        StreamContent::Data(ProposalPart::Fin(ProposalFin { signature: vec![1, 2, 3] })),
    )
}

fn fin_msg(stream_id: u64, sequence: u64) -> StreamMessage<ProposalPart> {
    msg(stream_id, sequence, StreamContent::Fin)
}

fn peer(b: u8) -> PeerId {
    PeerId(vec![b, b, b])
}

#[test]
fn in_order_stream_is_reassembled_on_its_end() {
    let mut map = PartStreamsMap::new();
    let init = init_part(5, 2);
    assert_eq!(map.insert(peer(1), init_msg(9, init)), None);
    assert_eq!(map.insert(peer(1), data_msg(9, 1, 10)), None);
    assert_eq!(map.insert(peer(1), data_msg(9, 2, 20)), None);
    assert_eq!(map.insert(peer(1), sig_msg(9, 3)), None);
    let done = map.insert(peer(1), fin_msg(9, 4));
    assert_eq!(
        done,
        Some(ProposalParts {
            height: Height(5),
            round: Round::Defined(2),
            proposer: Address([7u8; 20]),
            parts: vec![
                ProposalPart::Init(init),
                ProposalPart::Data(ProposalData { factor: 10 }),
                ProposalPart::Data(ProposalData { factor: 20 }),
                ProposalPart::Fin(ProposalFin { signature: vec![1, 2, 3] }),
            ],
        })
    );
}

#[test]
fn out_of_order_stream_yields_parts_by_sequence() {
    let mut map = PartStreamsMap::new();
    let init = init_part(8, 0);
    assert_eq!(map.insert(peer(2), fin_msg(1, 3)), None);
    assert_eq!(map.insert(peer(2), data_msg(1, 2, 200)), None);
    assert_eq!(map.insert(peer(2), data_msg(1, 1, 100)), None);
    let done = map.insert(peer(2), init_msg(1, init)).expect("stream complete");
    assert_eq!(done.height, Height(8));
    assert_eq!(done.round, Round::Defined(0));
    assert_eq!(
        done.parts,
        vec![
            ProposalPart::Init(init),
            ProposalPart::Data(ProposalData { factor: 100 }),
            ProposalPart::Data(ProposalData { factor: 200 }),
        ]
    );
}

#[test]
fn duplicate_sequence_is_ignored() {
    let mut map = PartStreamsMap::new();
    let init = init_part(1, 1);
    assert_eq!(map.insert(peer(3), init_msg(4, init)), None);
    // A second message numbered 1 is dropped, whatever it carries.
    assert_eq!(map.insert(peer(3), data_msg(4, 1, 11)), None);
    assert_eq!(map.insert(peer(3), data_msg(4, 1, 99)), None);
    let done = map.insert(peer(3), fin_msg(4, 2)).expect("stream complete");
    assert_eq!(
        done.parts,
        vec![ProposalPart::Init(init), ProposalPart::Data(ProposalData { factor: 11 })]
    );
}

#[test]
fn duplicate_end_does_not_complete_twice() {
    let mut map = PartStreamsMap::new();
    let init = init_part(2, 0);
    assert_eq!(map.insert(peer(4), init_msg(0, init)), None);
    assert!(map.insert(peer(4), fin_msg(0, 1)).is_some());
    // The stream is still known, so its messages are recognised as seen.
    assert_eq!(map.insert(peer(4), fin_msg(0, 1)), None);
    assert_eq!(map.insert(peer(4), init_msg(0, init)), None);
}

#[test]
fn streams_of_peers_and_ids_are_independent() {
    let mut map = PartStreamsMap::new();
    let a = init_part(10, 0);
    let b = init_part(20, 1);
    assert_eq!(map.insert(peer(1), init_msg(1, a)), None);
    assert_eq!(map.insert(peer(2), init_msg(1, b)), None);
    assert_eq!(map.insert(peer(1), init_msg(2, b)), None);
    let from_2 = map.insert(peer(2), fin_msg(1, 1)).expect("peer 2 stream 1 complete");
    assert_eq!(from_2.height, Height(20));
    let from_1 = map.insert(peer(1), fin_msg(1, 1)).expect("peer 1 stream 1 complete");
    assert_eq!(from_1.height, Height(10));
    let from_1_2 = map.insert(peer(1), fin_msg(2, 1)).expect("peer 1 stream 2 complete");
    assert_eq!(from_1_2.height, Height(20));
    assert_eq!(from_1_2.round, Round::Defined(1));
}

#[test]
fn stream_without_init_part_never_completes() {
    let mut map = PartStreamsMap::new();
    // Message 0 carries data, not the init part.
    assert_eq!(map.insert(peer(5), data_msg(3, 0, 1)), None);
    assert_eq!(map.insert(peer(5), fin_msg(3, 1)), None);
}

#[test]
fn stream_waits_for_every_announced_message() {
    let mut map = PartStreamsMap::new();
    let init = init_part(3, 3);
    assert_eq!(map.insert(peer(6), init_msg(7, init)), None);
    assert_eq!(map.insert(peer(6), fin_msg(7, 3)), None);
    assert_eq!(map.insert(peer(6), data_msg(7, 2, 2)), None);
    let done = map.insert(peer(6), data_msg(7, 1, 1)).expect("stream complete");
    assert_eq!(done.parts.len(), 3);
    assert_eq!(done.proposer, Address([7u8; 20]));
}

#[test]
fn message_predicates() {
    let first = init_msg(1, init_part(1, 0));
    assert!(first.is_first());
    assert!(!first.is_fin());
    let end = fin_msg(1, 4);
    assert!(!end.is_first());
    assert!(end.is_fin());
    assert!(end.content.as_data().is_none());
    assert_eq!(
        data_msg(1, 2, 5).content.into_data(),
        Some(ProposalPart::Data(ProposalData { factor: 5 }))
    );
    assert_eq!(StreamContent::<ProposalPart>::Fin.into_data(), None);
}
