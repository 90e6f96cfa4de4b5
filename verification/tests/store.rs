use malachite_store::store::{DecidedValue, Db, StoreError};
use malachite_store::types::{Height, Round};

fn memory_database() -> redb::Database {
    redb::Database::builder()
        .create_with_backend(redb::backends::InMemoryBackend::new())
        .expect("in-memory database")
}

fn open_store() -> Db {
    let db = Db::new(memory_database());
    db.create_tables().expect("tables");
    db
}

fn decided(v: u8) -> DecidedValue {
    DecidedValue { value: vec![v, v], certificate: vec![v, 0, v] }
}

#[test]
fn decided_value_is_read_back() {
    let db = open_store();
    assert!(db.get_decided_value(Height(3)).unwrap().is_none());
    db.insert_decided_value(Height(3), decided(3)).unwrap();
    let got = db.get_decided_value(Height(3)).unwrap().expect("stored");
    assert_eq!(got.value, vec![3, 3]);
    assert_eq!(got.certificate, vec![3, 0, 3]);
    assert!(db.get_decided_value(Height(4)).unwrap().is_none());
}

#[test]
fn decided_value_is_replaced() {
    let db = open_store();
    db.insert_decided_value(Height(1), decided(1)).unwrap();
    db.insert_decided_value(Height(1), decided(9)).unwrap();
    let got = db.get_decided_value(Height(1)).unwrap().expect("stored");
    assert_eq!(got.value, vec![9, 9]);
}

#[test]
fn decided_value_without_certificate_is_not_found() {
    let database = memory_database();
    let tx = database.begin_write().unwrap();
    {
        let def: redb::TableDefinition<u64, Vec<u8>> = redb::TableDefinition::new("decided_values");
        let mut table = tx.open_table(def).unwrap();
        table.insert(5u64, vec![1u8, 2]).unwrap();
    }
    tx.commit().unwrap();
    let db = Db::new(database);
    db.create_tables().unwrap();
    assert!(db.get_decided_value(Height(5)).unwrap().is_none());
    assert_eq!(db.min_decided_value_height(), Some(Height(5)));
}

#[test]
fn undecided_proposal_is_read_back_at_its_round() {
    let db = open_store();
    db.insert_undecided_proposal(Height(2), Round::Defined(1), vec![42]).unwrap();
    db.insert_undecided_proposal(Height(2), Round::Nil, vec![7]).unwrap();
    assert_eq!(db.get_undecided_proposal(Height(2), Round::Defined(1)).unwrap(), Some(vec![42]));
    assert_eq!(db.get_undecided_proposal(Height(2), Round::Nil).unwrap(), Some(vec![7]));
    assert_eq!(db.get_undecided_proposal(Height(2), Round::Defined(0)).unwrap(), None);
    assert_eq!(db.get_undecided_proposal(Height(3), Round::Defined(1)).unwrap(), None);
}

#[test]
fn reads_before_tables_exist_fail_with_table_error() {
    let db = Db::new(memory_database());
    assert!(matches!(db.get_undecided_proposal(Height(1), Round::Nil), Err(StoreError::Table(_))));
    assert!(matches!(db.get_decided_value(Height(1)), Err(StoreError::Table(_))));
    assert_eq!(db.min_decided_value_height(), None);
}

#[test]
fn writes_create_missing_tables() {
    let db = Db::new(memory_database());
    db.insert_decided_value(Height(6), decided(6)).unwrap();
    assert!(db.get_decided_value(Height(6)).unwrap().is_some());
}

#[test]
fn min_height_is_least_decided_height() {
    let db = open_store();
    assert_eq!(db.min_decided_value_height(), None);
    db.insert_decided_value(Height(9), decided(9)).unwrap();
    db.insert_decided_value(Height(4), decided(4)).unwrap();
    db.insert_decided_value(Height(6), decided(6)).unwrap();
    assert_eq!(db.min_decided_value_height(), Some(Height(4)));
}

#[test]
fn prune_removes_everything_below_retain_height() {
    let db = open_store();
    for h in 1..=5u64 {
        db.insert_decided_value(Height(h), decided(h as u8)).unwrap();
    }
    db.insert_undecided_proposal(Height(2), Round::Defined(0), vec![2]).unwrap();
    db.insert_undecided_proposal(Height(2), Round::Nil, vec![2]).unwrap();
    db.insert_undecided_proposal(Height(3), Round::Nil, vec![3]).unwrap();
    db.insert_undecided_proposal(Height(3), Round::Defined(5), vec![35]).unwrap();

    let pruned = db.prune(Height(3)).unwrap();
    assert_eq!(pruned, vec![Height(1), Height(2)]);

    assert!(db.get_decided_value(Height(1)).unwrap().is_none());
    assert!(db.get_decided_value(Height(2)).unwrap().is_none());
    assert!(db.get_decided_value(Height(3)).unwrap().is_some());
    assert!(db.get_decided_value(Height(5)).unwrap().is_some());
    assert_eq!(db.min_decided_value_height(), Some(Height(3)));

    assert_eq!(db.get_undecided_proposal(Height(2), Round::Defined(0)).unwrap(), None);
    assert_eq!(db.get_undecided_proposal(Height(2), Round::Nil).unwrap(), None);
    assert_eq!(db.get_undecided_proposal(Height(3), Round::Nil).unwrap(), Some(vec![3]));
    assert_eq!(db.get_undecided_proposal(Height(3), Round::Defined(5)).unwrap(), Some(vec![35]));

    assert_eq!(db.prune(Height(3)).unwrap(), Vec::<Height>::new());
}

#[test]
fn prune_keeps_certificates_without_decided_value() {
    let database = memory_database();
    let tx = database.begin_write().unwrap();
    {
        let def: redb::TableDefinition<u64, Vec<u8>> = redb::TableDefinition::new("certificates");
        let mut table = tx.open_table(def).unwrap();
        table.insert(1u64, vec![1u8]).unwrap();
    }
    tx.commit().unwrap();
    let db = Db::new(database);
    db.create_tables().unwrap();
    // Only heights with a decided value are pruned and reported.
    assert_eq!(db.prune(Height(10)).unwrap(), Vec::<Height>::new());
}

use malachite_store::store::{
    decoded_decided_value, decoded_undecided_proposal, first_height_from_read, proposal_from_read,
};

fn decode_error() -> informalsystems_malachitebft_proto::Error {
    informalsystems_malachitebft_proto::Error::MissingField { type_url: String::from("t"), field: "f" }
}

#[test]
fn decided_value_that_does_not_decode_counts_as_absent() {
    let both: Option<(u8, u16)> =
        decoded_decided_value(Some(Ok::<u8, ()>(1)), Some(Ok::<u16, ()>(2)));
    assert_eq!(both, Some((1, 2)));
    assert_eq!(decoded_decided_value(Some(Err::<u8, ()>(())), Some(Ok::<u16, ()>(2))), None);
    assert_eq!(decoded_decided_value(Some(Ok::<u8, ()>(1)), Some(Err::<u16, ()>(()))), None);
    assert_eq!(decoded_decided_value(None::<Result<u8, ()>>, Some(Ok::<u16, ()>(2))), None);
}

#[test]
fn proposal_that_does_not_decode_is_a_protobuf_error() {
    assert!(matches!(decoded_undecided_proposal::<u8>(None), Ok(None)));
    assert!(matches!(decoded_undecided_proposal(Some(Ok(7u8))), Ok(Some(7))));
    assert!(matches!(
        decoded_undecided_proposal::<u8>(Some(Err(decode_error()))),
        Err(StoreError::Protobuf(_))
    ));
}

#[test]
fn failed_reads_count_as_nothing_found() {
    let failed = || redb::StorageError::Corrupted(String::from("page"));
    assert_eq!(proposal_from_read(Ok(Some(vec![1, 2]))), Some(vec![1, 2]));
    assert_eq!(proposal_from_read(Ok(None)), None);
    assert_eq!(proposal_from_read(Err(failed())), None);
    assert_eq!(first_height_from_read(Ok(Some(4))), Some(Height(4)));
    assert_eq!(first_height_from_read(Ok(None)), None);
    assert_eq!(first_height_from_read(Err(failed())), None);
}
