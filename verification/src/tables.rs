//! The parts of redb that the store uses, with what this crate takes for
//! granted of each. Tables are keyed either by a height (`u64`) or by a
//! height and a round (`(u64, i64)`, the round as a signed number), and hold
//! encoded bytes.

use vstd::prelude::*;

use redb::ReadableTable;

verus! {

#[verifier::external_type_specification]
#[verifier::external_body]
pub struct ExDatabase(redb::Database);

#[verifier::external_type_specification]
#[verifier::external_body]
pub struct ExWriteTransaction(redb::WriteTransaction);

#[verifier::external_type_specification]
#[verifier::external_body]
pub struct ExReadTransaction(redb::ReadTransaction);

/// A table keyed by height, open in a write transaction. (redb's table
/// type is generic over key and value traits that cannot be declared here,
/// so it is held in a field that Verus does not see.)
#[verifier::external_body]
pub struct HeightTable<'txn> {
    table: redb::Table<'txn, u64, Vec<u8>>,
}

/// A table keyed by height and round, open in a write transaction.
#[verifier::external_body]
pub struct RoundTable<'txn> {
    table: redb::Table<'txn, (u64, i64), Vec<u8>>,
}

/// A table keyed by height, open in a read transaction.
#[verifier::external_body]
pub struct HeightSnapshot {
    table: redb::ReadOnlyTable<u64, Vec<u8>>,
}

/// A table keyed by height and round, open in a read transaction.
#[verifier::external_body]
pub struct RoundSnapshot {
    table: redb::ReadOnlyTable<(u64, i64), Vec<u8>>,
}

#[verifier::external_type_specification]
#[verifier::external_body]
pub struct ExStorageError(redb::StorageError);

#[verifier::external_type_specification]
#[verifier::external_body]
pub struct ExTableError(redb::TableError);

#[verifier::external_type_specification]
#[verifier::external_body]
pub struct ExTransactionError(redb::TransactionError);

#[verifier::external_type_specification]
#[verifier::external_body]
pub struct ExCommitError(redb::CommitError);

#[verifier::external_type_specification]
#[verifier::external_body]
pub struct ExDatabaseError(redb::DatabaseError);

#[verifier::external_type_specification]
#[verifier::external_body]
pub struct ExProtoError(informalsystems_malachitebft_proto::Error);

#[verifier::external_type_specification]
#[verifier::external_body]
pub struct ExJoinError(tokio::task::JoinError);

/// What a table keyed by height holds, inside a write transaction.
pub uninterp spec fn height_entries(table: HeightTable) -> Map<u64, Seq<u8>>;

/// What a table keyed by height holds, as a read transaction sees it.
pub uninterp spec fn height_snapshot_entries(table: HeightSnapshot) -> Map<
    u64,
    Seq<u8>,
>;

/// What a table keyed by height and round holds, inside a write transaction.
pub uninterp spec fn round_entries(table: RoundTable) -> Map<
    (u64, i64),
    Seq<u8>,
>;

/// What a table keyed by height and round holds, as a read transaction sees it.
pub uninterp spec fn round_snapshot_entries(table: RoundSnapshot) -> Map<
    (u64, i64),
    Seq<u8>,
>;

/// The name of the table that a table keyed by height, open in a write
/// transaction, was opened under.
pub uninterp spec fn height_table_name(table: HeightTable) -> Seq<char>;

/// The name of the table that a table keyed by height and round, open in a
/// write transaction, was opened under.
pub uninterp spec fn round_table_name(table: RoundTable) -> Seq<char>;

/// The name of the table that a table keyed by height, open in a read
/// transaction, was opened under.
pub uninterp spec fn height_snapshot_name(table: HeightSnapshot) -> Seq<char>;

/// The name of the table that a table keyed by height and round, open in a
/// read transaction, was opened under.
pub uninterp spec fn round_snapshot_name(table: RoundSnapshot) -> Seq<char>;

/// Whether a write transaction was begun on the database `db`.
pub uninterp spec fn write_transaction_on(tx: redb::WriteTransaction, db: redb::Database) -> bool;

/// Whether a read transaction was begun on the database `db`.
pub uninterp spec fn read_transaction_on(tx: redb::ReadTransaction, db: redb::Database) -> bool;

/// Whether a table keyed by height was opened in the write transaction `tx`.
pub uninterp spec fn height_table_in(table: HeightTable, tx: redb::WriteTransaction) -> bool;

/// Whether a table keyed by height and round was opened in the write
/// transaction `tx`.
pub uninterp spec fn round_table_in(table: RoundTable, tx: redb::WriteTransaction) -> bool;

/// What the table named `name`, keyed by height, holds in the snapshot of
/// the database that a read transaction captured when it began.
pub uninterp spec fn committed_heights(tx: redb::ReadTransaction, name: Seq<char>) -> Map<
    u64,
    Seq<u8>,
>;

/// What the table named `name`, keyed by height and round, holds in the
/// snapshot of the database that a read transaction captured.
pub uninterp spec fn committed_rounds(tx: redb::ReadTransaction, name: Seq<char>) -> Map<
    (u64, i64),
    Seq<u8>,
>;

/// The order of redb on height-and-round keys: by height, then by round.
pub open spec fn round_key_lt(a: (u64, i64), b: (u64, i64)) -> bool {
    a.0 < b.0 || (a.0 == b.0 && a.1 < b.1)
}

/// What reading the range below `bound` of a table holding `m`, keyed by
/// height, gives: the table's keys below `bound` in ascending order and
/// without gaps, each item read or, for the last item only, an error that
/// ended the range.
pub open spec fn height_range_items(
    m: Map<u64, Seq<u8>>,
    items: Seq<Result<u64, redb::StorageError>>,
    bound: u64,
) -> bool {
    &&& forall|i: int|
        0 <= i < items.len() && (#[trigger] items[i]) is Ok ==> {
            &&& m.contains_key(items[i]->Ok_0)
            &&& items[i]->Ok_0 < bound
        }
    &&& forall|i: int, j: int|
        0 <= i < j < items.len() && (#[trigger] items[i]) is Ok && (#[trigger] items[j]) is Ok
            ==> items[i]->Ok_0 < items[j]->Ok_0
    &&& forall|i: int| 0 <= i < items.len() - 1 ==> (#[trigger] items[i]) is Ok
    &&& forall|k: u64|
        #[trigger] m.contains_key(k) && k < bound ==> {
            ||| exists|i: int|
                0 <= i < items.len() && #[trigger] items[i] == Ok::<
                    u64,
                    redb::StorageError,
                >(k)
            ||| {
                &&& items.len() > 0
                &&& items.last() is Err
                &&& forall|i: int|
                    0 <= i < items.len() && (#[trigger] items[i]) is Ok ==> items[i]->Ok_0
                        < k
            }
        }
}

/// What reading the range below `bound` of a table holding `m`, keyed by
/// height and round, gives; as for `height_range_items`, in redb's order.
pub open spec fn round_range_items(
    m: Map<(u64, i64), Seq<u8>>,
    items: Seq<Result<(u64, i64), redb::StorageError>>,
    bound: (u64, i64),
) -> bool {
    &&& forall|i: int|
        0 <= i < items.len() && (#[trigger] items[i]) is Ok ==> {
            &&& m.contains_key(items[i]->Ok_0)
            &&& round_key_lt(items[i]->Ok_0, bound)
        }
    &&& forall|i: int, j: int|
        0 <= i < j < items.len() && (#[trigger] items[i]) is Ok && (#[trigger] items[j]) is Ok
            ==> round_key_lt(items[i]->Ok_0, items[j]->Ok_0)
    &&& forall|i: int| 0 <= i < items.len() - 1 ==> (#[trigger] items[i]) is Ok
    &&& forall|k: (u64, i64)|
        #[trigger] m.contains_key(k) && round_key_lt(k, bound) ==> {
            ||| exists|i: int|
                0 <= i < items.len() && #[trigger] items[i] == Ok::<
                    (u64, i64),
                    redb::StorageError,
                >(k)
            ||| {
                &&& items.len() > 0
                &&& items.last() is Err
                &&& forall|i: int|
                    0 <= i < items.len() && (#[trigger] items[i]) is Ok ==> round_key_lt(
                        items[i]->Ok_0,
                        k,
                    )
            }
        }
}

/// `Database::begin_write`: starts a write transaction on `db`, or fails;
/// nothing is claimed of which.
#[verifier::external_body]
pub(crate) fn begin_write(db: &redb::Database) -> (tx: Result<
    redb::WriteTransaction,
    redb::TransactionError,
>)
    ensures
        tx matches Ok(t) ==> write_transaction_on(t, *db),
{
    db.begin_write()
}

/// `Database::begin_read`: starts a read transaction on `db`, capturing a
/// snapshot of what is committed, or fails; nothing is claimed of which.
#[verifier::external_body]
pub(crate) fn begin_read(db: &redb::Database) -> (tx: Result<
    redb::ReadTransaction,
    redb::TransactionError,
>)
    ensures
        tx matches Ok(t) ==> read_transaction_on(t, *db),
{
    db.begin_read()
}

/// `WriteTransaction::commit`: makes the transaction's writes durable, or
/// fails; nothing is claimed of which.
#[verifier::external_body]
pub(crate) fn commit(tx: redb::WriteTransaction) -> (r: Result<(), redb::CommitError>) {
    tx.commit()
}

/// `WriteTransaction::open_table` for a table keyed by height, created if it
/// does not exist; the table is the one named `name`, which must not be
/// empty (`TableDefinition::new` asserts it). Nothing is claimed of what it
/// holds: that is on disk.
#[verifier::external_body]
pub(crate) fn open_height_table<'txn>(tx: &'txn redb::WriteTransaction, name: &str) -> (table:
    Result<HeightTable<'txn>, redb::TableError>)
    requires
        name@.len() > 0,
    ensures
        table matches Ok(t) ==> height_table_name(t) == name@ && height_table_in(t, *tx),
{
    match tx.open_table(redb::TableDefinition::<u64, Vec<u8>>::new(name)) {
        Ok(table) => Ok(HeightTable { table }),
        Err(e) => Err(e),
    }
}

/// `WriteTransaction::open_table` for a table keyed by height and round;
/// as for `open_height_table`.
#[verifier::external_body]
pub(crate) fn open_round_table<'txn>(tx: &'txn redb::WriteTransaction, name: &str) -> (table:
    Result<RoundTable<'txn>, redb::TableError>)
    requires
        name@.len() > 0,
    ensures
        table matches Ok(t) ==> round_table_name(t) == name@ && round_table_in(t, *tx),
{
    match tx.open_table(redb::TableDefinition::<(u64, i64), Vec<u8>>::new(name)) {
        Ok(table) => Ok(RoundTable { table }),
        Err(e) => Err(e),
    }
}

/// `ReadTransaction::open_table` for a table keyed by height; fails when the
/// table does not exist. The table is the one named `name` (not empty), as
/// the transaction's snapshot holds it.
#[verifier::external_body]
pub(crate) fn open_height_snapshot(tx: &redb::ReadTransaction, name: &str) -> (table: Result<
    HeightSnapshot,
    redb::TableError,
>)
    requires
        name@.len() > 0,
    ensures
        table matches Ok(t) ==> {
            &&& height_snapshot_name(t) == name@
            &&& height_snapshot_entries(t) == committed_heights(*tx, name@)
        },
{
    match tx.open_table(redb::TableDefinition::<u64, Vec<u8>>::new(name)) {
        Ok(table) => Ok(HeightSnapshot { table }),
        Err(e) => Err(e),
    }
}

/// `ReadTransaction::open_table` for a table keyed by height and round; as
/// for `open_height_snapshot`.
#[verifier::external_body]
pub(crate) fn open_round_snapshot(tx: &redb::ReadTransaction, name: &str) -> (table: Result<
    RoundSnapshot,
    redb::TableError,
>)
    requires
        name@.len() > 0,
    ensures
        table matches Ok(t) ==> {
            &&& round_snapshot_name(t) == name@
            &&& round_snapshot_entries(t) == committed_rounds(*tx, name@)
        },
{
    match tx.open_table(redb::TableDefinition::<(u64, i64), Vec<u8>>::new(name)) {
        Ok(table) => Ok(RoundSnapshot { table }),
        Err(e) => Err(e),
    }
}

/// `Table::insert` on a table keyed by height: when it succeeds, `key` maps
/// to `value` and every other entry is as it was.
#[verifier::external_body]
pub(crate) fn height_insert(table: &mut HeightTable, key: u64, value: Vec<u8>) -> (r:
    Result<(), redb::StorageError>)
    ensures
        height_table_name(*final(table)) == height_table_name(*old(table)),
        forall|tx: redb::WriteTransaction|
            height_table_in(*final(table), tx) == height_table_in(*old(table), tx),
        r is Ok ==> height_entries(*final(table)) == height_entries(*old(table)).insert(key, value@),
{
    match table.table.insert(key, value) {
        Ok(_) => Ok(()),
        Err(e) => Err(e),
    }
}

/// `Table::insert` on a table keyed by height and round.
#[verifier::external_body]
pub(crate) fn round_insert(
    table: &mut RoundTable,
    key: (u64, i64),
    value: Vec<u8>,
) -> (r: Result<(), redb::StorageError>)
    ensures
        round_table_name(*final(table)) == round_table_name(*old(table)),
        forall|tx: redb::WriteTransaction|
            round_table_in(*final(table), tx) == round_table_in(*old(table), tx),
        r is Ok ==> round_entries(*final(table)) == round_entries(*old(table)).insert(key, value@),
{
    match table.table.insert(key, value) {
        Ok(_) => Ok(()),
        Err(e) => Err(e),
    }
}

/// `Table::remove` on a table keyed by height: when it succeeds, `key` no
/// longer maps to anything and every other entry is as it was.
#[verifier::external_body]
pub(crate) fn height_remove(table: &mut HeightTable, key: u64) -> (r: Result<
    (),
    redb::StorageError,
>)
    ensures
        height_table_name(*final(table)) == height_table_name(*old(table)),
        forall|tx: redb::WriteTransaction|
            height_table_in(*final(table), tx) == height_table_in(*old(table), tx),
        r is Ok ==> height_entries(*final(table)) == height_entries(*old(table)).remove(key),
{
    match table.table.remove(key) {
        Ok(_) => Ok(()),
        Err(e) => Err(e),
    }
}

/// `Table::remove` on a table keyed by height and round.
#[verifier::external_body]
pub(crate) fn round_remove(table: &mut RoundTable, key: (u64, i64)) -> (r:
    Result<(), redb::StorageError>)
    ensures
        round_table_name(*final(table)) == round_table_name(*old(table)),
        forall|tx: redb::WriteTransaction|
            round_table_in(*final(table), tx) == round_table_in(*old(table), tx),
        r is Ok ==> round_entries(*final(table)) == round_entries(*old(table)).remove(key),
{
    match table.table.remove(key) {
        Ok(_) => Ok(()),
        Err(e) => Err(e),
    }
}

/// `ReadableTable::range(..bound)` on a table keyed by height, each item's
/// key read out. The keys read are the table's keys below `bound`, in
/// ascending order and without gaps; an item that cannot be read is an
/// error, and it ends the range (redb's range iterator stops after an
/// error). So when no item is an error, every key below `bound` is read.
#[verifier::external_body]
pub(crate) fn height_keys_below(table: &HeightTable, bound: u64) -> (r: Result<
    Vec<Result<u64, redb::StorageError>>,
    redb::StorageError,
>)
    ensures
        r matches Ok(items) ==> height_range_items(height_entries(*table), items@, bound),
{
    let mut keys = Vec::new();
    for item in table.table.range(..bound)? {
        match item {
            Ok((key, _)) => keys.push(Ok(key.value())),
            Err(e) => keys.push(Err(e)),
        }
    }
    Ok(keys)
}

/// `ReadableTable::range(..bound)` on a table keyed by height and round, in
/// redb's order on such keys; as for `height_keys_below`.
#[verifier::external_body]
pub(crate) fn round_keys_below(table: &RoundTable, bound: (u64, i64)) -> (r:
    Result<Vec<Result<(u64, i64), redb::StorageError>>, redb::StorageError>)
    ensures
        r matches Ok(items) ==> round_range_items(round_entries(*table), items@, bound),
{
    let mut keys = Vec::new();
    for item in table.table.range(..bound)? {
        match item {
            Ok((key, _)) => keys.push(Ok(key.value())),
            Err(e) => keys.push(Err(e)),
        }
    }
    Ok(keys)
}

/// `ReadOnlyTable::get` on a table keyed by height: the value at `key`, or
/// none when the table has no such key.
#[verifier::external_body]
pub(crate) fn height_snapshot_get(table: &HeightSnapshot, key: u64) -> (r:
    Result<Option<Vec<u8>>, redb::StorageError>)
    ensures
        r matches Ok(found) ==> match found {
            Some(v) => height_snapshot_entries(*table).contains_key(key) && height_snapshot_entries(
                *table,
            )[key] == v@,
            None => !height_snapshot_entries(*table).contains_key(key),
        },
{
    match table.table.get(key)? {
        Some(guard) => Ok(Some(guard.value())),
        None => Ok(None),
    }
}

/// `ReadOnlyTable::get` on a table keyed by height and round.
#[verifier::external_body]
pub(crate) fn round_snapshot_get(table: &RoundSnapshot, key: (u64, i64)) -> (r:
    Result<Option<Vec<u8>>, redb::StorageError>)
    ensures
        r matches Ok(found) ==> match found {
            Some(v) => round_snapshot_entries(*table).contains_key(key) && round_snapshot_entries(
                *table,
            )[key] == v@,
            None => !round_snapshot_entries(*table).contains_key(key),
        },
{
    match table.table.get(key)? {
        Some(guard) => Ok(Some(guard.value())),
        None => Ok(None),
    }
}

/// `ReadableTable::first` on a table keyed by height, its key read out: the
/// least key of the table, or none when the table is empty.
#[verifier::external_body]
pub(crate) fn height_snapshot_first(table: &HeightSnapshot) -> (r: Result<
    Option<u64>,
    redb::StorageError,
>)
    ensures
        r matches Ok(first) ==> match first {
            Some(k) => {
                &&& height_snapshot_entries(*table).contains_key(k)
                &&& forall|j: u64| #[trigger]
                    height_snapshot_entries(*table).contains_key(j) ==> k <= j
            },
            None => height_snapshot_entries(*table).dom() == Set::<u64>::empty(),
        },
{
    match table.table.first()? {
        Some((key, _)) => Ok(Some(key.value())),
        None => Ok(None),
    }
}

} // verus!
