//! The store of decided values and undecided proposals. Three tables hold
//! encoded bytes: decided values and their commit certificates by height, and
//! undecided proposals by height and round. Encoding and decoding are the
//! caller's; the store keeps, finds and prunes the bytes.

use vstd::prelude::*;

use crate::tables::{
    begin_read, begin_write, commit, committed_heights, committed_rounds, height_entries, height_insert, height_keys_below,
    height_remove, height_snapshot_entries, height_snapshot_first, height_snapshot_get,
    height_range_items, height_snapshot_name, height_table_in, height_table_name, read_transaction_on,
    round_range_items, round_table_in, write_transaction_on, open_height_snapshot, open_height_table, open_round_snapshot, open_round_table, round_entries,
    round_insert, round_key_lt, round_snapshot_name, round_table_name, round_keys_below, round_remove, round_snapshot_entries,
    round_snapshot_get, HeightSnapshot, HeightTable, RoundSnapshot, RoundTable,
};
use crate::types::{Height, Round};

verus! {

/// A decided value with the certificate that commits it, both encoded. The
/// store neither encodes nor decodes them: the caller encodes what it
/// stores, and decides what to make of bytes read back that do not decode.
#[derive(Clone, Debug)]
pub struct DecidedValue {
    pub value: Vec<u8>,
    pub certificate: Vec<u8>,
}

/// Why a store operation failed.
#[derive(Debug)]
pub enum StoreError {
    Database(redb::DatabaseError),
    Storage(redb::StorageError),
    Table(redb::TableError),
    Commit(redb::CommitError),
    Transaction(redb::TransactionError),
    Protobuf(informalsystems_malachitebft_proto::Error),
    TaskJoin(tokio::task::JoinError),
}

/// The table of decided values, by height.
pub const DECIDED_VALUES_TABLE: &'static str = "decided_values";

/// The table of commit certificates, by height.
pub const CERTIFICATES_TABLE: &'static str = "certificates";

/// The table of undecided proposals, by height and round.
pub const UNDECIDED_PROPOSALS_TABLE: &'static str = "undecided_values";

/// The key of an undecided proposal: its height, then its round as a signed
/// number, so that keys order as (height, round) with `Nil` first.
pub open spec fn undecided_key(height: Height, round: Round) -> (u64, i64) {
    (height.0, round.spec_as_i64())
}

/// What the decided tables give for `height`: the value and the
/// certificate, when both are there.
pub open spec fn decided_lookup(
    values: Map<u64, Seq<u8>>,
    certificates: Map<u64, Seq<u8>>,
    height: u64,
) -> Option<(Seq<u8>, Seq<u8>)> {
    if values.contains_key(height) && certificates.contains_key(height) {
        Some((values[height], certificates[height]))
    } else {
        None
    }
}

/// The keys that `hs` names.
pub open spec fn height_set(hs: Seq<Height>) -> Set<u64> {
    Set::new(|k: u64| exists|i: int| 0 <= i < hs.len() && (#[trigger] hs[i]).0 == k)
}

/// `hs` holds, without gaps, the least keys of `m` below `below`: every key
/// of `m` below `below` that is at most some height of `hs` is in `hs`.
pub open spec fn height_prefix(m: Map<u64, Seq<u8>>, hs: Seq<Height>, below: u64) -> bool {
    forall|k: u64, i: int|
        #![trigger m.contains_key(k), hs[i]]
        m.contains_key(k) && k < below && 0 <= i < hs.len() && k <= hs[i].0 ==> height_set(
            hs,
        ).contains(k)
}

/// `keys` holds, without gaps, the least keys of `m` below `below`.
pub open spec fn round_prefix(
    m: Map<(u64, i64), Seq<u8>>,
    keys: Seq<(u64, i64)>,
    below: (u64, i64),
) -> bool {
    forall|k: (u64, i64), i: int|
        #![trigger m.contains_key(k), keys[i]]
        m.contains_key(k) && round_key_lt(k, below) && 0 <= i < keys.len() && !round_key_lt(
            keys[i],
            k,
        ) ==> keys.contains(k)
}

/// `hs` is in strictly ascending order.
pub open spec fn strictly_ascending(hs: Seq<Height>) -> bool {
    forall|i: int, j: int| 0 <= i < j < hs.len() ==> (#[trigger] hs[i]).0 < (#[trigger] hs[j]).0
}

/// `after` is `before` less some of its entries, all of them with keys below
/// `bound`.
pub open spec fn removed_only_below(
    before: Map<(u64, i64), Seq<u8>>,
    after: Map<(u64, i64), Seq<u8>>,
    bound: (u64, i64),
) -> bool {
    &&& forall|k: (u64, i64)| #[trigger]
        after.contains_key(k) ==> before.contains_key(k) && after[k] == before[k]
    &&& forall|k: (u64, i64)| #[trigger]
        before.contains_key(k) && !round_key_lt(k, bound) ==> after.contains_key(k)
}

/// The entries removed from `before` to give `after` are the least keys
/// below `bound`: every key below `bound` that was removed is smaller than
/// every key below `bound` that was kept.
pub open spec fn removed_least_below(
    before: Map<(u64, i64), Seq<u8>>,
    after: Map<(u64, i64), Seq<u8>>,
    bound: (u64, i64),
) -> bool {
    forall|kept: (u64, i64), gone: (u64, i64)|
        #![trigger after.contains_key(kept), after.contains_key(gone)]
        before.contains_key(kept) && before.contains_key(gone) && round_key_lt(kept, bound)
            && round_key_lt(gone, bound) && after.contains_key(kept) && !after.contains_key(gone)
            ==> round_key_lt(gone, kept)
}

/// What pruning below `retain_height` did to the three tables, given what
/// the range reads below the bounds gave (`undecided_items`,
/// `decided_items`): the undecided proposals read are removed, and the
/// decided heights read are removed from both decided tables and reported
/// as `pruned`.
pub open spec fn prune_effect_with(
    u0: Map<(u64, i64), Seq<u8>>,
    u1: Map<(u64, i64), Seq<u8>>,
    d0: Map<u64, Seq<u8>>,
    d1: Map<u64, Seq<u8>>,
    c0: Map<u64, Seq<u8>>,
    c1: Map<u64, Seq<u8>>,
    pruned: Seq<Height>,
    retain_height: Height,
    undecided_items: Seq<Result<(u64, i64), redb::StorageError>>,
    decided_items: Seq<Result<u64, redb::StorageError>>,
) -> bool {
    &&& round_range_items(u0, undecided_items, undecided_key(retain_height, Round::Nil))
    &&& u1 == u0.remove_keys(ok_values(undecided_items).to_set())
    &&& height_range_items(d0, decided_items, retain_height.0)
    &&& pruned == ok_values(decided_items).map_values(|k: u64| Height(k))
    &&& d1 == d0.remove_keys(height_set(pruned))
    &&& c1 == c0.remove_keys(height_set(pruned))
}

/// What pruning below `retain_height` did to the three tables, taking the
/// undecided proposals from `u0` to `u1`, the decided values from `d0` to
/// `d1` and the certificates from `c0` to `c1`, and reporting `pruned`: it
/// removed what range reads below the bounds gave (`prune_effect_with`), so
/// the heights removed are decided heights below `retain_height`, in
/// ascending order and without gaps, removed from both decided tables, and
/// the undecided proposals removed are the least ones keyed below
/// (`retain_height`, `Nil`).
pub open spec fn prune_effect(
    u0: Map<(u64, i64), Seq<u8>>,
    u1: Map<(u64, i64), Seq<u8>>,
    d0: Map<u64, Seq<u8>>,
    d1: Map<u64, Seq<u8>>,
    c0: Map<u64, Seq<u8>>,
    c1: Map<u64, Seq<u8>>,
    pruned: Seq<Height>,
    retain_height: Height,
) -> bool {
    &&& exists|
        ui: Seq<Result<(u64, i64), redb::StorageError>>,
        di: Seq<Result<u64, redb::StorageError>>,
    | #[trigger] prune_effect_with(u0, u1, d0, d1, c0, c1, pruned, retain_height, ui, di)
    &&& strictly_ascending(pruned)
    &&& forall|i: int|
        0 <= i < pruned.len() ==> d0.contains_key((#[trigger] pruned[i]).0) && pruned[i].0
            < retain_height.0
    &&& height_prefix(d0, pruned, retain_height.0)
    &&& d1 == d0.remove_keys(height_set(pruned))
    &&& c1 == c0.remove_keys(height_set(pruned))
    &&& removed_only_below(u0, u1, undecided_key(retain_height, Round::Nil))
    &&& removed_least_below(u0, u1, undecided_key(retain_height, Round::Nil))
}

/// When no range read of a prune failed, the prune removed every decided
/// value, certificate and undecided proposal below the retain height, and
/// reported every decided height below it.
pub proof fn lemma_prune_complete(
    u0: Map<(u64, i64), Seq<u8>>,
    u1: Map<(u64, i64), Seq<u8>>,
    d0: Map<u64, Seq<u8>>,
    d1: Map<u64, Seq<u8>>,
    c0: Map<u64, Seq<u8>>,
    c1: Map<u64, Seq<u8>>,
    pruned: Seq<Height>,
    retain_height: Height,
    undecided_items: Seq<Result<(u64, i64), redb::StorageError>>,
    decided_items: Seq<Result<u64, redb::StorageError>>,
)
    requires
        prune_effect_with(
            u0,
            u1,
            d0,
            d1,
            c0,
            c1,
            pruned,
            retain_height,
            undecided_items,
            decided_items,
        ),
        forall|i: int| 0 <= i < undecided_items.len() ==> (#[trigger] undecided_items[i]) is Ok,
        forall|i: int| 0 <= i < decided_items.len() ==> (#[trigger] decided_items[i]) is Ok,
    ensures
        forall|k: u64| #[trigger] height_set(pruned).contains(k) <==> (d0.contains_key(k) && k < retain_height.0),
        forall|k: u64| #[trigger] d1.contains_key(k) ==> k >= retain_height.0,
        forall|k: u64| c1.contains_key(k) && k < retain_height.0 ==> !#[trigger] d0.contains_key(k),
        forall|h: Height, r: Round|
            #[trigger] u1.contains_key(undecided_key(h, r)) ==> h.0 >= retain_height.0,
{
    let bound = undecided_key(retain_height, Round::Nil);
    lemma_complete_height_range(d0, decided_items, retain_height.0);
    lemma_complete_round_range(u0, undecided_items, bound);
    let ok = ok_values(decided_items);
    assert forall|k: u64| #[trigger] height_set(pruned).contains(k) <==> (d0.contains_key(k) && k
        < retain_height.0) by {
        if height_set(pruned).contains(k) {
            let i = choose|i: int| 0 <= i < pruned.len() && (#[trigger] pruned[i]).0 == k;
            assert(pruned[i] == Height(ok[i]));
            assert(ok.contains(k));
        }
        if d0.contains_key(k) && k < retain_height.0 {
            assert(ok.contains(k));
            let i = choose|i: int| 0 <= i < ok.len() && ok[i] == k;
            assert(pruned[i] == Height(ok[i]));
        }
    }
    assert forall|h: Height, r: Round| #[trigger] u1.contains_key(undecided_key(h, r)) implies h.0
        >= retain_height.0 by {
        lemma_prune_bound(h, r, retain_height);
        if h.0 < retain_height.0 {
            assert(ok_values(undecided_items).contains(undecided_key(h, r)));
        }
    }
}

/// What a read at `height` finds in decided tables holding `values` and
/// `certificates`: the pair when both hold the height, none otherwise.
pub open spec fn decided_found(
    found: Option<DecidedValue>,
    values: Map<u64, Seq<u8>>,
    certificates: Map<u64, Seq<u8>>,
    height: u64,
) -> bool {
    match found {
        Some(d) => decided_lookup(values, certificates, height) == Some(
            (d.value@, d.certificate@),
        ),
        None => decided_lookup(values, certificates, height) is None,
    }
}

/// The three table names are not empty and are distinct.
pub proof fn lemma_table_names()
    ensures
        DECIDED_VALUES_TABLE@.len() > 0,
        CERTIFICATES_TABLE@.len() > 0,
        UNDECIDED_PROPOSALS_TABLE@.len() > 0,
        DECIDED_VALUES_TABLE@ != CERTIFICATES_TABLE@,
{
    reveal_strlit("decided_values");
    reveal_strlit("certificates");
    reveal_strlit("undecided_values");
    assert(DECIDED_VALUES_TABLE@[0] != CERTIFICATES_TABLE@[0]);
}

/// A decided value as the store hands it back once both of its parts,
/// read from the tables, have been decoded: the pair when both were found
/// and both decode; none otherwise, so a part that does not decode counts
/// as absent.
pub fn decoded_decided_value<V, C, E, F>(
    value: Option<Result<V, E>>,
    certificate: Option<Result<C, F>>,
) -> (r: Option<(V, C)>)
    ensures
        r == match (value, certificate) {
            (Some(Ok(v)), Some(Ok(c))) => Some((v, c)),
            _ => None,
        },
{
    match (value, certificate) {
        (Some(Ok(v)), Some(Ok(c))) => Some((v, c)),
        _ => None,
    }
}

/// An undecided proposal as the store hands it back once its bytes, read
/// from the table, have been decoded: none when none was found, the
/// proposal when its bytes decode, and the decoding error, as a `Protobuf`
/// error, when they do not.
pub fn decoded_undecided_proposal<P>(
    found: Option<Result<P, informalsystems_malachitebft_proto::Error>>,
) -> (r: Result<Option<P>, StoreError>)
    ensures
        match found {
            None => r matches Ok(None),
            Some(Ok(p)) => r matches Ok(Some(q)) && q == p,
            Some(Err(e)) => r matches Err(StoreError::Protobuf(e2)) && e2 == e,
        },
{
    match found {
        None => Ok(None),
        Some(Ok(p)) => Ok(Some(p)),
        Some(Err(e)) => Err(StoreError::Protobuf(e)),
    }
}

/// Reads the decided value and certificate at `height`; the value is
/// found only when both are there.
pub fn read_decided_value(
    values: &HeightSnapshot,
    certificates: &HeightSnapshot,
    height: Height,
) -> (r: Result<Option<DecidedValue>, StoreError>)
    requires
        height_snapshot_name(*values) == DECIDED_VALUES_TABLE@,
        height_snapshot_name(*certificates) == CERTIFICATES_TABLE@,
    ensures
        match r {
            Ok(Some(d)) => decided_lookup(
                height_snapshot_entries(*values),
                height_snapshot_entries(*certificates),
                height.0,
            ) == Some((d.value@, d.certificate@)),
            Ok(None) => decided_lookup(
                height_snapshot_entries(*values),
                height_snapshot_entries(*certificates),
                height.0,
            ) is None,
            Err(e) => e is Storage,
        },
{
    let value = match height_snapshot_get(values, height.0) {
        Ok(v) => v,
        Err(e) => return Err(StoreError::Storage(e)),
    };
    let certificate = match height_snapshot_get(certificates, height.0) {
        Ok(c) => c,
        Err(e) => return Err(StoreError::Storage(e)),
    };
    match (value, certificate) {
        (Some(value), Some(certificate)) => Ok(Some(DecidedValue { value, certificate })),
        _ => Ok(None),
    }
}

/// Writes a decided value and its certificate at `height`, replacing what
/// was there.
pub fn write_decided_value(
    values: &mut HeightTable,
    certificates: &mut HeightTable,
    height: Height,
    decided_value: DecidedValue,
) -> (r: Result<(), StoreError>)
    requires
        height_table_name(*old(values)) == DECIDED_VALUES_TABLE@,
        height_table_name(*old(certificates)) == CERTIFICATES_TABLE@,
    ensures
        height_table_name(*final(values)) == DECIDED_VALUES_TABLE@,
        height_table_name(*final(certificates)) == CERTIFICATES_TABLE@,
        forall|tx: redb::WriteTransaction|
            height_table_in(*final(values), tx) == height_table_in(*old(values), tx),
        forall|tx: redb::WriteTransaction|
            height_table_in(*final(certificates), tx) == height_table_in(*old(certificates), tx),
        r is Ok ==> {
            &&& height_entries(*final(values)) == height_entries(*old(values)).insert(
                height.0,
                decided_value.value@,
            )
            &&& height_entries(*final(certificates)) == height_entries(*old(certificates)).insert(
                height.0,
                decided_value.certificate@,
            )
        },
        r matches Err(e) ==> e is Storage,
{
    let DecidedValue { value, certificate } = decided_value;
    match height_insert(values, height.0, value) {
        Ok(()) => {},
        Err(e) => return Err(StoreError::Storage(e)),
    }
    match height_insert(certificates, height.0, certificate) {
        Ok(()) => Ok(()),
        Err(e) => Err(StoreError::Storage(e)),
    }
}

/// Whether `read`, a lookup of `key` in a table holding `m`, agrees with
/// `m`: bytes found are the bytes stored under `key`, and nothing found
/// means that `key` is absent. A failed lookup says nothing of `m`.
pub open spec fn proposal_read_outcome(
    m: Map<(u64, i64), Seq<u8>>,
    key: (u64, i64),
    read: Result<Option<Vec<u8>>, redb::StorageError>,
) -> bool {
    read matches Ok(found) ==> match found {
        Some(v) => m.contains_key(key) && m[key] == v@,
        None => !m.contains_key(key),
    }
}

/// The proposal that a lookup yields: the bytes found, or none when none
/// were found or the lookup failed.
pub open spec fn proposal_found(read: Result<Option<Vec<u8>>, redb::StorageError>) -> Option<
    Vec<u8>,
> {
    match read {
        Ok(Some(bytes)) => Some(bytes),
        _ => None,
    }
}

/// A lookup that does not fail yields exactly what the table holds under
/// the key: the stored bytes when the key is present, none when it is
/// absent.
pub proof fn lemma_proposal_lookup_exact(
    m: Map<(u64, i64), Seq<u8>>,
    key: (u64, i64),
    found: Option<Vec<u8>>,
)
    requires
        proposal_read_outcome(m, key, Ok(found)),
    ensures
        m.contains_key(key) ==> (proposal_found(Ok(found)) matches Some(bytes) && bytes@ == m[key]),
        !m.contains_key(key) ==> proposal_found(Ok(found)) is None,
{
}

/// Reads the undecided proposal at `height` and `round`. A failed read
/// counts as no proposal.
pub fn read_undecided_proposal(table: &RoundSnapshot, height: Height, round: Round) -> (r: Option<
    Vec<u8>,
>)
    requires
        round_snapshot_name(*table) == UNDECIDED_PROPOSALS_TABLE@,
    ensures
        r matches Some(bytes) ==> {
            &&& round_snapshot_entries(*table).contains_key(undecided_key(height, round))
            &&& round_snapshot_entries(*table)[undecided_key(height, round)] == bytes@
        },
        !round_snapshot_entries(*table).contains_key(undecided_key(height, round)) ==> r is None,
        exists|read: Result<Option<Vec<u8>>, redb::StorageError>|
            #![trigger proposal_found(read)]
            {
                &&& proposal_read_outcome(
                    round_snapshot_entries(*table),
                    undecided_key(height, round),
                    read,
                )
                &&& r == proposal_found(read)
            },
{
    let read = round_snapshot_get(table, (height.0, round.as_i64()));
    proof {
        assert(undecided_key(height, round) == (height.0, round.as_i64()));
    }
    proposal_from_read(read)
}

/// What a read of an undecided proposal gives: the bytes read, or none
/// when there were none or the read failed.
pub fn proposal_from_read(read: Result<Option<Vec<u8>>, redb::StorageError>) -> (r: Option<Vec<u8>>)
    ensures
        r == proposal_found(read),
{
    match read {
        Ok(Some(bytes)) => Some(bytes),
        _ => None,
    }
}

/// Writes an undecided proposal at `height` and `round`, replacing what was
/// there.
pub fn write_undecided_proposal(
    table: &mut RoundTable,
    height: Height,
    round: Round,
    proposal: Vec<u8>,
) -> (r: Result<(), StoreError>)
    requires
        round_table_name(*old(table)) == UNDECIDED_PROPOSALS_TABLE@,
    ensures
        round_table_name(*final(table)) == UNDECIDED_PROPOSALS_TABLE@,
        forall|tx: redb::WriteTransaction|
            round_table_in(*final(table), tx) == round_table_in(*old(table), tx),
        r is Ok ==> round_entries(*final(table)) == round_entries(*old(table)).insert(
            undecided_key(height, round),
            proposal@,
        ),
        r matches Err(e) ==> e is Storage,
{
    match round_insert(table, (height.0, round.as_i64()), proposal) {
        Ok(()) => Ok(()),
        Err(e) => Err(StoreError::Storage(e)),
    }
}


/// The keys of the items that could be read, in their order.
pub open spec fn ok_values<K>(items: Seq<Result<K, redb::StorageError>>) -> Seq<K>
    decreases items.len(),
{
    if items.len() == 0 {
        Seq::empty()
    } else {
        match items.last() {
            Ok(k) => ok_values(items.drop_last()).push(k),
            Err(_) => ok_values(items.drop_last()),
        }
    }
}

/// Where each key of `ok_values(items)` comes from: `idx[j]` is the position
/// of the item that key `j` was read from, and positions ascend.
proof fn lemma_ok_values_index<K>(items: Seq<Result<K, redb::StorageError>>) -> (idx: Seq<int>)
    ensures
        idx.len() == ok_values(items).len(),
        forall|j: int|
            0 <= j < idx.len() ==> 0 <= #[trigger] idx[j] < items.len() && items[idx[j]] is Ok
                && items[idx[j]]->Ok_0 == ok_values(items)[j],
        forall|a: int, b: int| 0 <= a < b < idx.len() ==> #[trigger] idx[a] < #[trigger] idx[b],
        forall|m: int|
            0 <= m < items.len() && (#[trigger] items[m]) is Ok ==> ok_values(items).contains(
                items[m]->Ok_0,
            ),
    decreases items.len(),
{
    if items.len() == 0 {
        Seq::empty()
    } else {
        let prev = items.drop_last();
        let pidx = lemma_ok_values_index(prev);
        let n = items.len() - 1;
        let pok = ok_values(prev);
        assert forall|m: int| 0 <= m < n implies #[trigger] items[m] == prev[m] by {}
        match items.last() {
            Ok(k) => {
                let idx = pidx.push(n);
                let ok = ok_values(items);
                assert(ok == pok.push(k));
                assert forall|m: int| 0 <= m < items.len() && (#[trigger] items[m]) is Ok implies ok.contains(
                    items[m]->Ok_0,
                ) by {
                    if m < n {
                        assert(prev[m] == items[m]);
                        let j = choose|j: int| 0 <= j < pok.len() && pok[j] == prev[m]->Ok_0;
                        assert(ok[j] == pok[j]);
                    } else {
                        assert(ok[pok.len() as int] == k);
                    }
                }
                assert forall|j: int| 0 <= j < idx.len() implies 0 <= #[trigger] idx[j] < items.len()
                    && items[idx[j]] is Ok && items[idx[j]]->Ok_0 == ok[j] by {
                    if j < pidx.len() {
                        assert(idx[j] == pidx[j]);
                        assert(items[pidx[j]] == prev[pidx[j]]);
                    }
                }
                idx
            },
            Err(_) => {
                assert(ok_values(items) == pok);
                assert forall|m: int| 0 <= m < items.len() && (#[trigger] items[m]) is Ok implies pok.contains(
                    items[m]->Ok_0,
                ) by {
                    assert(prev[m] == items[m]);
                }
                assert forall|j: int| 0 <= j < pidx.len() implies 0 <= #[trigger] pidx[j] < items.len()
                    && items[pidx[j]] is Ok && items[pidx[j]]->Ok_0 == pok[j] by {
                    assert(items[pidx[j]] == prev[pidx[j]]);
                }
                pidx
            },
        }
    }
}

/// When no item of a range read of a table keyed by height failed, the
/// keys read are exactly the table's keys below the bound.
pub proof fn lemma_complete_height_range(
    m: Map<u64, Seq<u8>>,
    items: Seq<Result<u64, redb::StorageError>>,
    bound: u64,
)
    requires
        height_range_items(m, items, bound),
        forall|i: int| 0 <= i < items.len() ==> (#[trigger] items[i]) is Ok,
    ensures
        forall|k: u64| (m.contains_key(k) && k < bound) <==> #[trigger] ok_values(items).contains(k),
{
    let idx = lemma_ok_values_index(items);
    let ok = ok_values(items);
    assert forall|k: u64| (m.contains_key(k) && k < bound) <==> #[trigger] ok.contains(k) by {
        if m.contains_key(k) && k < bound {
            if items.len() > 0 {
                assert(items[items.len() - 1] is Ok);
            }
            let t = choose|t: int| 0 <= t < items.len() && #[trigger] items[t] == Ok::<u64, redb::StorageError>(k);
            assert(items[t] is Ok);
        }
        if ok.contains(k) {
            let j = choose|j: int| 0 <= j < ok.len() && ok[j] == k;
            assert(items[idx[j]] is Ok);
        }
    }
}

/// When no item of a range read of a table keyed by height and round
/// failed, the keys read are exactly the table's keys below the bound.
pub proof fn lemma_complete_round_range(
    m: Map<(u64, i64), Seq<u8>>,
    items: Seq<Result<(u64, i64), redb::StorageError>>,
    bound: (u64, i64),
)
    requires
        round_range_items(m, items, bound),
        forall|i: int| 0 <= i < items.len() ==> (#[trigger] items[i]) is Ok,
    ensures
        forall|k: (u64, i64)|
            (m.contains_key(k) && round_key_lt(k, bound)) <==> #[trigger] ok_values(items).contains(k),
{
    let idx = lemma_ok_values_index(items);
    let ok = ok_values(items);
    assert forall|k: (u64, i64)| (m.contains_key(k) && round_key_lt(k, bound)) <==> #[trigger] ok.contains(
        k,
    ) by {
        if m.contains_key(k) && round_key_lt(k, bound) {
            if items.len() > 0 {
                assert(items[items.len() - 1] is Ok);
            }
            let t = choose|t: int|
                0 <= t < items.len() && #[trigger] items[t] == Ok::<(u64, i64), redb::StorageError>(k);
            assert(items[t] is Ok);
        }
        if ok.contains(k) {
            let j = choose|j: int| 0 <= j < ok.len() && ok[j] == k;
            assert(items[idx[j]] is Ok);
        }
    }
}

/// The heights of the items that could be read, in their order.
pub fn ok_heights(items: &Vec<Result<u64, redb::StorageError>>) -> (hs: Vec<Height>)
    ensures
        hs@ == ok_values(items@).map_values(|k: u64| Height(k)),
{
    let mut hs: Vec<Height> = Vec::new();
    let mut i: usize = 0;
    assert(items@.take(0) =~= Seq::<Result<u64, redb::StorageError>>::empty());
    while i < items.len()
        invariant
            i <= items@.len(),
            hs@ == ok_values(items@.take(i as int)).map_values(|k: u64| Height(k)),
        decreases items@.len() - i,
    {
        let ghost prev = items@.take(i as int);
        assert(items@.take(i + 1).drop_last() =~= prev);
        assert(items@.take(i + 1).last() == items@[i as int]);
        match &items[i] {
            Ok(key) => {
                hs.push(Height(*key));
            },
            Err(_) => {},
        }
        assert(hs@ =~= ok_values(items@.take(i + 1)).map_values(|k: u64| Height(k)));
        i = i + 1;
    }
    assert(items@.take(items@.len() as int) =~= items@);
    hs
}

/// The height-and-round keys of the items that could be read, in their
/// order.
pub fn ok_round_keys(items: &Vec<Result<(u64, i64), redb::StorageError>>) -> (keys: Vec<(u64, i64)>)
    ensures
        keys@ == ok_values(items@),
{
    let mut keys: Vec<(u64, i64)> = Vec::new();
    let mut i: usize = 0;
    assert(items@.take(0) =~= Seq::<Result<(u64, i64), redb::StorageError>>::empty());
    while i < items.len()
        invariant
            i <= items@.len(),
            keys@ == ok_values(items@.take(i as int)),
        decreases items@.len() - i,
    {
        let ghost prev = items@.take(i as int);
        assert(items@.take(i + 1).drop_last() =~= prev);
        assert(items@.take(i + 1).last() == items@[i as int]);
        match &items[i] {
            Ok(key) => {
                keys.push(*key);
            },
            Err(_) => {},
        }
        assert(keys@ =~= ok_values(items@.take(i + 1)));
        i = i + 1;
    }
    assert(items@.take(items@.len() as int) =~= items@);
    keys
}

/// The heights of `table` below `below`, in ascending order and without
/// gaps. Keys that could not be read are passed over; since an unreadable
/// key ends redb's range, what is returned is the least keys below `below`
/// up to the first that could not be read.
pub fn height_range(table: &HeightTable, below: Height) -> (r: Result<Vec<Height>, StoreError>)
    ensures
        r matches Ok(hs) ==> {
            &&& strictly_ascending(hs@)
            &&& forall|i: int|
                0 <= i < hs@.len() ==> height_entries(*table).contains_key((#[trigger] hs@[i]).0)
                    && hs@[i].0 < below.0
            &&& height_prefix(height_entries(*table), hs@, below.0)
            &&& exists|items: Seq<Result<u64, redb::StorageError>>|
                #[trigger] height_range_items(height_entries(*table), items, below.0) && hs@
                    == ok_values(items).map_values(|k: u64| Height(k))
        },
        r matches Err(e) ==> e is Storage,
{
    let items = match height_keys_below(table, below.0) {
        Ok(items) => items,
        Err(e) => return Err(StoreError::Storage(e)),
    };
    let hs = ok_heights(&items);
    proof {
        assert(height_range_items(height_entries(*table), items@, below.0));
        let idx = lemma_ok_values_index(items@);
        let ok = ok_values(items@);
        let m0 = height_entries(*table);
        assert forall|j: int| 0 <= j < hs@.len() implies #[trigger] hs@[j] == Height(ok[j]) by {}
        assert forall|a: int, b: int| 0 <= a < b < hs@.len() implies (#[trigger] hs@[a]).0 < (
        #[trigger] hs@[b]).0 by {
            assert(idx[a] < idx[b]);
            assert(items@[idx[a]] is Ok && items@[idx[b]] is Ok);
            assert(hs@[a] == Height(ok[a]) && hs@[b] == Height(ok[b]));
        }
        assert forall|j: int| 0 <= j < hs@.len() implies m0.contains_key((#[trigger] hs@[j]).0)
            && hs@[j].0 < below.0 by {
            assert(items@[idx[j]] is Ok);
            assert(hs@[j] == Height(ok[j]));
        }
        assert forall|k: u64, j: int|
            #![trigger m0.contains_key(k), hs@[j]]
            m0.contains_key(k) && k < below.0 && 0 <= j < hs@.len() && k <= hs@[j].0 implies height_set(
            hs@,
        ).contains(k) by {
            let mj = idx[j];
            assert(hs@[j] == Height(ok[j]));
            if exists|t: int|
                0 <= t < items@.len() && #[trigger] items@[t] == Ok::<u64, redb::StorageError>(k) {
                let t = choose|t: int|
                    0 <= t < items@.len() && #[trigger] items@[t] == Ok::<u64, redb::StorageError>(k);
                assert(items@[t] is Ok);
                assert(ok.contains(k));
                let w = choose|w: int| 0 <= w < ok.len() && ok[w] == k;
                assert(hs@[w] == Height(ok[w]));
            } else {
                assert(items@[mj] is Ok);
                assert(items@[mj]->Ok_0 < k);
            }
        }
    }
    Ok(hs)
}

/// The undecided-proposal keys of `table` below `below`, in ascending order
/// and without gaps; as for `height_range`, keys that could not be read are
/// passed over.
pub fn undecided_proposals_range(table: &RoundTable, below: (u64, i64)) -> (r: Result<
    Vec<(u64, i64)>,
    StoreError,
>)
    ensures
        r matches Ok(keys) ==> {
            &&& forall|i: int, j: int|
                0 <= i < j < keys@.len() ==> round_key_lt(#[trigger] keys@[i], #[trigger] keys@[j])
            &&& forall|i: int|
                0 <= i < keys@.len() ==> round_entries(*table).contains_key(#[trigger] keys@[i])
                    && round_key_lt(keys@[i], below)
            &&& round_prefix(round_entries(*table), keys@, below)
            &&& exists|items: Seq<Result<(u64, i64), redb::StorageError>>|
                #[trigger] round_range_items(round_entries(*table), items, below) && keys@
                    == ok_values(items)
        },
        r matches Err(e) ==> e is Storage,
{
    let items = match round_keys_below(table, below) {
        Ok(items) => items,
        Err(e) => return Err(StoreError::Storage(e)),
    };
    let keys = ok_round_keys(&items);
    proof {
        assert(round_range_items(round_entries(*table), items@, below));
        let idx = lemma_ok_values_index(items@);
        let m0 = round_entries(*table);
        assert forall|a: int, b: int| 0 <= a < b < keys@.len() implies round_key_lt(
            #[trigger] keys@[a],
            #[trigger] keys@[b],
        ) by {
            assert(idx[a] < idx[b]);
            assert(items@[idx[a]] is Ok && items@[idx[b]] is Ok);
        }
        assert forall|j: int| 0 <= j < keys@.len() implies m0.contains_key(#[trigger] keys@[j])
            && round_key_lt(keys@[j], below) by {
            assert(items@[idx[j]] is Ok);
        }
        assert forall|k: (u64, i64), j: int|
            #![trigger m0.contains_key(k), keys@[j]]
            m0.contains_key(k) && round_key_lt(k, below) && 0 <= j < keys@.len() && !round_key_lt(
                keys@[j],
                k,
            ) implies keys@.contains(k) by {
            let mj = idx[j];
            if exists|t: int|
                0 <= t < items@.len() && #[trigger] items@[t] == Ok::<(u64, i64), redb::StorageError>(k) {
                let t = choose|t: int|
                    0 <= t < items@.len() && #[trigger] items@[t] == Ok::<(u64, i64), redb::StorageError>(k);
                assert(items@[t] is Ok);
            } else {
                assert(items@[mj] is Ok);
                assert(round_key_lt(items@[mj]->Ok_0, k));
            }
        }
    }
    Ok(keys)
}

/// Removes what lies below `retain_height`: the undecided proposals keyed
/// below (`retain_height`, `Nil`), and the decided values below
/// `retain_height` together with the certificates at their heights. Returns
/// the heights of the decided values removed, in ascending order. A key
/// that cannot be read ends a table's range, so in each table what is
/// removed is always the least keys below the bound, without gaps.
pub fn prune_tables(
    undecided: &mut RoundTable,
    decided: &mut HeightTable,
    certificates: &mut HeightTable,
    retain_height: Height,
) -> (r: Result<Vec<Height>, StoreError>)
    requires
        round_table_name(*old(undecided)) == UNDECIDED_PROPOSALS_TABLE@,
        height_table_name(*old(decided)) == DECIDED_VALUES_TABLE@,
        height_table_name(*old(certificates)) == CERTIFICATES_TABLE@,
    ensures
        round_table_name(*final(undecided)) == UNDECIDED_PROPOSALS_TABLE@,
        height_table_name(*final(decided)) == DECIDED_VALUES_TABLE@,
        height_table_name(*final(certificates)) == CERTIFICATES_TABLE@,
        forall|tx: redb::WriteTransaction|
            round_table_in(*final(undecided), tx) == round_table_in(*old(undecided), tx),
        forall|tx: redb::WriteTransaction|
            height_table_in(*final(decided), tx) == height_table_in(*old(decided), tx),
        forall|tx: redb::WriteTransaction|
            height_table_in(*final(certificates), tx) == height_table_in(*old(certificates), tx),
        r matches Ok(pruned) ==> prune_effect(
            round_entries(*old(undecided)),
            round_entries(*final(undecided)),
            height_entries(*old(decided)),
            height_entries(*final(decided)),
            height_entries(*old(certificates)),
            height_entries(*final(certificates)),
            pruned@,
            retain_height,
        ),
        r matches Err(e) ==> e is Storage,
{
    let bound = (retain_height.0, Round::Nil.as_i64());
    let keys = undecided_proposals_range(undecided, bound)?;
    let ghost undecided0 = round_entries(*undecided);
    let ghost ui = choose|items: Seq<Result<(u64, i64), redb::StorageError>>|
        #[trigger] round_range_items(undecided0, items, bound) && keys@ == ok_values(items);
    let mut i: usize = 0;
    while i < keys.len()
        invariant
            i <= keys@.len(),
            forall|j: int| 0 <= j < keys@.len() ==> round_key_lt(#[trigger] keys@[j], bound),
            round_entries(*undecided) == undecided0.remove_keys(keys@.take(i as int).to_set()),
            round_table_name(*undecided) == UNDECIDED_PROPOSALS_TABLE@,
            height_table_name(*decided) == DECIDED_VALUES_TABLE@,
            height_table_name(*certificates) == CERTIFICATES_TABLE@,
            forall|tx: redb::WriteTransaction|
                round_table_in(*undecided, tx) == round_table_in(*old(undecided), tx),
            forall|tx: redb::WriteTransaction|
                height_table_in(*decided, tx) == height_table_in(*old(decided), tx),
            forall|tx: redb::WriteTransaction|
                height_table_in(*certificates, tx) == height_table_in(*old(certificates), tx),
        decreases keys@.len() - i,
    {
        match round_remove(undecided, keys[i]) {
            Ok(()) => {},
            Err(e) => return Err(StoreError::Storage(e)),
        }
        proof {
            let next = keys@.take(i + 1);
            let prev = keys@.take(i as int);
            assert(next.to_set() =~= prev.to_set().insert(keys@[i as int])) by {
                assert(next[i as int] == keys@[i as int]);
                assert forall|k: (u64, i64)| next.to_set().contains(k) implies prev.to_set().insert(
                    keys@[i as int],
                ).contains(k) by {
                    let a = choose|a: int| 0 <= a < next.len() && next[a] == k;
                    if a < i {
                        assert(prev[a] == next[a]);
                    }
                }
                assert forall|k: (u64, i64)| prev.to_set().insert(keys@[i as int]).contains(
                    k,
                ) implies next.to_set().contains(k) by {
                    if k != keys@[i as int] {
                        let a = choose|a: int| 0 <= a < prev.len() && prev[a] == k;
                        assert(next[a] == prev[a]);
                    } else {
                        assert(next[i as int] == k);
                    }
                }
            }
            assert(round_entries(*undecided) =~= undecided0.remove_keys(next.to_set()));
        }
        i = i + 1;
    }
    proof {
        assert(keys@.take(keys@.len() as int) =~= keys@);
        let after = round_entries(*undecided);
        assert forall|k: (u64, i64)| #[trigger]
            after.contains_key(k) implies undecided0.contains_key(k) && after[k] == undecided0[k] by {}
        assert forall|k: (u64, i64)| #[trigger]
            undecided0.contains_key(k) && !round_key_lt(k, bound) implies after.contains_key(k) by {
            if keys@.contains(k) {
                let a = choose|a: int| 0 <= a < keys@.len() && keys@[a] == k;
                assert(round_key_lt(keys@[a], bound));
            }
        }
        assert forall|kept: (u64, i64), gone: (u64, i64)|
            #![trigger after.contains_key(kept), after.contains_key(gone)]
            undecided0.contains_key(kept) && undecided0.contains_key(gone) && round_key_lt(
                kept,
                bound,
            ) && round_key_lt(gone, bound) && after.contains_key(kept) && !after.contains_key(
                gone,
            ) implies round_key_lt(gone, kept) by {
            assert(keys@.to_set().contains(gone));
            let t = choose|t: int| 0 <= t < keys@.len() && keys@[t] == gone;
            assert(!keys@.contains(kept));
            if !round_key_lt(gone, kept) {
                assert(undecided0.contains_key(kept) && round_key_lt(kept, bound) && 0 <= t
                    < keys@.len() && !round_key_lt(keys@[t], kept));
                assert(keys@.contains(kept));
            }
        }
    }
    let heights = height_range(decided, retain_height)?;
    let ghost decided0 = height_entries(*decided);
    let ghost di = choose|items: Seq<Result<u64, redb::StorageError>>|
        #[trigger] height_range_items(decided0, items, retain_height.0) && heights@ == ok_values(
            items,
        ).map_values(|k: u64| Height(k));
    let ghost certificates0 = height_entries(*certificates);
    let mut i: usize = 0;
    while i < heights.len()
        invariant
            i <= heights@.len(),
            height_entries(*decided) == decided0.remove_keys(height_set(heights@.take(i as int))),
            height_entries(*certificates) == certificates0.remove_keys(
                height_set(heights@.take(i as int)),
            ),
            round_table_name(*undecided) == UNDECIDED_PROPOSALS_TABLE@,
            height_table_name(*decided) == DECIDED_VALUES_TABLE@,
            height_table_name(*certificates) == CERTIFICATES_TABLE@,
            forall|tx: redb::WriteTransaction|
                round_table_in(*undecided, tx) == round_table_in(*old(undecided), tx),
            forall|tx: redb::WriteTransaction|
                height_table_in(*decided, tx) == height_table_in(*old(decided), tx),
            forall|tx: redb::WriteTransaction|
                height_table_in(*certificates, tx) == height_table_in(*old(certificates), tx),
        decreases heights@.len() - i,
    {
        let h = heights[i].0;
        match height_remove(decided, h) {
            Ok(()) => {},
            Err(e) => return Err(StoreError::Storage(e)),
        }
        match height_remove(certificates, h) {
            Ok(()) => {},
            Err(e) => return Err(StoreError::Storage(e)),
        }
        proof {
            let next = heights@.take(i + 1);
            let prev = heights@.take(i as int);
            assert(height_set(next) =~= height_set(prev).insert(h)) by {
                assert(next[i as int] == heights@[i as int]);
                assert forall|k: u64| height_set(next).contains(k) implies height_set(prev).insert(
                    h,
                ).contains(k) by {
                    let a = choose|a: int| 0 <= a < next.len() && (#[trigger] next[a]).0 == k;
                    if a < i {
                        assert(prev[a] == next[a]);
                    }
                }
                assert forall|k: u64| height_set(prev).insert(h).contains(k) implies height_set(
                    next,
                ).contains(k) by {
                    if k != h {
                        let a = choose|a: int| 0 <= a < prev.len() && (#[trigger] prev[a]).0 == k;
                        assert(next[a] == prev[a]);
                    }
                }
            }
            assert(height_entries(*decided) =~= decided0.remove_keys(height_set(next)));
            assert(height_entries(*certificates) =~= certificates0.remove_keys(height_set(next)));
        }
        i = i + 1;
    }
    assert(heights@.take(heights@.len() as int) =~= heights@);
    assert(prune_effect_with(
        undecided0,
        round_entries(*undecided),
        decided0,
        height_entries(*decided),
        certificates0,
        height_entries(*certificates),
        heights@,
        retain_height,
        ui,
        di,
    ));
    Ok(heights)
}

/// Whether `read`, a read of the least key of a table holding `m`, agrees
/// with `m`: a key found is the least key of `m`, and nothing found means
/// that `m` is empty. A failed read says nothing of `m`.
pub open spec fn first_read_outcome(
    m: Map<u64, Seq<u8>>,
    read: Result<Option<u64>, redb::StorageError>,
) -> bool {
    read matches Ok(first) ==> match first {
        Some(k) => m.contains_key(k) && forall|j: u64| #[trigger] m.contains_key(j) ==> k <= j,
        None => m.dom() == Set::<u64>::empty(),
    }
}

/// The height that a read of a table's least key yields: the key found, or
/// none when none was found or the read failed.
pub open spec fn first_height_found(read: Result<Option<u64>, redb::StorageError>) -> Option<
    Height,
> {
    match read {
        Ok(Some(key)) => Some(Height(key)),
        _ => None,
    }
}

/// The least height of `table`, or none when it is empty or cannot be read.
pub fn first_height(table: &HeightSnapshot) -> (r: Option<Height>)
    requires
        height_snapshot_name(*table) == DECIDED_VALUES_TABLE@,
    ensures
        r matches Some(h) ==> {
            &&& height_snapshot_entries(*table).contains_key(h.0)
            &&& forall|k: u64| #[trigger] height_snapshot_entries(*table).contains_key(k) ==> h.0 <= k
        },
        height_snapshot_entries(*table).dom() == Set::<u64>::empty() ==> r is None,
        exists|read: Result<Option<u64>, redb::StorageError>|
            #![trigger first_height_found(read)]
            {
                &&& first_read_outcome(height_snapshot_entries(*table), read)
                &&& r == first_height_found(read)
            },
{
    first_height_from_read(height_snapshot_first(table))
}

/// What a read of a table's least key gives: that height, or none when the
/// table is empty or the read failed.
pub fn first_height_from_read(read: Result<Option<u64>, redb::StorageError>) -> (r: Option<Height>)
    ensures
        r == first_height_found(read),
{
    match read {
        Ok(Some(key)) => Some(Height(key)),
        _ => None,
    }
}

/// Whether `begun`, `opened` and `read` are outcomes that the three steps of
/// a lookup of the least decided height can have on `db`: beginning a read
/// transaction, opening the decided-values table in it once it has begun,
/// and reading that table's least key once it is open.
pub open spec fn min_height_outcome(
    db: redb::Database,
    begun: Result<redb::ReadTransaction, redb::TransactionError>,
    opened: Option<Result<HeightSnapshot, redb::TableError>>,
    read: Option<Result<Option<u64>, redb::StorageError>>,
) -> bool {
    match begun {
        Ok(tx) => {
            &&& read_transaction_on(tx, db)
            &&& opened is Some
            &&& match opened {
                Some(Ok(t)) => {
                    &&& height_snapshot_entries(t) == committed_heights(tx, DECIDED_VALUES_TABLE@)
                    &&& read matches Some(x) && first_read_outcome(height_snapshot_entries(t), x)
                },
                _ => read is None,
            }
        },
        Err(_) => opened is None && read is None,
    }
}

/// The least decided height that a lookup with these step outcomes gives:
/// what the read of the least key yields, or none when a step before it
/// failed.
pub open spec fn min_height_result(
    begun: Result<redb::ReadTransaction, redb::TransactionError>,
    opened: Option<Result<HeightSnapshot, redb::TableError>>,
    read: Option<Result<Option<u64>, redb::StorageError>>,
) -> Option<Height> {
    match (begun, opened, read) {
        (Ok(_), Some(Ok(_)), Some(x)) => first_height_found(x),
        _ => None,
    }
}

/// Once the read transaction has begun, the decided-values table is open and
/// its least key has been read without failure, a lookup on a snapshot that
/// holds a decided value at `k` gives the least decided height of that
/// snapshot, which is at most `k`.
pub proof fn lemma_min_height_of_nonempty(
    db: redb::Database,
    tx: redb::ReadTransaction,
    table: HeightSnapshot,
    first: Option<u64>,
    k: u64,
)
    requires
        min_height_outcome(db, Ok(tx), Some(Ok(table)), Some(Ok(first))),
        committed_heights(tx, DECIDED_VALUES_TABLE@).contains_key(k),
    ensures
        min_height_result(Ok(tx), Some(Ok(table)), Some(Ok(first))) matches Some(h) && {
            &&& committed_heights(tx, DECIDED_VALUES_TABLE@).contains_key(h.0)
            &&& h.0 <= k
            &&& forall|j: u64|
                #[trigger] committed_heights(tx, DECIDED_VALUES_TABLE@).contains_key(j) ==> h.0 <= j
        },
{
    if first is None {
        assert(height_snapshot_entries(table).dom().contains(k));
    }
}

/// A decided value written at a height is what a read at that height gives
/// back, and a write at one height leaves what reads give at every other
/// height as it was.
pub proof fn lemma_decided_read_after_write(
    values: Map<u64, Seq<u8>>,
    certificates: Map<u64, Seq<u8>>,
    height: Height,
    value: Seq<u8>,
    certificate: Seq<u8>,
)
    ensures
        decided_lookup(
            values.insert(height.0, value),
            certificates.insert(height.0, certificate),
            height.0,
        ) == Some((value, certificate)),
        forall|other: u64|
            other != height.0 ==> #[trigger] decided_lookup(
                values.insert(height.0, value),
                certificates.insert(height.0, certificate),
                other,
            ) == decided_lookup(values, certificates, other),
{
}

/// Writing a decided value keeps the two decided tables holding the same
/// heights: the value and its certificate are written at one height.
pub proof fn lemma_write_keeps_same_heights(
    values: Map<u64, Seq<u8>>,
    certificates: Map<u64, Seq<u8>>,
    height: Height,
    value: Seq<u8>,
    certificate: Seq<u8>,
)
    requires
        values.dom() == certificates.dom(),
    ensures
        values.insert(height.0, value).dom() == certificates.insert(height.0, certificate).dom(),
{
}

/// Pruning keeps the two decided tables holding the same heights: the
/// heights removed from one are removed from the other.
pub proof fn lemma_prune_keeps_same_heights(
    u0: Map<(u64, i64), Seq<u8>>,
    u1: Map<(u64, i64), Seq<u8>>,
    d0: Map<u64, Seq<u8>>,
    d1: Map<u64, Seq<u8>>,
    c0: Map<u64, Seq<u8>>,
    c1: Map<u64, Seq<u8>>,
    pruned: Seq<Height>,
    retain_height: Height,
)
    requires
        d0.dom() == c0.dom(),
        prune_effect(u0, u1, d0, d1, c0, c1, pruned, retain_height),
    ensures
        d1.dom() == c1.dom(),
{
    assert(d1.dom() =~= c1.dom());
}

/// Distinct (height, round) pairs have distinct keys, so an undecided
/// proposal written at one height and round is read back there and nowhere
/// else.
pub proof fn lemma_undecided_key_injective(h1: Height, r1: Round, h2: Height, r2: Round)
    ensures
        undecided_key(h1, r1) == undecided_key(h2, r2) <==> (h1 == h2 && r1 == r2),
{
}

/// An undecided proposal lies below the prune bound (`retain_height`,
/// `Nil`) exactly when its height is below `retain_height`, whatever its
/// round.
pub proof fn lemma_prune_bound(height: Height, round: Round, retain_height: Height)
    ensures
        round_key_lt(undecided_key(height, round), undecided_key(retain_height, Round::Nil))
            <==> height.0 < retain_height.0,
{
}

/// Pruning keeps every decided value and certificate at or above the retain
/// height, and every undecided proposal at or above it, whatever its round.
pub proof fn lemma_prune_keeps_retained(
    decided: Map<u64, Seq<u8>>,
    pruned: Seq<Height>,
    undecided_before: Map<(u64, i64), Seq<u8>>,
    undecided_after: Map<(u64, i64), Seq<u8>>,
    retain_height: Height,
)
    requires
        forall|i: int| 0 <= i < pruned.len() ==> (#[trigger] pruned[i]).0 < retain_height.0,
        removed_only_below(
            undecided_before,
            undecided_after,
            undecided_key(retain_height, Round::Nil),
        ),
    ensures
        forall|h: u64|
            h >= retain_height.0 && #[trigger] decided.contains_key(h) ==> decided.remove_keys(
                height_set(pruned),
            ).contains_key(h) && decided.remove_keys(height_set(pruned))[h] == decided[h],
        forall|h: Height, r: Round|
            h.0 >= retain_height.0 && #[trigger] undecided_before.contains_key(undecided_key(h, r))
                ==> undecided_after.contains_key(undecided_key(h, r)) && undecided_after[undecided_key(
                h,
                r,
            )] == undecided_before[undecided_key(h, r)],
{
    assert forall|h: u64| h >= retain_height.0 && #[trigger] decided.contains_key(h) implies !height_set(
        pruned,
    ).contains(h) by {
        if height_set(pruned).contains(h) {
            let i = choose|i: int| 0 <= i < pruned.len() && (#[trigger] pruned[i]).0 == h;
        }
    }
    assert forall|h: Height, r: Round|
        h.0 >= retain_height.0 && #[trigger] undecided_before.contains_key(
            undecided_key(h, r),
        ) implies undecided_after.contains_key(undecided_key(h, r)) && undecided_after[undecided_key(
        h,
        r,
    )] == undecided_before[undecided_key(h, r)] by {
        lemma_prune_bound(h, r, retain_height);
        assert(undecided_after.contains_key(undecided_key(h, r)));
    }
}

/// The database behind the store.
pub struct Db {
    db: redb::Database,
}

impl Db {
    /// The database that the store keeps its tables in.
    pub closed spec fn database(&self) -> redb::Database {
        self.db
    }

    /// A store over `db`.
    pub fn new(db: redb::Database) -> (store: Self)
        ensures
            store.database() == db,
    {
        Db { db }
    }

    /// The decided value at `height` with its certificate, when both are
    /// stored: what the two decided tables hold in the snapshot that the
    /// read transaction captured. The bytes are handed back as stored; their
    /// decoding is the caller's.
    pub fn get_decided_value(&self, height: Height) -> (r: Result<Option<DecidedValue>, StoreError>)
        ensures
            r matches Ok(found) ==> exists|tx: redb::ReadTransaction|
                #![trigger committed_heights(tx, DECIDED_VALUES_TABLE@)]
                read_transaction_on(tx, self.database()) && decided_found(
                    found,
                    committed_heights(tx, DECIDED_VALUES_TABLE@),
                    committed_heights(tx, CERTIFICATES_TABLE@),
                    height.0,
                ),
            r matches Err(e) ==> e is Transaction || e is Table || e is Storage,
    {
        proof {
            lemma_table_names();
        }
        let tx = match begin_read(&self.db) {
            Ok(tx) => tx,
            Err(e) => return Err(StoreError::Transaction(e)),
        };
        let values = match open_height_snapshot(&tx, DECIDED_VALUES_TABLE) {
            Ok(t) => t,
            Err(e) => return Err(StoreError::Table(e)),
        };
        let certificates = match open_height_snapshot(&tx, CERTIFICATES_TABLE) {
            Ok(t) => t,
            Err(e) => return Err(StoreError::Table(e)),
        };
        let r = read_decided_value(&values, &certificates, height);
        proof {
            if r is Ok {
                assert(decided_found(
                    r->Ok_0,
                    committed_heights(tx, DECIDED_VALUES_TABLE@),
                    committed_heights(tx, CERTIFICATES_TABLE@),
                    height.0,
                ));
            }
        }
        r
    }

    /// Stores a decided value and its certificate at `height`, in one
    /// transaction: the value goes to the decided-values table and the
    /// certificate to the certificates table. The bytes are stored as
    /// given; their encoding, and taking `height` from the certificate, are
    /// the caller's.
    pub fn insert_decided_value(&self, height: Height, decided_value: DecidedValue) -> (r: Result<
        (),
        StoreError,
    >)
        ensures
            r is Ok ==> exists|
                tx: redb::WriteTransaction,
                d0: HeightTable,
                d1: HeightTable,
                c0: HeightTable,
                c1: HeightTable,
            |
                #![trigger write_transaction_on(tx, self.database()), height_entries(d0), height_entries(d1), height_entries(c0), height_entries(c1)]
                {
                    &&& write_transaction_on(tx, self.database())
                    &&& height_table_in(d0, tx) && height_table_in(d1, tx)
                    &&& height_table_in(c0, tx) && height_table_in(c1, tx)
                    &&& height_table_name(d0) == DECIDED_VALUES_TABLE@
                    &&& height_table_name(d1) == DECIDED_VALUES_TABLE@
                    &&& height_table_name(c0) == CERTIFICATES_TABLE@
                    &&& height_table_name(c1) == CERTIFICATES_TABLE@
                    &&& height_entries(d1) == height_entries(d0).insert(
                        height.0,
                        decided_value.value@,
                    )
                    &&& height_entries(c1) == height_entries(c0).insert(
                        height.0,
                        decided_value.certificate@,
                    )
                },
            r matches Err(e) ==> e is Transaction || e is Table || e is Storage || e is Commit,
    {
        proof {
            lemma_table_names();
        }
        let ghost dv = decided_value;
        let tx = match begin_write(&self.db) {
            Ok(tx) => tx,
            Err(e) => return Err(StoreError::Transaction(e)),
        };
        let ghost wtx = tx;
        assert(write_transaction_on(wtx, self.database()));
        {
            let mut values = match open_height_table(&tx, DECIDED_VALUES_TABLE) {
                Ok(t) => t,
                Err(e) => return Err(StoreError::Table(e)),
            };
            let mut certificates = match open_height_table(&tx, CERTIFICATES_TABLE) {
                Ok(t) => t,
                Err(e) => return Err(StoreError::Table(e)),
            };
            let ghost d0 = values;
            let ghost c0 = certificates;
            write_decided_value(&mut values, &mut certificates, height, decided_value)?;
            assert(height_table_in(d0, wtx) && height_table_in(values, wtx));
            assert(height_table_in(c0, wtx) && height_table_in(certificates, wtx));
            assert(height_entries(values) == height_entries(d0).insert(height.0, dv.value@));
            assert(height_entries(certificates) == height_entries(c0).insert(
                height.0,
                dv.certificate@,
            ));
        }
        match commit(tx) {
            Ok(()) => Ok(()),
            Err(e) => Err(StoreError::Commit(e)),
        }
    }

    /// The undecided proposal at `height` and `round`, as stored, when one
    /// is in the read transaction's snapshot and can be read; its decoding is
    /// the caller's.
    pub fn get_undecided_proposal(&self, height: Height, round: Round) -> (r: Result<
        Option<Vec<u8>>,
        StoreError,
    >)
        ensures
            r matches Ok(Some(bytes)) ==> exists|tx: redb::ReadTransaction|
                #![trigger committed_rounds(tx, UNDECIDED_PROPOSALS_TABLE@)]
                {
                    &&& read_transaction_on(tx, self.database())
                    &&& committed_rounds(tx, UNDECIDED_PROPOSALS_TABLE@).contains_key(
                        undecided_key(height, round),
                    )
                    &&& committed_rounds(tx, UNDECIDED_PROPOSALS_TABLE@)[undecided_key(height, round)]
                        == bytes@
                },
            r matches Ok(found) ==> exists|
                tx: redb::ReadTransaction,
                read: Result<Option<Vec<u8>>, redb::StorageError>,
            |
                #![trigger committed_rounds(tx, UNDECIDED_PROPOSALS_TABLE@), proposal_found(read)]
                {
                    &&& read_transaction_on(tx, self.database())
                    &&& proposal_read_outcome(
                        committed_rounds(tx, UNDECIDED_PROPOSALS_TABLE@),
                        undecided_key(height, round),
                        read,
                    )
                    &&& found == proposal_found(read)
                },
            r matches Err(e) ==> e is Transaction || e is Table,
    {
        proof {
            lemma_table_names();
        }
        let tx = match begin_read(&self.db) {
            Ok(tx) => tx,
            Err(e) => return Err(StoreError::Transaction(e)),
        };
        let table = match open_round_snapshot(&tx, UNDECIDED_PROPOSALS_TABLE) {
            Ok(t) => t,
            Err(e) => return Err(StoreError::Table(e)),
        };
        let found = read_undecided_proposal(&table, height, round);
        proof {
            assert(committed_rounds(tx, UNDECIDED_PROPOSALS_TABLE@) == round_snapshot_entries(table));
        }
        Ok(found)
    }

    /// Stores an undecided proposal, as encoded by the caller, at `height`
    /// and `round` in the undecided-proposals table.
    pub fn insert_undecided_proposal(&self, height: Height, round: Round, proposal: Vec<u8>) -> (r:
        Result<(), StoreError>)
        ensures
            r is Ok ==> exists|tx: redb::WriteTransaction, u0: RoundTable, u1: RoundTable|
                #![trigger write_transaction_on(tx, self.database()), round_entries(u0), round_entries(u1)]
                {
                    &&& write_transaction_on(tx, self.database())
                    &&& round_table_in(u0, tx) && round_table_in(u1, tx)
                    &&& round_table_name(u0) == UNDECIDED_PROPOSALS_TABLE@
                    &&& round_table_name(u1) == UNDECIDED_PROPOSALS_TABLE@
                    &&& round_entries(u1) == round_entries(u0).insert(
                        undecided_key(height, round),
                        proposal@,
                    )
                },
            r matches Err(e) ==> e is Transaction || e is Table || e is Storage || e is Commit,
    {
        proof {
            lemma_table_names();
        }
        let ghost bytes = proposal@;
        let tx = match begin_write(&self.db) {
            Ok(tx) => tx,
            Err(e) => return Err(StoreError::Transaction(e)),
        };
        let ghost wtx = tx;
        assert(write_transaction_on(wtx, self.database()));
        {
            let mut table = match open_round_table(&tx, UNDECIDED_PROPOSALS_TABLE) {
                Ok(t) => t,
                Err(e) => return Err(StoreError::Table(e)),
            };
            let ghost u0 = table;
            write_undecided_proposal(&mut table, height, round, proposal)?;
            assert(round_table_in(u0, wtx) && round_table_in(table, wtx));
            assert(round_entries(table) == round_entries(u0).insert(undecided_key(height, round), bytes));
        }
        match commit(tx) {
            Ok(()) => Ok(()),
            Err(e) => Err(StoreError::Commit(e)),
        }
    }

    /// Removes, in one transaction, the undecided proposals below
    /// (`retain_height`, `Nil`) and the decided values and certificates
    /// below `retain_height`; returns the heights of the decided values
    /// removed, in ascending order. A write transaction that cannot be begun
    /// is a transaction error.
    pub fn prune(&self, retain_height: Height) -> (r: Result<Vec<Height>, StoreError>)
        ensures
            r matches Ok(pruned) ==> exists|
                tx: redb::WriteTransaction,
                u0: RoundTable,
                u1: RoundTable,
                d0: HeightTable,
                d1: HeightTable,
                c0: HeightTable,
                c1: HeightTable,
            |
                #![trigger write_transaction_on(tx, self.database()), round_entries(u0), round_entries(u1), height_entries(d0), height_entries(d1), height_entries(c0), height_entries(c1)]
                {
                    &&& write_transaction_on(tx, self.database())
                    &&& round_table_in(u0, tx) && round_table_in(u1, tx)
                    &&& height_table_in(d0, tx) && height_table_in(d1, tx)
                    &&& height_table_in(c0, tx) && height_table_in(c1, tx)
                    &&& round_table_name(u0) == UNDECIDED_PROPOSALS_TABLE@
                    &&& height_table_name(d0) == DECIDED_VALUES_TABLE@
                    &&& height_table_name(c0) == CERTIFICATES_TABLE@
                    &&& prune_effect(
                        round_entries(u0),
                        round_entries(u1),
                        height_entries(d0),
                        height_entries(d1),
                        height_entries(c0),
                        height_entries(c1),
                        pruned@,
                        retain_height,
                    )
                },
            r matches Err(e) ==> e is Transaction || e is Table || e is Storage || e is Commit,
    {
        proof {
            lemma_table_names();
        }
        let tx = match begin_write(&self.db) {
            Ok(tx) => tx,
            Err(e) => return Err(StoreError::Transaction(e)),
        };
        let ghost wtx = tx;
        assert(write_transaction_on(wtx, self.database()));
        let pruned = {
            let mut undecided = match open_round_table(&tx, UNDECIDED_PROPOSALS_TABLE) {
                Ok(t) => t,
                Err(e) => return Err(StoreError::Table(e)),
            };
            let mut decided = match open_height_table(&tx, DECIDED_VALUES_TABLE) {
                Ok(t) => t,
                Err(e) => return Err(StoreError::Table(e)),
            };
            let mut certificates = match open_height_table(&tx, CERTIFICATES_TABLE) {
                Ok(t) => t,
                Err(e) => return Err(StoreError::Table(e)),
            };
            let ghost u0 = undecided;
            let ghost d0 = decided;
            let ghost c0 = certificates;
            let pruned = prune_tables(&mut undecided, &mut decided, &mut certificates, retain_height)?;
            assert(round_table_in(u0, wtx) && round_table_in(undecided, wtx));
            assert(height_table_in(d0, wtx) && height_table_in(decided, wtx));
            assert(height_table_in(c0, wtx) && height_table_in(certificates, wtx));
            assert(prune_effect(
                round_entries(u0),
                round_entries(undecided),
                height_entries(d0),
                height_entries(decided),
                height_entries(c0),
                height_entries(certificates),
                pruned@,
                retain_height,
            ));
            pruned
        };
        match commit(tx) {
            Ok(()) => Ok(pruned),
            Err(e) => Err(StoreError::Commit(e)),
        }
    }

    /// The least height that has a decided value in the read transaction's
    /// snapshot; none when there is none, when it cannot be read, or when the
    /// read transaction or the table cannot be opened.
    pub fn min_decided_value_height(&self) -> (r: Option<Height>)
        ensures
            r matches Some(h) ==> exists|tx: redb::ReadTransaction|
                #![trigger committed_heights(tx, DECIDED_VALUES_TABLE@)]
                {
                    &&& read_transaction_on(tx, self.database())
                    &&& committed_heights(tx, DECIDED_VALUES_TABLE@).contains_key(h.0)
                    &&& forall|k: u64|
                        #[trigger] committed_heights(tx, DECIDED_VALUES_TABLE@).contains_key(k)
                            ==> h.0 <= k
                },
            exists|
                begun: Result<redb::ReadTransaction, redb::TransactionError>,
                opened: Option<Result<HeightSnapshot, redb::TableError>>,
                read: Option<Result<Option<u64>, redb::StorageError>>,
            |
                #![trigger min_height_result(begun, opened, read)]
                {
                    &&& min_height_outcome(self.database(), begun, opened, read)
                    &&& r == min_height_result(begun, opened, read)
                },
    {
        proof {
            lemma_table_names();
        }
        let begun = begin_read(&self.db);
        let tx = match begun {
            Ok(tx) => tx,
            Err(e) => {
                proof {
                    let ghost opened = None::<Result<HeightSnapshot, redb::TableError>>;
                    let ghost read = None::<Result<Option<u64>, redb::StorageError>>;
                    assert(min_height_outcome(self.database(), Err(e), opened, read));
                    assert(min_height_result(Err(e), opened, read) is None);
                }
                return None;
            },
        };
        let opened = open_height_snapshot(&tx, DECIDED_VALUES_TABLE);
        let table = match opened {
            Ok(t) => t,
            Err(e) => {
                proof {
                    let ghost read = None::<Result<Option<u64>, redb::StorageError>>;
                    assert(min_height_outcome(self.database(), Ok(tx), Some(Err(e)), read));
                    assert(min_height_result(Ok(tx), Some(Err(e)), read) is None);
                }
                return None;
            },
        };
        let r = first_height(&table);
        proof {
            assert(committed_heights(tx, DECIDED_VALUES_TABLE@) == height_snapshot_entries(table));
            let read = choose|read: Result<Option<u64>, redb::StorageError>|
                #![trigger first_height_found(read)]
                {
                    &&& first_read_outcome(height_snapshot_entries(table), read)
                    &&& r == first_height_found(read)
                };
            assert(min_height_outcome(self.database(), Ok(tx), Some(Ok(table)), Some(read)));
            assert(min_height_result(Ok(tx), Some(Ok(table)), Some(read)) == r);
        }
        r
    }

    /// Creates the three tables where they do not exist yet.
    pub fn create_tables(&self) -> (r: Result<(), StoreError>)
        ensures
            r is Ok ==> exists|tx: redb::WriteTransaction, d: HeightTable, c: HeightTable, u: RoundTable|
                #![trigger write_transaction_on(tx, self.database()), height_table_name(d), height_table_name(c), round_table_name(u)]
                {
                    &&& write_transaction_on(tx, self.database())
                    &&& height_table_in(d, tx) && height_table_in(c, tx) && round_table_in(u, tx)
                    &&& height_table_name(d) == DECIDED_VALUES_TABLE@
                    &&& height_table_name(c) == CERTIFICATES_TABLE@
                    &&& round_table_name(u) == UNDECIDED_PROPOSALS_TABLE@
                },
            r matches Err(e) ==> e is Transaction || e is Table || e is Commit,
    {
        proof {
            lemma_table_names();
        }
        let tx = match begin_write(&self.db) {
            Ok(tx) => tx,
            Err(e) => return Err(StoreError::Transaction(e)),
        };
        let ghost wtx = tx;
        assert(write_transaction_on(wtx, self.database()));
        let ghost opened: (HeightTable, HeightTable, RoundTable);
        {
            let decided = match open_height_table(&tx, DECIDED_VALUES_TABLE) {
                Ok(t) => t,
                Err(e) => return Err(StoreError::Table(e)),
            };
            let certificates = match open_height_table(&tx, CERTIFICATES_TABLE) {
                Ok(t) => t,
                Err(e) => return Err(StoreError::Table(e)),
            };
            let undecided = match open_round_table(&tx, UNDECIDED_PROPOSALS_TABLE) {
                Ok(t) => t,
                Err(e) => return Err(StoreError::Table(e)),
            };
            proof {
                opened = (decided, certificates, undecided);
            }
        }
        let r = match commit(tx) {
            Ok(()) => Ok(()),
            Err(e) => Err(StoreError::Commit(e)),
        };
        proof {
            if r is Ok {
                assert(height_table_in(opened.0, wtx) && height_table_in(opened.1, wtx));
                assert(round_table_in(opened.2, wtx));
                assert(height_table_name(opened.0) == DECIDED_VALUES_TABLE@);
                assert(height_table_name(opened.1) == CERTIFICATES_TABLE@);
                assert(round_table_name(opened.2) == UNDECIDED_PROPOSALS_TABLE@);
            }
        }
        r
    }
}

} // verus!
