//! The mathematical model of the store.
//!
//! `StoreModel` is the spec-level image of one committed (or scratch) state:
//! plain sequences for the primary tables and the secondary indexes. The
//! stream markers are not stored: each marker is by definition the length of
//! its stream's primary table, which makes the denseness invariant — keys
//! present are exactly `[0, marker)` — hold by construction.
//!
//! `wf` is the cross-table well-formedness every committed state enjoys:
//! markers ordered, secondary indexes in bijection with the primary tables,
//! and the storage history an exact, block-ordered transcript of the state
//! diffs. The append transitions (`with_header`, `with_body`,
//! `with_state_diff`) together with their `can_append_*` guards and
//! `*_append_err` error values pin down the executable layer's contracts.

use vstd::prelude::*;

use crate::felt::Felt;
use crate::types::{
    BlockHeader, BlockId, DeployedContract, DiffModel, QueryError, StorageDiffModel, StorageError,
    TxModel,
};

verus! {

/// One row of the storage history: contract `address`, storage `key`,
/// written at block `block` with `value`.
#[derive(Clone, Copy, Debug, PartialEq, Eq, Structural)]
pub struct StorageRecord {
    pub address: Felt,
    pub key: Felt,
    pub block: u64,
    pub value: Felt,
}

/// One row of the nonce history: contract `address` took nonce `nonce` at
/// block `block`.
#[derive(Clone, Copy, Debug, PartialEq, Eq, Structural)]
pub struct NonceRecord {
    pub address: Felt,
    pub block: u64,
    pub nonce: Felt,
}

/// First-match lookup in an association sequence keyed by felts.
pub open spec fn assoc_lookup<V>(s: Seq<(Felt, V)>, k: Felt) -> Option<V>
    decreases s.len(),
{
    if s.len() == 0 {
        None
    } else if s[0].0 == k {
        Some(s[0].1)
    } else {
        assoc_lookup(s.drop_first(), k)
    }
}

/// No two rows of the association sequence share a key.
pub open spec fn assoc_nodup<V>(s: Seq<(Felt, V)>) -> bool {
    forall|j1: int, j2: int|
        0 <= j1 < j2 < s.len() ==> (#[trigger] s[j1]).0 != (#[trigger] s[j2]).0
}

/// Appending a row changes lookups only for its key, and only when the key
/// was absent.
pub proof fn lemma_assoc_lookup_push<V>(s: Seq<(Felt, V)>, k: Felt, v: V, q: Felt)
    ensures
        assoc_lookup(s.push((k, v)), q) == (if assoc_lookup(s, q) is Some {
            assoc_lookup(s, q)
        } else if q == k {
            Some(v)
        } else {
            None::<V>
        }),
    decreases s.len(),
{
    if s.len() == 0 {
        assert(s.push((k, v))[0] == (k, v));
        assert(s.push((k, v)).drop_first() =~= Seq::<(Felt, V)>::empty());
        assert(assoc_lookup(Seq::<(Felt, V)>::empty(), q) is None);
        assert(assoc_lookup(s, q) is None);
    } else {
        assert(s.push((k, v))[0] == s[0]);
        assert(s.push((k, v)).drop_first() =~= s.drop_first().push((k, v)));
        lemma_assoc_lookup_push(s.drop_first(), k, v, q);
        if s[0].0 == q {
            assert(assoc_lookup(s.push((k, v)), q) == Some(s[0].1));
            assert(assoc_lookup(s, q) == Some(s[0].1));
        } else {
            assert(assoc_lookup(s.push((k, v)), q) == assoc_lookup(
                s.drop_first().push((k, v)),
                q,
            ));
            assert(assoc_lookup(s, q) == assoc_lookup(s.drop_first(), q));
        }
    }
}

/// A key is absent exactly when no row carries it.
pub proof fn lemma_assoc_lookup_none<V>(s: Seq<(Felt, V)>, k: Felt)
    ensures
        (assoc_lookup(s, k) is None) <==> (forall|j: int|
            0 <= j < s.len() ==> (#[trigger] s[j]).0 != k),
    decreases s.len(),
{
    if s.len() != 0 {
        lemma_assoc_lookup_none(s.drop_first(), k);
        match assoc_lookup(s, k) {
            None => {
                assert forall|j: int| 0 <= j < s.len() implies (#[trigger] s[j]).0 != k by {
                    if j >= 1 {
                        assert(s.drop_first()[j - 1] == s[j]);
                        assert(s.drop_first()[j - 1].0 != k);
                    }
                }
            },
            Some(v) => {
                lemma_assoc_lookup_some(s, k);
                let j = choose|j: int| 0 <= j < s.len() && #[trigger] s[j] == (k, v);
                assert(s[j].0 == k);
            },
        }
    }
}

/// A successful lookup names a row of the sequence.
pub proof fn lemma_assoc_lookup_some<V>(s: Seq<(Felt, V)>, k: Felt)
    ensures
        assoc_lookup(s, k) matches Some(v) ==> exists|j: int|
            0 <= j < s.len() && #[trigger] s[j] == (k, v),
    decreases s.len(),
{
    if s.len() != 0 && s[0].0 != k {
        lemma_assoc_lookup_some(s.drop_first(), k);
        match assoc_lookup(s, k) {
            Some(v) => {
                let j = choose|j: int|
                    0 <= j < s.drop_first().len() && #[trigger] s.drop_first()[j] == (k, v);
                assert(s[j + 1] == (k, v));
            },
            None => {},
        }
    }
}

/// One contract group's storage writes as key-value pairs.
pub open spec fn entry_pairs(entries: Seq<crate::types::StorageEntry>) -> Seq<(Felt, Felt)> {
    entries.map_values(|e: crate::types::StorageEntry| (e.key, e.value))
}

/// The value one contract group writes to `key`, if any.
pub open spec fn entries_value(entries: Seq<crate::types::StorageEntry>, key: Felt) -> Option<
    Felt,
> {
    assoc_lookup(entry_pairs(entries), key)
}

/// The value a diff's storage section writes to `(address, key)`, if any.
pub open spec fn diff_storage_value(sdiffs: Seq<StorageDiffModel>, address: Felt, key: Felt) -> Option<Felt>
    decreases sdiffs.len(),
{
    if sdiffs.len() == 0 {
        None
    } else {
        let head = if sdiffs[0].address == address {
            entries_value(sdiffs[0].entries, key)
        } else {
            None
        };
        if head is Some {
            head
        } else {
            diff_storage_value(sdiffs.drop_first(), address, key)
        }
    }
}

/// A deployment list as address-to-class pairs.
pub open spec fn deploy_pairs(list: Seq<DeployedContract>) -> Seq<(Felt, Felt)> {
    list.map_values(|d: DeployedContract| (d.address, d.class_hash))
}

/// The class hash a deployment list assigns to `address`, if any.
pub open spec fn deployed_class(list: Seq<DeployedContract>, address: Felt) -> Option<Felt> {
    assoc_lookup(deploy_pairs(list), address)
}

/// A diff's nonce updates as address-to-nonce pairs.
pub open spec fn nonce_pairs(list: Seq<crate::types::NonceUpdate>) -> Seq<(Felt, Felt)> {
    list.map_values(|u: crate::types::NonceUpdate| (u.address, u.nonce))
}

/// The nonce a diff's nonce list assigns to `address`, if any.
pub open spec fn diff_nonce_value(list: Seq<crate::types::NonceUpdate>, address: Felt) -> Option<
    Felt,
> {
    assoc_lookup(nonce_pairs(list), address)
}

/// The storage history rows one contract group of a diff contributes at
/// block `n`, in entry order.
pub open spec fn group_records(d: StorageDiffModel, n: u64) -> Seq<StorageRecord> {
    Seq::new(
        d.entries.len(),
        |i: int| StorageRecord {
            address: d.address,
            key: d.entries[i].key,
            block: n,
            value: d.entries[i].value,
        },
    )
}

/// All storage history rows a diff contributes at block `n`, in scan order.
pub open spec fn diff_records(sdiffs: Seq<StorageDiffModel>, n: u64) -> Seq<StorageRecord>
    decreases sdiffs.len(),
{
    if sdiffs.len() == 0 {
        Seq::empty()
    } else {
        group_records(sdiffs[0], n) + diff_records(sdiffs.drop_first(), n)
    }
}

/// The first `m` nonce history rows a diff contributes at block `n`.
pub open spec fn nonce_records_upto(list: Seq<crate::types::NonceUpdate>, n: u64, m: int) -> Seq<
    NonceRecord,
> {
    Seq::new(
        m as nat,
        |i: int| NonceRecord { address: list[i].address, block: n, nonce: list[i].nonce },
    )
}

/// All nonce history rows a diff contributes at block `n`.
pub open spec fn diff_nonce_records(list: Seq<crate::types::NonceUpdate>, n: u64) -> Seq<NonceRecord> {
    Seq::new(
        list.len(),
        |i: int| NonceRecord { address: list[i].address, block: n, nonce: list[i].nonce },
    )
}

/// The most recent storage write to `(address, key)` at or before block `b`:
/// the last matching row, scanning the block-ordered history from the end.
pub open spec fn history_value(h: Seq<StorageRecord>, address: Felt, key: Felt, b: u64) -> Option<Felt>
    decreases h.len(),
{
    if h.len() == 0 {
        None
    } else {
        let last = h[h.len() - 1];
        if last.address == address && last.key == key && last.block <= b {
            Some(last.value)
        } else {
            history_value(h.drop_last(), address, key, b)
        }
    }
}

/// The most recent nonce update for `address` at or before block `b`.
pub open spec fn nonce_history_value(h: Seq<NonceRecord>, address: Felt, b: u64) -> Option<Felt>
    decreases h.len(),
{
    if h.len() == 0 {
        None
    } else {
        let last = h[h.len() - 1];
        if last.address == address && last.block <= b {
            Some(last.nonce)
        } else {
            nonce_history_value(h.drop_last(), address, b)
        }
    }
}

/// The value the diff stream assigns to `(address, key)` as of block `b`:
/// the write of the greatest block number at or before `b`, if any.
pub open spec fn diffs_value_at(diffs: Seq<DiffModel>, address: Felt, key: Felt, b: u64) -> Option<Felt>
    decreases diffs.len(),
{
    if diffs.len() == 0 {
        None
    } else {
        let n = diffs.len() - 1;
        let w = if n <= b as int {
            diff_storage_value(diffs[n].storage_diffs, address, key)
        } else {
            None
        };
        if w is Some {
            w
        } else {
            diffs_value_at(diffs.drop_last(), address, key, b)
        }
    }
}

/// The first `m` transaction-index rows a body appended at block `n`
/// contributes: its hash mapped to `(n, index in block)`.
pub open spec fn body_entries_upto(body: Seq<TxModel>, n: u64, m: int) -> Seq<(Felt, (u64, u64))> {
    Seq::new(m as nat, |i: int| (body[i].transaction_hash, (n, i as u64)))
}

/// All transaction-index rows a body appended at block `n` contributes.
pub open spec fn body_entries(body: Seq<TxModel>, n: u64) -> Seq<(Felt, (u64, u64))> {
    body_entries_upto(body, n, body.len() as int)
}

/// Lookups in a body's index rows, for a body free of repeated hashes: the
/// hash of transaction `j` maps to `(n, j)`, and absent hashes miss.
pub proof fn lemma_body_entries_lookup(body: Seq<TxModel>, n: u64, m: int, q: Felt)
    requires
        0 <= m <= body.len(),
        forall|i1: int, i2: int|
            0 <= i1 < i2 < body.len() ==> (#[trigger] body[i1]).transaction_hash != (
            #[trigger] body[i2]).transaction_hash,
    ensures
        (forall|j: int| 0 <= j < m ==> (#[trigger] body[j]).transaction_hash != q)
            ==> assoc_lookup(body_entries_upto(body, n, m), q) is None,
        forall|j: int|
            0 <= j < m && (#[trigger] body[j]).transaction_hash == q ==> assoc_lookup(
                body_entries_upto(body, n, m),
                q,
            ) == Some((n, j as u64)),
    decreases m,
{
    if m > 0 {
        lemma_body_entries_lookup(body, n, m - 1, q);
        assert(body_entries_upto(body, n, m) =~= body_entries_upto(body, n, m - 1).push(
            (body[m - 1].transaction_hash, (n, (m - 1) as u64)),
        ));
        lemma_assoc_lookup_push(
            body_entries_upto(body, n, m - 1),
            body[m - 1].transaction_hash,
            (n, (m - 1) as u64),
            q,
        );
    }
}

/// Transaction `i` of the body cannot be inserted: its hash is already in
/// the index, or an earlier transaction of the same body carries it.
pub open spec fn tx_conflict_at(
    idx: Seq<(Felt, (u64, u64))>,
    body: Seq<TxModel>,
    i: int,
) -> bool {
    ||| assoc_lookup(idx, body[i].transaction_hash) is Some
    ||| exists|j: int|
        0 <= j < i && (#[trigger] body[j]).transaction_hash == body[i].transaction_hash
}

/// The first conflicting transaction of the body from position `i` on, or
/// the body's length when none conflicts.
pub open spec fn first_tx_conflict(idx: Seq<(Felt, (u64, u64))>, body: Seq<TxModel>, i: int) -> int
    decreases body.len() - i,
{
    if i < 0 || i >= body.len() {
        body.len() as int
    } else if tx_conflict_at(idx, body, i) {
        i
    } else {
        first_tx_conflict(idx, body, i + 1)
    }
}

/// Where no transaction below `i` conflicts, the first conflict search from
/// the start and from `i` agree.
pub proof fn lemma_first_tx_conflict_locate(
    idx: Seq<(Felt, (u64, u64))>,
    body: Seq<TxModel>,
    i: int,
)
    requires
        0 <= i <= body.len(),
        forall|j: int| 0 <= j < i ==> !tx_conflict_at(idx, body, j),
    ensures
        first_tx_conflict(idx, body, 0) == first_tx_conflict(idx, body, i),
    decreases i,
{
    if i > 0 {
        lemma_first_tx_conflict_locate(idx, body, i - 1);
    }
}

/// In a duplicate-free association sequence, row `j`'s key finds row `j`.
pub proof fn lemma_assoc_lookup_at<V>(s: Seq<(Felt, V)>, j: int)
    requires
        0 <= j < s.len(),
        assoc_nodup(s),
    ensures
        assoc_lookup(s, s[j].0) == Some(s[j].1),
    decreases j,
{
    if j == 0 {
    } else {
        assert(s[0].0 != s[j].0);
        assert forall|j1: int, j2: int|
            0 <= j1 < j2 < s.drop_first().len() implies (#[trigger] s.drop_first()[j1]).0 != (
        #[trigger] s.drop_first()[j2]).0 by {
            assert(s.drop_first()[j1] == s[j1 + 1]);
            assert(s.drop_first()[j2] == s[j2 + 1]);
        }
        assert(s.drop_first()[j - 1] == s[j]);
        lemma_assoc_lookup_at(s.drop_first(), j - 1);
    }
}

/// The first `m` storage history rows one contract group contributes.
pub open spec fn group_records_upto(d: StorageDiffModel, n: u64, m: int) -> Seq<StorageRecord> {
    Seq::new(
        m as nat,
        |i: int| StorageRecord {
            address: d.address,
            key: d.entries[i].key,
            block: n,
            value: d.entries[i].value,
        },
    )
}

/// Flattening one more contract group extends the diff's rows at the end.
pub proof fn lemma_diff_records_take_snoc(sdiffs: Seq<StorageDiffModel>, n: u64, g: int)
    requires
        0 <= g < sdiffs.len(),
    ensures
        diff_records(sdiffs.take(g + 1), n) == diff_records(sdiffs.take(g), n) + group_records(
            sdiffs[g],
            n,
        ),
    decreases g,
{
    if g == 0 {
        assert(sdiffs.take(1)[0] == sdiffs[0]);
        assert(sdiffs.take(1).drop_first() =~= Seq::<StorageDiffModel>::empty());
        assert(sdiffs.take(0) =~= Seq::<StorageDiffModel>::empty());
        assert(diff_records(Seq::<StorageDiffModel>::empty(), n) == Seq::<StorageRecord>::empty());
        assert(diff_records(sdiffs.take(1), n) =~= diff_records(sdiffs.take(0), n)
            + group_records(sdiffs[0], n));
    } else {
        assert(sdiffs.take(g + 1)[0] == sdiffs[0]);
        assert(sdiffs.take(g)[0] == sdiffs[0]);
        assert(sdiffs.take(g + 1).drop_first() =~= sdiffs.drop_first().take(g));
        assert(sdiffs.take(g).drop_first() =~= sdiffs.drop_first().take(g - 1));
        assert(sdiffs.drop_first()[g - 1] == sdiffs[g]);
        lemma_diff_records_take_snoc(sdiffs.drop_first(), n, g - 1);
        assert(diff_records(sdiffs.take(g + 1), n) =~= diff_records(sdiffs.take(g), n)
            + group_records(sdiffs[g], n));
    }
}

/// No two flattened rows write the same `(address, key)`.
pub open spec fn records_nodup(recs: Seq<StorageRecord>) -> bool {
    forall|j1: int, j2: int|
        0 <= j1 < j2 < recs.len() ==> !((#[trigger] recs[j1]).address == (
        #[trigger] recs[j2]).address && recs[j1].key == recs[j2].key)
}

/// Flattened row `p` of a diff repeats an earlier row's `(address, key)`.
pub open spec fn record_conflict_at(recs: Seq<StorageRecord>, p: int) -> bool {
    exists|q: int|
        0 <= q < p && (#[trigger] recs[q]).address == recs[p].address && recs[q].key
            == recs[p].key
}

/// The first repeated flattened row from `i` on, or the row count.
pub open spec fn first_record_conflict(recs: Seq<StorageRecord>, i: int) -> int
    decreases recs.len() - i,
{
    if i < 0 || i >= recs.len() {
        recs.len() as int
    } else if record_conflict_at(recs, i) {
        i
    } else {
        first_record_conflict(recs, i + 1)
    }
}

/// Where no row below `i` repeats, the search from the start and from `i`
/// agree.
pub proof fn lemma_first_record_conflict_locate(recs: Seq<StorageRecord>, i: int)
    requires
        0 <= i <= recs.len(),
        forall|j: int| 0 <= j < i ==> !record_conflict_at(recs, j),
    ensures
        first_record_conflict(recs, 0) == first_record_conflict(recs, i),
    decreases i,
{
    if i > 0 {
        lemma_first_record_conflict_locate(recs, i - 1);
    }
}

/// Nonce update `i` of a diff repeats an earlier update's address.
pub open spec fn nonce_conflict_at(list: Seq<crate::types::NonceUpdate>, i: int) -> bool {
    exists|j: int| 0 <= j < i && (#[trigger] list[j]).address == list[i].address
}

/// The first repeated nonce address from `i` on, or the list's length.
pub open spec fn first_nonce_conflict(list: Seq<crate::types::NonceUpdate>, i: int) -> int
    decreases list.len() - i,
{
    if i < 0 || i >= list.len() {
        list.len() as int
    } else if nonce_conflict_at(list, i) {
        i
    } else {
        first_nonce_conflict(list, i + 1)
    }
}

/// Where no update below `i` repeats, the search from the start and from `i`
/// agree.
pub proof fn lemma_first_nonce_conflict_locate(list: Seq<crate::types::NonceUpdate>, i: int)
    requires
        0 <= i <= list.len(),
        forall|j: int| 0 <= j < i ==> !nonce_conflict_at(list, j),
    ensures
        first_nonce_conflict(list, 0) == first_nonce_conflict(list, i),
    decreases i,
{
    if i > 0 {
        lemma_first_nonce_conflict_locate(list, i - 1);
    }
}

/// Deployment `i` of a diff cannot be inserted: its address is already in
/// the table, or an earlier deployment of the same diff claims it.
pub open spec fn deploy_conflict_at(
    tbl: Seq<(Felt, u64)>,
    list: Seq<DeployedContract>,
    i: int,
) -> bool {
    ||| assoc_lookup(tbl, list[i].address) is Some
    ||| exists|j: int| 0 <= j < i && (#[trigger] list[j]).address == list[i].address
}

/// The first conflicting deployment from `i` on, or the list's length.
pub open spec fn first_deploy_conflict(
    tbl: Seq<(Felt, u64)>,
    list: Seq<DeployedContract>,
    i: int,
) -> int
    decreases list.len() - i,
{
    if i < 0 || i >= list.len() {
        list.len() as int
    } else if deploy_conflict_at(tbl, list, i) {
        i
    } else {
        first_deploy_conflict(tbl, list, i + 1)
    }
}

/// Where no deployment below `i` conflicts, the search from the start and
/// from `i` agree.
pub proof fn lemma_first_deploy_conflict_locate(
    tbl: Seq<(Felt, u64)>,
    list: Seq<DeployedContract>,
    i: int,
)
    requires
        0 <= i <= list.len(),
        forall|j: int| 0 <= j < i ==> !deploy_conflict_at(tbl, list, j),
    ensures
        first_deploy_conflict(tbl, list, 0) == first_deploy_conflict(tbl, list, i),
    decreases i,
{
    if i > 0 {
        lemma_first_deploy_conflict_locate(tbl, list, i - 1);
    }
}

/// The first `m` deployed-at rows a diff appended at block `n` contributes.
pub open spec fn deploy_entries_upto(list: Seq<DeployedContract>, n: u64, m: int) -> Seq<
    (Felt, u64),
> {
    Seq::new(m as nat, |i: int| (list[i].address, n))
}

/// All deployed-at rows a diff appended at block `n` contributes.
pub open spec fn deploy_entries(list: Seq<DeployedContract>, n: u64) -> Seq<(Felt, u64)> {
    deploy_entries_upto(list, n, list.len() as int)
}

/// The first `m` class rows a diff contributes.
pub open spec fn class_entries_upto(list: Seq<DeployedContract>, m: int) -> Seq<(Felt, Felt)> {
    Seq::new(m as nat, |i: int| (list[i].address, list[i].class_hash))
}

/// All class rows a diff contributes.
pub open spec fn class_entries(list: Seq<DeployedContract>) -> Seq<(Felt, Felt)> {
    class_entries_upto(list, list.len() as int)
}

/// Lookups in a diff's deployment rows, for a list free of repeated
/// addresses: deployment `j` maps to block `n` and its class hash, absent
/// addresses miss.
pub proof fn lemma_deploy_entries_lookup(list: Seq<DeployedContract>, n: u64, m: int, q: Felt)
    requires
        0 <= m <= list.len(),
        forall|i1: int, i2: int|
            0 <= i1 < i2 < list.len() ==> (#[trigger] list[i1]).address != (
            #[trigger] list[i2]).address,
    ensures
        (forall|j: int| 0 <= j < m ==> (#[trigger] list[j]).address != q) ==> assoc_lookup(
            deploy_entries_upto(list, n, m),
            q,
        ) is None && assoc_lookup(class_entries_upto(list, m), q) is None,
        forall|j: int|
            0 <= j < m && (#[trigger] list[j]).address == q ==> assoc_lookup(
                deploy_entries_upto(list, n, m),
                q,
            ) == Some(n) && assoc_lookup(class_entries_upto(list, m), q) == Some(
                list[j].class_hash,
            ),
    decreases m,
{
    if m > 0 {
        lemma_deploy_entries_lookup(list, n, m - 1, q);
        assert(deploy_entries_upto(list, n, m) =~= deploy_entries_upto(list, n, m - 1).push(
            (list[m - 1].address, n),
        ));
        assert(class_entries_upto(list, m) =~= class_entries_upto(list, m - 1).push(
            (list[m - 1].address, list[m - 1].class_hash),
        ));
        lemma_assoc_lookup_push(deploy_entries_upto(list, n, m - 1), list[m - 1].address, n, q);
        lemma_assoc_lookup_push(
            class_entries_upto(list, m - 1),
            list[m - 1].address,
            list[m - 1].class_hash,
            q,
        );
    }
}

/// For a diff whose flattened rows repeat no `(address, key)`: each row is
/// exactly what the diff writes there, and each write of the diff appears as
/// a row.
pub proof fn lemma_diff_records_value(sdiffs: Seq<StorageDiffModel>, n: u64)
    requires
        records_nodup(diff_records(sdiffs, n)),
    ensures
        forall|p: int|
            0 <= p < diff_records(sdiffs, n).len() ==> (#[trigger] diff_records(sdiffs, n)[p]).block
                == n,
        forall|p: int|
            0 <= p < diff_records(sdiffs, n).len() ==> diff_storage_value(
                sdiffs,
                (#[trigger] diff_records(sdiffs, n)[p]).address,
                diff_records(sdiffs, n)[p].key,
            ) == Some(diff_records(sdiffs, n)[p].value),
        forall|a: Felt, k: Felt|
            (#[trigger] diff_storage_value(sdiffs, a, k)) matches Some(v) ==> diff_records(
                sdiffs,
                n,
            ).contains(StorageRecord { address: a, key: k, block: n, value: v }),
    decreases sdiffs.len(),
{
    let recs = diff_records(sdiffs, n);
    if sdiffs.len() > 0 {
        let d = sdiffs[0];
        let g = group_records(d, n);
        let rest = diff_records(sdiffs.drop_first(), n);
        assert(recs == g + rest);
        assert forall|j1: int, j2: int| 0 <= j1 < j2 < rest.len() implies !((
        #[trigger] rest[j1]).address == (#[trigger] rest[j2]).address && rest[j1].key
            == rest[j2].key) by {
            assert(recs[g.len() + j1] == rest[j1]);
            assert(recs[g.len() + j2] == rest[j2]);
        }
        lemma_diff_records_value(sdiffs.drop_first(), n);
        assert forall|p: int| 0 <= p < recs.len() implies (#[trigger] recs[p]).block == n by {
            if p < g.len() {
                assert(recs[p] == g[p]);
            } else {
                assert(recs[p] == rest[p - g.len()]);
            }
        }
        assert forall|j1: int, j2: int| 0 <= j1 < j2 < entry_pairs(d.entries).len() implies (
        #[trigger] entry_pairs(d.entries)[j1]).0 != (#[trigger] entry_pairs(d.entries)[j2]).0 by {
            assert(recs[j1] == g[j1]);
            assert(recs[j2] == g[j2]);
            assert(g[j1].key == entry_pairs(d.entries)[j1].0);
            assert(g[j2].key == entry_pairs(d.entries)[j2].0);
        }
        assert forall|p: int| 0 <= p < recs.len() implies diff_storage_value(
            sdiffs,
            (#[trigger] recs[p]).address,
            recs[p].key,
        ) == Some(recs[p].value) by {
            if p < g.len() {
                assert(recs[p] == g[p]);
                assert(entry_pairs(d.entries)[p] == (g[p].key, g[p].value));
                lemma_assoc_lookup_at(entry_pairs(d.entries), p);
                assert(entries_value(d.entries, g[p].key) == Some(g[p].value));
            } else {
                assert(recs[p] == rest[p - g.len()]);
                let a = rest[p - g.len()].address;
                let k = rest[p - g.len()].key;
                assert(diff_storage_value(sdiffs.drop_first(), a, k) == Some(
                    rest[p - g.len()].value,
                ));
                if d.address == a && entries_value(d.entries, k) is Some {
                    lemma_assoc_lookup_some(entry_pairs(d.entries), k);
                    let j = choose|j: int|
                        0 <= j < entry_pairs(d.entries).len() && #[trigger] entry_pairs(
                            d.entries,
                        )[j] == (k, entries_value(d.entries, k)->Some_0);
                    assert(recs[j] == g[j]);
                    assert(g[j].address == a && g[j].key == k);
                    assert(!records_nodup(recs));
                }
            }
        }
        assert forall|a: Felt, k: Felt, v: Felt|
            #![trigger diff_records(sdiffs, n).contains(
                StorageRecord { address: a, key: k, block: n, value: v },
            )]
            diff_storage_value(sdiffs, a, k) == Some(v) implies diff_records(sdiffs, n).contains(
            StorageRecord { address: a, key: k, block: n, value: v },
        ) by {
            if d.address == a && entries_value(d.entries, k) is Some {
                lemma_assoc_lookup_some(entry_pairs(d.entries), k);
                let j = choose|j: int|
                    0 <= j < entry_pairs(d.entries).len() && #[trigger] entry_pairs(d.entries)[j]
                        == (k, v);
                assert(g[j] == StorageRecord { address: a, key: k, block: n, value: v });
                assert(recs[j] == g[j]);
            } else {
                assert(diff_storage_value(sdiffs.drop_first(), a, k) == diff_storage_value(
                    sdiffs,
                    a,
                    k,
                ));
                let rec = StorageRecord { address: a, key: k, block: n, value: v };
                assert(rest.contains(rec));
                let q = choose|q: int| 0 <= q < rest.len() && rest[q] == rec;
                assert(recs[g.len() + q] == rec);
            }
        }
    }
}

/// Looking up across two association sequences: the left one wins.
pub proof fn lemma_assoc_lookup_concat<V>(a: Seq<(Felt, V)>, b: Seq<(Felt, V)>, q: Felt)
    ensures
        assoc_lookup(a + b, q) == (if assoc_lookup(a, q) is Some {
            assoc_lookup(a, q)
        } else {
            assoc_lookup(b, q)
        }),
    decreases a.len(),
{
    if a.len() == 0 {
        assert(a + b =~= b);
        assert(assoc_lookup(a, q) is None);
    } else {
        assert((a + b)[0] == a[0]);
        assert((a + b).drop_first() =~= a.drop_first() + b);
        lemma_assoc_lookup_concat(a.drop_first(), b, q);
    }
}

/// The nonce the diff stream assigns to `address` as of block `b`: the
/// update of the greatest block number at or before `b`, if any.
pub open spec fn diffs_nonce_at(diffs: Seq<DiffModel>, address: Felt, b: u64) -> Option<Felt>
    decreases diffs.len(),
{
    if diffs.len() == 0 {
        None
    } else {
        let n = diffs.len() - 1;
        let w = if n <= b as int {
            diff_nonce_value(diffs[n].nonces, address)
        } else {
            None
        };
        if w is Some {
            w
        } else {
            diffs_nonce_at(diffs.drop_last(), address, b)
        }
    }
}

/// The spec-level image of one store state.
#[verifier::ext_equal]
pub ghost struct StoreModel {
    /// Headers, keyed by block number: dense on `[0, header_marker)`.
    pub headers: Seq<BlockHeader>,
    /// Bodies, keyed by block number: dense on `[0, body_marker)`.
    pub bodies: Seq<Seq<TxModel>>,
    /// State diffs, keyed by block number: dense on `[0, state_marker)`.
    pub diffs: Seq<DiffModel>,
    /// Secondary index: block hash to block number.
    pub hash_index: Seq<(Felt, u64)>,
    /// Secondary index: transaction hash to (block number, index in block).
    pub tx_index: Seq<(Felt, (u64, u64))>,
    /// Contract address to the block that deployed it.
    pub deployed_at: Seq<(Felt, u64)>,
    /// Contract address to its class hash, aligned row by row with
    /// `deployed_at`.
    pub class_of: Seq<(Felt, Felt)>,
    /// Block-ordered transcript of all storage writes.
    pub history: Seq<StorageRecord>,
    /// Block-ordered transcript of all nonce updates.
    pub nonce_history: Seq<NonceRecord>,
    /// Marker reserved for the compiled-class stream, whose write path is an
    /// external collaborator.
    pub compiled_class_marker: u64,
    /// Marker reserved for the base-layer finality stream, likewise external.
    pub base_layer_marker: u64,
}

impl StoreModel {
    /// The store with nothing in it; every marker is zero.
    pub open spec fn init() -> StoreModel {
        StoreModel {
            headers: Seq::empty(),
            bodies: Seq::empty(),
            diffs: Seq::empty(),
            hash_index: Seq::empty(),
            tx_index: Seq::empty(),
            deployed_at: Seq::empty(),
            class_of: Seq::empty(),
            history: Seq::empty(),
            nonce_history: Seq::empty(),
            compiled_class_marker: 0,
            base_layer_marker: 0,
        }
    }

    /// The first block number with no header yet.
    pub open spec fn header_marker(self) -> nat {
        self.headers.len()
    }

    /// The first block number with no body yet.
    pub open spec fn body_marker(self) -> nat {
        self.bodies.len()
    }

    /// The first block number with no state diff yet.
    pub open spec fn state_marker(self) -> nat {
        self.diffs.len()
    }

    /// The hash index and the headers table are in bijection.
    pub open spec fn hash_index_wf(self) -> bool {
        &&& forall|j: int|
            0 <= j < self.hash_index.len() ==> {
                &&& ((#[trigger] self.hash_index[j]).1 as int) < self.headers.len()
                &&& self.headers[self.hash_index[j].1 as int].block_hash == self.hash_index[j].0
            }
        &&& forall|n: int|
            0 <= n < self.headers.len() ==> assoc_lookup(
                self.hash_index,
                (#[trigger] self.headers[n]).block_hash,
            ) == Some(n as u64)
        &&& assoc_nodup(self.hash_index)
    }

    /// The transaction index and the bodies table are in bijection.
    pub open spec fn tx_index_wf(self) -> bool {
        &&& forall|j: int|
            0 <= j < self.tx_index.len() ==> {
                &&& ((#[trigger] self.tx_index[j]).1.0 as int) < self.bodies.len()
                &&& (self.tx_index[j].1.1 as int) < self.bodies[self.tx_index[j].1.0 as int].len()
                &&& self.bodies[self.tx_index[j].1.0 as int][self.tx_index[j].1.1 as int].transaction_hash
                    == self.tx_index[j].0
            }
        &&& forall|b: int, i: int|
            0 <= b < self.bodies.len() && 0 <= i < self.bodies[b].len() ==> assoc_lookup(
                self.tx_index,
                (#[trigger] self.bodies[b][i]).transaction_hash,
            ) == Some((b as u64, i as u64))
        &&& assoc_nodup(self.tx_index)
    }

    /// A contract is in `deployed_at` exactly when some committed diff
    /// deployed it, and `class_of` records the class that deploy assigned.
    pub open spec fn deployed_wf(self) -> bool {
        &&& self.class_of.len() == self.deployed_at.len()
        &&& forall|j: int|
            0 <= j < self.deployed_at.len() ==> {
                &&& ((#[trigger] self.deployed_at[j]).1 as int) < self.diffs.len()
                &&& self.class_of[j].0 == self.deployed_at[j].0
                &&& deployed_class(
                    self.diffs[self.deployed_at[j].1 as int].deployed_contracts,
                    self.deployed_at[j].0,
                ) == Some(self.class_of[j].1)
            }
        &&& forall|n: int, k: int|
            0 <= n < self.diffs.len() && 0 <= k < self.diffs[n].deployed_contracts.len() ==> {
                &&& assoc_lookup(
                    self.deployed_at,
                    (#[trigger] self.diffs[n].deployed_contracts[k]).address,
                ) == Some(n as u64)
                &&& assoc_lookup(
                    self.class_of,
                    self.diffs[n].deployed_contracts[k].address,
                ) == Some(self.diffs[n].deployed_contracts[k].class_hash)
            }
        &&& assoc_nodup(self.deployed_at)
        &&& assoc_nodup(self.class_of)
    }

    /// The storage history is a block-ordered, duplicate-free transcript of
    /// exactly the writes the committed diffs carry.
    pub open spec fn history_wf(self) -> bool {
        &&& forall|j: int|
            0 <= j < self.history.len() ==> {
                &&& ((#[trigger] self.history[j]).block as int) < self.diffs.len()
                &&& diff_storage_value(
                    self.diffs[self.history[j].block as int].storage_diffs,
                    self.history[j].address,
                    self.history[j].key,
                ) == Some(self.history[j].value)
            }
        &&& forall|n: int, a: Felt, k: Felt|
            0 <= n < self.diffs.len() ==> ((#[trigger] diff_storage_value(
                self.diffs[n].storage_diffs,
                a,
                k,
            )) matches Some(v) ==> self.history.contains(
                StorageRecord { address: a, key: k, block: n as u64, value: v },
            ))
        &&& forall|j1: int, j2: int|
            0 <= j1 < j2 < self.history.len() ==> (#[trigger] self.history[j1]).block
                <= (#[trigger] self.history[j2]).block
        &&& forall|j1: int, j2: int|
            0 <= j1 < j2 < self.history.len() ==> !((#[trigger] self.history[j1]).address
                == (#[trigger] self.history[j2]).address && self.history[j1].key
                == self.history[j2].key && self.history[j1].block == self.history[j2].block)
    }

    /// The nonce history is a block-ordered, duplicate-free transcript of
    /// exactly the nonce updates the committed diffs carry.
    pub open spec fn nonce_wf(self) -> bool {
        &&& forall|j: int|
            0 <= j < self.nonce_history.len() ==> {
                &&& ((#[trigger] self.nonce_history[j]).block as int) < self.diffs.len()
                &&& diff_nonce_value(
                    self.diffs[self.nonce_history[j].block as int].nonces,
                    self.nonce_history[j].address,
                ) == Some(self.nonce_history[j].nonce)
            }
        &&& forall|n: int, a: Felt|
            0 <= n < self.diffs.len() ==> ((#[trigger] diff_nonce_value(
                self.diffs[n].nonces,
                a,
            )) matches Some(v) ==> self.nonce_history.contains(
                NonceRecord { address: a, block: n as u64, nonce: v },
            ))
        &&& forall|j1: int, j2: int|
            0 <= j1 < j2 < self.nonce_history.len() ==> (#[trigger] self.nonce_history[j1]).block
                <= (#[trigger] self.nonce_history[j2]).block
        &&& forall|j1: int, j2: int|
            0 <= j1 < j2 < self.nonce_history.len() ==> !((#[trigger] self.nonce_history[j1]).address
                == (#[trigger] self.nonce_history[j2]).address && self.nonce_history[j1].block
                == self.nonce_history[j2].block)
    }

    /// Cross-table well-formedness: what holds of every committed state.
    pub open spec fn wf(self) -> bool {
        &&& self.bodies.len() <= self.headers.len()
        &&& self.diffs.len() <= self.headers.len()
        &&& self.hash_index_wf()
        &&& self.tx_index_wf()
        &&& self.deployed_wf()
        &&& self.history_wf()
        &&& self.nonce_wf()
    }

    /// The header append at `n` is accepted: `n` hits the marker and the
    /// hash is new.
    pub open spec fn can_append_header(self, n: u64, h: BlockHeader) -> bool {
        &&& n as nat == self.header_marker()
        &&& assoc_lookup(self.hash_index, h.block_hash) is None
    }

    /// The state after a successful header append.
    pub open spec fn with_header(self, h: BlockHeader) -> StoreModel {
        StoreModel {
            headers: self.headers.push(h),
            hash_index: self.hash_index.push((h.block_hash, self.headers.len() as u64)),
            ..self
        }
    }

    /// The error a refused header append returns: the marker check comes
    /// first, then hash uniqueness.
    pub open spec fn header_append_err(self, n: u64, h: BlockHeader) -> StorageError {
        if n as nat != self.header_marker() {
            StorageError::MarkerMismatch { expected: self.header_marker() as u64, found: n }
        } else {
            StorageError::BlockHashAlreadyExists { block_hash: h.block_hash, block_number: n }
        }
    }

    /// The body append at `n` is accepted: `n` hits the body marker, the
    /// header is already there, and every transaction hash is new — fresh
    /// against the index and not repeated inside the body.
    pub open spec fn can_append_body(self, n: u64, body: Seq<TxModel>) -> bool {
        &&& n as nat == self.body_marker()
        &&& (n as nat) < self.header_marker()
        &&& forall|i: int|
            0 <= i < body.len() ==> assoc_lookup(
                self.tx_index,
                (#[trigger] body[i]).transaction_hash,
            ) is None
        &&& forall|i1: int, i2: int|
            0 <= i1 < i2 < body.len() ==> (#[trigger] body[i1]).transaction_hash != (
            #[trigger] body[i2]).transaction_hash
    }

    /// The state after a successful body append at block `n`.
    pub open spec fn with_body(self, n: u64, body: Seq<TxModel>) -> StoreModel {
        StoreModel {
            bodies: self.bodies.push(body),
            tx_index: self.tx_index + body_entries(body, n),
            ..self
        }
    }

    /// The error a refused body append returns: the marker check comes
    /// first, then the header, then the first conflicting transaction hash.
    pub open spec fn body_append_err(self, n: u64, body: Seq<TxModel>) -> StorageError {
        if n as nat != self.body_marker() {
            StorageError::MarkerMismatch { expected: self.body_marker() as u64, found: n }
        } else if !((n as nat) < self.header_marker()) {
            StorageError::MissingHeader { block_number: n }
        } else {
            StorageError::TransactionHashAlreadyExists {
                transaction_hash: body[first_tx_conflict(self.tx_index, body, 0)].transaction_hash,
                block_number: n,
            }
        }
    }

    /// The state-diff append at `n` is accepted: `n` hits the state marker,
    /// the header is already there, no deployment re-deploys a contract or
    /// repeats an address, no two writes hit the same storage slot, and no
    /// two nonce updates hit the same contract.
    pub open spec fn can_append_state_diff(self, n: u64, diff: DiffModel) -> bool {
        &&& n as nat == self.state_marker()
        &&& (n as nat) < self.header_marker()
        &&& forall|k: int|
            0 <= k < diff.deployed_contracts.len() ==> assoc_lookup(
                self.deployed_at,
                (#[trigger] diff.deployed_contracts[k]).address,
            ) is None
        &&& forall|k1: int, k2: int|
            0 <= k1 < k2 < diff.deployed_contracts.len() ==> (
            #[trigger] diff.deployed_contracts[k1]).address != (
            #[trigger] diff.deployed_contracts[k2]).address
        &&& records_nodup(diff_records(diff.storage_diffs, n))
        &&& forall|k1: int, k2: int|
            0 <= k1 < k2 < diff.nonces.len() ==> (#[trigger] diff.nonces[k1]).address != (
            #[trigger] diff.nonces[k2]).address
    }

    /// The state after a successful state-diff append at block `n`.
    pub open spec fn with_state_diff(self, n: u64, diff: DiffModel) -> StoreModel {
        StoreModel {
            diffs: self.diffs.push(diff),
            deployed_at: self.deployed_at + deploy_entries(diff.deployed_contracts, n),
            class_of: self.class_of + class_entries(diff.deployed_contracts),
            history: self.history + diff_records(diff.storage_diffs, n),
            nonce_history: self.nonce_history + diff_nonce_records(diff.nonces, n),
            ..self
        }
    }

    /// The error a refused state-diff append returns: marker first, then the
    /// header, then the first conflicting deployment, storage write, and
    /// nonce update, in the order the diff is scanned.
    pub open spec fn state_diff_err(self, n: u64, diff: DiffModel) -> StorageError {
        if n as nat != self.state_marker() {
            StorageError::MarkerMismatch { expected: self.state_marker() as u64, found: n }
        } else if !((n as nat) < self.header_marker()) {
            StorageError::MissingHeader { block_number: n }
        } else if first_deploy_conflict(self.deployed_at, diff.deployed_contracts, 0)
            < diff.deployed_contracts.len() {
            StorageError::ContractAlreadyExists {
                address: diff.deployed_contracts[first_deploy_conflict(
                    self.deployed_at,
                    diff.deployed_contracts,
                    0,
                )].address,
                block_number: n,
            }
        } else if first_record_conflict(diff_records(diff.storage_diffs, n), 0) < diff_records(
            diff.storage_diffs,
            n,
        ).len() {
            StorageError::StorageEntryAlreadyExists {
                address: diff_records(diff.storage_diffs, n)[first_record_conflict(
                    diff_records(diff.storage_diffs, n),
                    0,
                )].address,
                key: diff_records(diff.storage_diffs, n)[first_record_conflict(
                    diff_records(diff.storage_diffs, n),
                    0,
                )].key,
                block_number: n,
            }
        } else {
            StorageError::NonceAlreadyExists {
                address: diff.nonces[first_nonce_conflict(diff.nonces, 0)].address,
                block_number: n,
            }
        }
    }

    /// The marker of each stream by kind. The compiled-class and base-layer
    /// markers are reserved names whose write paths live outside this store.
    pub open spec fn marker_of(self, kind: crate::types::MarkerKind) -> nat {
        match kind {
            crate::types::MarkerKind::Header => self.header_marker(),
            crate::types::MarkerKind::Body => self.body_marker(),
            crate::types::MarkerKind::State => self.state_marker(),
            crate::types::MarkerKind::CompiledClass => self.compiled_class_marker as nat,
            crate::types::MarkerKind::BaseLayer => self.base_layer_marker as nat,
        }
    }

    /// Resolves a block id against a stream marker: a number must lie below
    /// the marker, a hash must be indexed and lie below the marker, and
    /// `Latest` is the marker's predecessor, refused with `NoBlocks` on an
    /// empty stream.
    pub open spec fn resolve(self, id: BlockId, marker: nat) -> Result<u64, QueryError> {
        match id {
            BlockId::Number(n) => if (n as nat) < marker {
                Ok(n)
            } else {
                Err(QueryError::InvalidBlockId)
            },
            BlockId::Hash(h) => match assoc_lookup(self.hash_index, h) {
                Some(n) => if (n as nat) < marker {
                    Ok(n)
                } else {
                    Err(QueryError::InvalidBlockId)
                },
                None => Err(QueryError::InvalidBlockId),
            },
            BlockId::Latest => if marker == 0 {
                Err(QueryError::NoBlocks)
            } else {
                Ok((marker - 1) as u64)
            },
        }
    }

    /// The transaction hashes of block `n`'s body, or the empty sequence
    /// where the body still trails the header.
    pub open spec fn body_tx_hashes(self, n: int) -> Seq<Felt> {
        if 0 <= n < self.bodies.len() {
            self.bodies[n].map_values(|t: TxModel| t.transaction_hash)
        } else {
            Seq::empty()
        }
    }

    /// The transactions of block `n`'s body, or the empty sequence where the
    /// body still trails the header.
    pub open spec fn body_txs(self, n: int) -> Seq<TxModel> {
        if 0 <= n < self.bodies.len() {
            self.bodies[n]
        } else {
            Seq::empty()
        }
    }

    /// What a point-in-time storage read returns: resolve the block against
    /// the state marker, require the contract deployed at or before it, then
    /// take the most recent write, or zero for a slot never written.
    pub open spec fn storage_at(self, address: Felt, key: Felt, id: BlockId) -> Result<
        Felt,
        QueryError,
    > {
        match self.resolve(id, self.state_marker()) {
            Err(e) => Err(e),
            Ok(n) => match assoc_lookup(self.deployed_at, address) {
                Some(d) => if d <= n {
                    Ok(
                        match history_value(self.history, address, key, n) {
                            Some(v) => v,
                            None => Felt { hi: 0, lo: 0 },
                        },
                    )
                } else {
                    Err(QueryError::ContractNotFound)
                },
                None => Err(QueryError::ContractNotFound),
            },
        }
    }

    /// What a point-in-time nonce read returns, analogously to `storage_at`:
    /// an undisturbed nonce is zero.
    pub open spec fn nonce_at(self, address: Felt, id: BlockId) -> Result<Felt, QueryError> {
        match self.resolve(id, self.state_marker()) {
            Err(e) => Err(e),
            Ok(n) => match assoc_lookup(self.deployed_at, address) {
                Some(d) => if d <= n {
                    Ok(
                        match nonce_history_value(self.nonce_history, address, n) {
                            Some(v) => v,
                            None => Felt { hi: 0, lo: 0 },
                        },
                    )
                } else {
                    Err(QueryError::ContractNotFound)
                },
                None => Err(QueryError::ContractNotFound),
            },
        }
    }

    /// What a lookup of a transaction by its block and intra-block index
    /// returns: the block id resolves against the header marker, and the
    /// index must fall inside the (possibly still absent) body.
    pub open spec fn tx_by_position(self, id: BlockId, index: u64) -> Result<TxModel, QueryError> {
        match self.resolve(id, self.header_marker()) {
            Err(e) => Err(e),
            Ok(n) => if (index as int) < self.body_txs(n as int).len() {
                Ok(self.body_txs(n as int)[index as int])
            } else {
                Err(QueryError::InvalidTransactionIndex)
            },
        }
    }
}

} // verus!
