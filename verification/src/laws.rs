//! The store's global laws, proved over the spec model.
//!
//! Each proof function here states one guarantee of the engine for every
//! well-formed state — not for chosen values — and is proved from the model
//! alone, so it holds of anything the executable layer can ever build.
//!
//! Marker denseness — the keys a stream holds are exactly `[0, marker)` —
//! needs no lemma: a stream is a sequence indexed by block number and its
//! marker is the sequence's length, so the getters' contracts already state
//! presence exactly below the marker. Snapshot isolation likewise lives in
//! the contracts of `Storage::begin_read` and `WriteScope::commit`: a read
//! scope owns its snapshot, so no later commit can reach it.

use vstd::prelude::*;

use crate::felt::Felt;
use crate::model::{
    assoc_lookup, diff_nonce_value, diff_storage_value, diffs_nonce_at, diffs_value_at,
    history_value, lemma_assoc_lookup_push, nonce_history_value, NonceRecord, StorageRecord,
    StoreModel,
};
use crate::types::{BlockHeader, DiffModel, StorageError, TxModel};

verus! {

/// Markers move one stream at a time: a successful append advances its own
/// stream's marker by exactly one and leaves every other marker unchanged,
/// so markers never decrease across commits.
pub proof fn lemma_marker_monotonic(
    m: StoreModel,
    n: u64,
    h: BlockHeader,
    body: Seq<TxModel>,
    diff: DiffModel,
)
    ensures
        m.with_header(h).header_marker() == m.header_marker() + 1,
        m.with_header(h).body_marker() == m.body_marker(),
        m.with_header(h).state_marker() == m.state_marker(),
        m.with_body(n, body).body_marker() == m.body_marker() + 1,
        m.with_body(n, body).header_marker() == m.header_marker(),
        m.with_body(n, body).state_marker() == m.state_marker(),
        m.with_state_diff(n, diff).state_marker() == m.state_marker() + 1,
        m.with_state_diff(n, diff).header_marker() == m.header_marker(),
        m.with_state_diff(n, diff).body_marker() == m.body_marker(),
{
}

/// Bodies and state diffs only trail headers: in a well-formed store neither
/// marker passes the header marker.
pub proof fn lemma_markers_ordered(m: StoreModel)
    requires
        m.wf(),
    ensures
        m.body_marker() <= m.header_marker(),
        m.state_marker() <= m.header_marker(),
{
}

/// A contract address is in the deployment table exactly when a committed
/// diff deploys it: the table names that diff's block, and every deployment
/// of every committed diff is in the table.
pub proof fn lemma_deployed_at_iff(m: StoreModel)
    requires
        m.wf(),
    ensures
        forall|j: int|
            0 <= j < m.deployed_at.len() ==> ((#[trigger] m.deployed_at[j]).1 as int)
                < m.diffs.len() && crate::model::deployed_class(
                m.diffs[m.deployed_at[j].1 as int].deployed_contracts,
                m.deployed_at[j].0,
            ) is Some,
        forall|n: int, k: int|
            0 <= n < m.diffs.len() && 0 <= k < m.diffs[n].deployed_contracts.len()
                ==> assoc_lookup(
                m.deployed_at,
                (#[trigger] m.diffs[n].deployed_contracts[k]).address,
            ) == Some(n as u64),
{
}

/// Hash-index bijectivity: every stored header's hash maps back to exactly
/// its block number, and every index row points at a stored header carrying
/// its hash.
pub proof fn lemma_hash_index_bijective(m: StoreModel)
    requires
        m.wf(),
    ensures
        forall|n: int|
            0 <= n < m.headers.len() ==> assoc_lookup(
                m.hash_index,
                (#[trigger] m.headers[n]).block_hash,
            ) == Some(n as u64),
        forall|j: int|
            0 <= j < m.hash_index.len() ==> ((#[trigger] m.hash_index[j]).1 as int)
                < m.headers.len() && m.headers[m.hash_index[j].1 as int].block_hash
                == m.hash_index[j].0,
{
}

/// Transaction-index bijectivity: the same, between bodies and the
/// transaction index.
pub proof fn lemma_tx_index_bijective(m: StoreModel)
    requires
        m.wf(),
    ensures
        forall|b: int, i: int|
            0 <= b < m.bodies.len() && 0 <= i < m.bodies[b].len() ==> assoc_lookup(
                m.tx_index,
                (#[trigger] m.bodies[b][i]).transaction_hash,
            ) == Some((b as u64, i as u64)),
        forall|j: int|
            0 <= j < m.tx_index.len() ==> ((#[trigger] m.tx_index[j]).1.0 as int)
                < m.bodies.len() && (m.tx_index[j].1.1 as int) < m.bodies[m.tx_index[j].1.0 as int].len()
                && m.bodies[m.tx_index[j].1.0 as int][m.tx_index[j].1.1 as int].transaction_hash
                == m.tx_index[j].0,
{
}

/// Idempotent restart: once the header append for block `n` is in, the very
/// same append is refused with a marker mismatch that names `n + 1` as the
/// next expected block, and an append at that new marker with a fresh hash
/// is accepted. The body and state-diff streams behave alike.
pub proof fn lemma_idempotent_restart(
    m: StoreModel,
    n: u64,
    h: BlockHeader,
    h2: BlockHeader,
    body: Seq<TxModel>,
    diff: DiffModel,
)
    requires
        m.wf(),
        n < u64::MAX,
    ensures
        m.can_append_header(n, h) ==> !m.with_header(h).can_append_header(n, h)
            && m.with_header(h).header_append_err(n, h) == (StorageError::MarkerMismatch {
            expected: (n + 1) as u64,
            found: n,
        }),
        m.can_append_header(n, h) && h2.block_hash != h.block_hash && assoc_lookup(
            m.hash_index,
            h2.block_hash,
        ) is None ==> m.with_header(h).can_append_header((n + 1) as u64, h2),
        m.can_append_body(n, body) ==> !m.with_body(n, body).can_append_body(n, body)
            && m.with_body(n, body).body_append_err(n, body) == (StorageError::MarkerMismatch {
            expected: (n + 1) as u64,
            found: n,
        }),
        m.can_append_state_diff(n, diff) ==> !m.with_state_diff(n, diff).can_append_state_diff(
            n,
            diff,
        ) && m.with_state_diff(n, diff).state_diff_err(n, diff) == (StorageError::MarkerMismatch {
            expected: (n + 1) as u64,
            found: n,
        }),
{
    if m.can_append_header(n, h) && h2.block_hash != h.block_hash && assoc_lookup(
        m.hash_index,
        h2.block_hash,
    ) is None {
        lemma_assoc_lookup_push(m.hash_index, h.block_hash, n, h2.block_hash);
    }
}

/// The last matching row of the history is a genuine maximum: a successful
/// point-in-time read names a row at or below the block, with no matching
/// row after it; a miss means no row matches at all.
proof fn lemma_history_value_props(h: Seq<StorageRecord>, a: Felt, k: Felt, b: u64)
    ensures
        (history_value(h, a, k, b) is None) <==> (forall|j: int|
            0 <= j < h.len() ==> !((#[trigger] h[j]).address == a && h[j].key == k && h[j].block
                <= b)),
        history_value(h, a, k, b) matches Some(v) ==> exists|j: int|
            0 <= j < h.len() && (#[trigger] h[j]).address == a && h[j].key == k && h[j].block <= b
                && h[j].value == v && (forall|j2: int|
                j < j2 < h.len() ==> !((#[trigger] h[j2]).address == a && h[j2].key == k
                    && h[j2].block <= b)),
    decreases h.len(),
{
    if h.len() > 0 {
        let last = h[h.len() - 1];
        lemma_history_value_props(h.drop_last(), a, k, b);
        assert(forall|j: int| 0 <= j < h.len() - 1 ==> #[trigger] h.drop_last()[j] == h[j]);
        if last.address == a && last.key == k && last.block <= b {
            let j = h.len() - 1;
            assert(h[j].address == a && h[j].key == k && h[j].block <= b && h[j].value
                == last.value);
        } else {
            if history_value(h.drop_last(), a, k, b) is None {
                assert forall|j: int| 0 <= j < h.len() implies !((#[trigger] h[j]).address == a
                    && h[j].key == k && h[j].block <= b) by {
                    if j < h.len() - 1 {
                        assert(h.drop_last()[j] == h[j]);
                        assert(!((h.drop_last()[j]).address == a && h.drop_last()[j].key == k
                            && h.drop_last()[j].block <= b));
                    }
                }
            }
            match history_value(h.drop_last(), a, k, b) {
                Some(v) => {
                    let j = choose|j: int|
                        0 <= j < h.drop_last().len() && (#[trigger] h.drop_last()[j]).address == a
                            && h.drop_last()[j].key == k && h.drop_last()[j].block <= b
                            && h.drop_last()[j].value == v && (forall|j2: int|
                            j < j2 < h.drop_last().len() ==> !((#[trigger] h.drop_last()[j2]).address
                                == a && h.drop_last()[j2].key == k && h.drop_last()[j2].block
                                <= b));
                    assert(h[j].address == a && h[j].key == k && h[j].block <= b && h[j].value
                        == v);
                    assert forall|j2: int| j < j2 < h.len() implies !((#[trigger] h[j2]).address
                        == a && h[j2].key == k && h[j2].block <= b) by {
                        if j2 < h.len() - 1 {
                            assert(h.drop_last()[j2] == h[j2]);
                        }
                    }
                },
                None => {},
            }
        }
    }
}

/// The same for the diff stream: a hit names the greatest block at or below
/// `b` whose diff writes the slot; a miss means no diff at or below `b`
/// writes it.
proof fn lemma_diffs_value_at_props(diffs: Seq<DiffModel>, a: Felt, k: Felt, b: u64)
    ensures
        (diffs_value_at(diffs, a, k, b) is None) <==> (forall|n2: int|
            0 <= n2 < diffs.len() && n2 <= b as int ==> #[trigger] diff_storage_value(
                diffs[n2].storage_diffs,
                a,
                k,
            ) is None),
        diffs_value_at(diffs, a, k, b) matches Some(v) ==> exists|n2: int|
            0 <= n2 < diffs.len() && n2 <= b as int && #[trigger] diff_storage_value(
                diffs[n2].storage_diffs,
                a,
                k,
            ) == Some(v) && (forall|n3: int|
                n2 < n3 < diffs.len() && n3 <= b as int ==> #[trigger] diff_storage_value(
                    diffs[n3].storage_diffs,
                    a,
                    k,
                ) is None),
    decreases diffs.len(),
{
    if diffs.len() > 0 {
        let last = diffs.len() - 1;
        lemma_diffs_value_at_props(diffs.drop_last(), a, k, b);
        assert(forall|j: int|
            0 <= j < diffs.len() - 1 ==> #[trigger] diffs.drop_last()[j] == diffs[j]);
        if last <= b as int && diff_storage_value(diffs[last].storage_diffs, a, k) is Some {
        } else {
            if diffs_value_at(diffs.drop_last(), a, k, b) is None {
                assert forall|n2: int| 0 <= n2 < diffs.len() && n2 <= b as int implies
                    #[trigger] diff_storage_value(diffs[n2].storage_diffs, a, k) is None by {
                    if n2 < diffs.len() - 1 {
                        assert(diffs.drop_last()[n2] == diffs[n2]);
                        assert(diff_storage_value(diffs.drop_last()[n2].storage_diffs, a, k)
                            is None);
                    }
                }
            }
            match diffs_value_at(diffs.drop_last(), a, k, b) {
                Some(v) => {
                    let n2 = choose|n2: int|
                        0 <= n2 < diffs.drop_last().len() && n2 <= b as int
                            && #[trigger] diff_storage_value(
                            diffs.drop_last()[n2].storage_diffs,
                            a,
                            k,
                        ) == Some(v) && (forall|n3: int|
                            n2 < n3 < diffs.drop_last().len() && n3 <= b as int
                                ==> #[trigger] diff_storage_value(
                                diffs.drop_last()[n3].storage_diffs,
                                a,
                                k,
                            ) is None);
                    assert(diff_storage_value(diffs[n2].storage_diffs, a, k) == Some(v));
                    assert forall|n3: int| n2 < n3 < diffs.len() && n3 <= b as int implies
                        #[trigger] diff_storage_value(diffs[n3].storage_diffs, a, k) is None by {
                        if n3 < diffs.len() - 1 {
                            assert(diffs.drop_last()[n3] == diffs[n3]);
                        }
                    }
                },
                None => {},
            }
        }
    }
}

/// Storage point-in-time correctness: in a well-formed store, the history
/// read at `(address, key, b)` returns exactly the value written by the
/// greatest block at or below `b` whose state diff modified the slot, and
/// nothing where no such diff exists. `StoreModel::storage_at` turns the
/// latter into the zero felt, per the convention that unwritten storage is
/// zero.
pub proof fn lemma_point_in_time(m: StoreModel, address: Felt, key: Felt, b: u64)
    requires
        m.wf(),
    ensures
        history_value(m.history, address, key, b) == diffs_value_at(m.diffs, address, key, b),
{
    lemma_history_value_props(m.history, address, key, b);
    lemma_diffs_value_at_props(m.diffs, address, key, b);
    match history_value(m.history, address, key, b) {
        Some(v) => {
            let j = choose|j: int|
                0 <= j < m.history.len() && (#[trigger] m.history[j]).address == address
                    && m.history[j].key == key && m.history[j].block <= b && m.history[j].value
                    == v && (forall|j2: int|
                    j < j2 < m.history.len() ==> !((#[trigger] m.history[j2]).address == address
                        && m.history[j2].key == key && m.history[j2].block <= b));
            let nj = m.history[j].block as int;
            assert(diff_storage_value(m.diffs[nj].storage_diffs, address, key) == Some(v));
            match diffs_value_at(m.diffs, address, key, b) {
                Some(v2) => {
                    let n2 = choose|n2: int|
                        0 <= n2 < m.diffs.len() && n2 <= b as int && #[trigger] diff_storage_value(
                            m.diffs[n2].storage_diffs,
                            address,
                            key,
                        ) == Some(v2) && (forall|n3: int|
                            n2 < n3 < m.diffs.len() && n3 <= b as int ==> #[trigger] diff_storage_value(
                                m.diffs[n3].storage_diffs,
                                address,
                                key,
                            ) is None);
                    assert(nj <= n2);
                    let rec = StorageRecord {
                        address,
                        key,
                        block: n2 as u64,
                        value: v2,
                    };
                    assert(m.history.contains(rec));
                    let j2 = choose|j2: int|
                        0 <= j2 < m.history.len() && #[trigger] m.history[j2] == rec;
                    assert(j2 <= j);
                    assert(m.history[j2].block <= m.history[j].block);
                    assert(n2 == nj);
                },
                None => {
                    assert(diff_storage_value(m.diffs[nj].storage_diffs, address, key) is None);
                },
            }
        },
        None => {
            assert forall|n2: int| 0 <= n2 < m.diffs.len() && n2 <= b as int implies
                #[trigger] diff_storage_value(m.diffs[n2].storage_diffs, address, key) is None by {
                match diff_storage_value(m.diffs[n2].storage_diffs, address, key) {
                    Some(v2) => {
                        let rec = StorageRecord {
                            address,
                            key,
                            block: n2 as u64,
                            value: v2,
                        };
                        assert(m.history.contains(rec));
                        let j2 = choose|j2: int|
                            0 <= j2 < m.history.len() && #[trigger] m.history[j2] == rec;
                        assert(!(m.history[j2].address == address && m.history[j2].key == key
                            && m.history[j2].block <= b));
                    },
                    None => {},
                }
            }
        },
    }
}

/// The nonce twin of `lemma_history_value_props`.
proof fn lemma_nonce_history_value_props(h: Seq<NonceRecord>, a: Felt, b: u64)
    ensures
        (nonce_history_value(h, a, b) is None) <==> (forall|j: int|
            0 <= j < h.len() ==> !((#[trigger] h[j]).address == a && h[j].block <= b)),
        nonce_history_value(h, a, b) matches Some(v) ==> exists|j: int|
            0 <= j < h.len() && (#[trigger] h[j]).address == a && h[j].block <= b && h[j].nonce
                == v && (forall|j2: int|
                j < j2 < h.len() ==> !((#[trigger] h[j2]).address == a && h[j2].block <= b)),
    decreases h.len(),
{
    if h.len() > 0 {
        let last = h[h.len() - 1];
        lemma_nonce_history_value_props(h.drop_last(), a, b);
        assert(forall|j: int| 0 <= j < h.len() - 1 ==> #[trigger] h.drop_last()[j] == h[j]);
        if last.address == a && last.block <= b {
            let j = h.len() - 1;
            assert(h[j].address == a && h[j].block <= b && h[j].nonce == last.nonce);
        } else {
            if nonce_history_value(h.drop_last(), a, b) is None {
                assert forall|j: int| 0 <= j < h.len() implies !((#[trigger] h[j]).address == a
                    && h[j].block <= b) by {
                    if j < h.len() - 1 {
                        assert(h.drop_last()[j] == h[j]);
                        assert(!((h.drop_last()[j]).address == a && h.drop_last()[j].block <= b));
                    }
                }
            }
            match nonce_history_value(h.drop_last(), a, b) {
                Some(v) => {
                    let j = choose|j: int|
                        0 <= j < h.drop_last().len() && (#[trigger] h.drop_last()[j]).address == a
                            && h.drop_last()[j].block <= b && h.drop_last()[j].nonce == v && (
                        forall|j2: int|
                            j < j2 < h.drop_last().len() ==> !((#[trigger] h.drop_last()[j2]).address
                                == a && h.drop_last()[j2].block <= b));
                    assert(h[j].address == a && h[j].block <= b && h[j].nonce == v);
                    assert forall|j2: int| j < j2 < h.len() implies !((#[trigger] h[j2]).address
                        == a && h[j2].block <= b) by {
                        if j2 < h.len() - 1 {
                            assert(h.drop_last()[j2] == h[j2]);
                        }
                    }
                },
                None => {},
            }
        }
    }
}

/// The nonce twin of `lemma_diffs_value_at_props`.
proof fn lemma_diffs_nonce_at_props(diffs: Seq<DiffModel>, a: Felt, b: u64)
    ensures
        (diffs_nonce_at(diffs, a, b) is None) <==> (forall|n2: int|
            0 <= n2 < diffs.len() && n2 <= b as int ==> #[trigger] diff_nonce_value(
                diffs[n2].nonces,
                a,
            ) is None),
        diffs_nonce_at(diffs, a, b) matches Some(v) ==> exists|n2: int|
            0 <= n2 < diffs.len() && n2 <= b as int && #[trigger] diff_nonce_value(
                diffs[n2].nonces,
                a,
            ) == Some(v) && (forall|n3: int|
                n2 < n3 < diffs.len() && n3 <= b as int ==> #[trigger] diff_nonce_value(
                    diffs[n3].nonces,
                    a,
                ) is None),
    decreases diffs.len(),
{
    if diffs.len() > 0 {
        let last = diffs.len() - 1;
        lemma_diffs_nonce_at_props(diffs.drop_last(), a, b);
        assert(forall|j: int|
            0 <= j < diffs.len() - 1 ==> #[trigger] diffs.drop_last()[j] == diffs[j]);
        if last <= b as int && diff_nonce_value(diffs[last].nonces, a) is Some {
        } else {
            if diffs_nonce_at(diffs.drop_last(), a, b) is None {
                assert forall|n2: int| 0 <= n2 < diffs.len() && n2 <= b as int implies
                    #[trigger] diff_nonce_value(diffs[n2].nonces, a) is None by {
                    if n2 < diffs.len() - 1 {
                        assert(diffs.drop_last()[n2] == diffs[n2]);
                        assert(diff_nonce_value(diffs.drop_last()[n2].nonces, a) is None);
                    }
                }
            }
            match diffs_nonce_at(diffs.drop_last(), a, b) {
                Some(v) => {
                    let n2 = choose|n2: int|
                        0 <= n2 < diffs.drop_last().len() && n2 <= b as int
                            && #[trigger] diff_nonce_value(diffs.drop_last()[n2].nonces, a)
                            == Some(v) && (forall|n3: int|
                            n2 < n3 < diffs.drop_last().len() && n3 <= b as int
                                ==> #[trigger] diff_nonce_value(
                                diffs.drop_last()[n3].nonces,
                                a,
                            ) is None);
                    assert(diff_nonce_value(diffs[n2].nonces, a) == Some(v));
                    assert forall|n3: int| n2 < n3 < diffs.len() && n3 <= b as int implies
                        #[trigger] diff_nonce_value(diffs[n3].nonces, a) is None by {
                        if n3 < diffs.len() - 1 {
                            assert(diffs.drop_last()[n3] == diffs[n3]);
                        }
                    }
                },
                None => {},
            }
        }
    }
}

/// Nonce point-in-time correctness, analogously to `lemma_point_in_time`:
/// the nonce history read at `(address, b)` returns exactly the update of
/// the greatest block at or below `b` whose diff touched the contract's
/// nonce, and nothing where no such diff exists.
pub proof fn lemma_nonce_point_in_time(m: StoreModel, address: Felt, b: u64)
    requires
        m.wf(),
    ensures
        nonce_history_value(m.nonce_history, address, b) == diffs_nonce_at(m.diffs, address, b),
{
    lemma_nonce_history_value_props(m.nonce_history, address, b);
    lemma_diffs_nonce_at_props(m.diffs, address, b);
    match nonce_history_value(m.nonce_history, address, b) {
        Some(v) => {
            let j = choose|j: int|
                0 <= j < m.nonce_history.len() && (#[trigger] m.nonce_history[j]).address
                    == address && m.nonce_history[j].block <= b && m.nonce_history[j].nonce == v
                    && (forall|j2: int|
                    j < j2 < m.nonce_history.len() ==> !((#[trigger] m.nonce_history[j2]).address
                        == address && m.nonce_history[j2].block <= b));
            let nj = m.nonce_history[j].block as int;
            assert(diff_nonce_value(m.diffs[nj].nonces, address) == Some(v));
            match diffs_nonce_at(m.diffs, address, b) {
                Some(v2) => {
                    let n2 = choose|n2: int|
                        0 <= n2 < m.diffs.len() && n2 <= b as int && #[trigger] diff_nonce_value(
                            m.diffs[n2].nonces,
                            address,
                        ) == Some(v2) && (forall|n3: int|
                            n2 < n3 < m.diffs.len() && n3 <= b as int ==> #[trigger] diff_nonce_value(
                                m.diffs[n3].nonces,
                                address,
                            ) is None);
                    assert(nj <= n2);
                    let rec = NonceRecord { address, block: n2 as u64, nonce: v2 };
                    assert(m.nonce_history.contains(rec));
                    let j2 = choose|j2: int|
                        0 <= j2 < m.nonce_history.len() && #[trigger] m.nonce_history[j2] == rec;
                    assert(j2 <= j);
                    assert(m.nonce_history[j2].block <= m.nonce_history[j].block);
                    assert(n2 == nj);
                },
                None => {
                    assert(diff_nonce_value(m.diffs[nj].nonces, address) is None);
                },
            }
        },
        None => {
            assert forall|n2: int| 0 <= n2 < m.diffs.len() && n2 <= b as int implies
                #[trigger] diff_nonce_value(m.diffs[n2].nonces, address) is None by {
                match diff_nonce_value(m.diffs[n2].nonces, address) {
                    Some(v2) => {
                        let rec = NonceRecord { address, block: n2 as u64, nonce: v2 };
                        assert(m.nonce_history.contains(rec));
                        let j2 = choose|j2: int|
                            0 <= j2 < m.nonce_history.len() && #[trigger] m.nonce_history[j2]
                                == rec;
                        assert(!(m.nonce_history[j2].address == address
                            && m.nonce_history[j2].block <= b));
                    },
                    None => {},
                }
            }
        },
    }
}

} // verus!
