//! The executable store state: the typed tables behind one snapshot or one
//! write scope, with the append operations and the read queries.
//!
//! Everything here is stated against the spec model in [`crate::model`]: each
//! operation's contract says exactly which model transition or model lookup
//! it performs, and the appends preserve the model's well-formedness.

use vstd::prelude::*;

use crate::felt::Felt;
use crate::model::{assoc_lookup, history_value, nonce_history_value, NonceRecord, StorageRecord, StoreModel};
use crate::types::{BlockHeader, BlockId, MarkerKind, QueryError, StorageError, Transaction, TxModel};

verus! {

/// First-match lookup in an executable association table.
pub fn assoc_get<V: Copy>(table: &Vec<(Felt, V)>, k: Felt) -> (r: Option<V>)
    ensures
        r == assoc_lookup(table@, k),
{
    let ghost full = table@;
    assert(table@.skip(0) =~= table@);
    let mut i: usize = 0;
    while i < table.len()
        invariant
            i <= table.len(),
            full == table@,
            assoc_lookup(full, k) == assoc_lookup(table@.skip(i as int), k),
        decreases table.len() - i,
    {
        assert(table@.skip(i as int)[0] == table@[i as int]);
        if table[i].0 == k {
            return Some(table[i].1);
        }
        assert(table@.skip(i as int).drop_first() =~= table@.skip(i + 1));
        i += 1;
    }
    assert(table@.skip(i as int) =~= Seq::<(Felt, V)>::empty());
    None
}

/// The typed tables of one store state.
pub struct StoreState {
    headers: Vec<BlockHeader>,
    bodies: Vec<crate::types::BlockBody>,
    diffs: Vec<crate::types::StateDiff>,
    hash_index: Vec<(Felt, u64)>,
    tx_index: Vec<(Felt, (u64, u64))>,
    deployed_at: Vec<(Felt, u64)>,
    class_of: Vec<(Felt, Felt)>,
    history: Vec<StorageRecord>,
    nonce_history: Vec<NonceRecord>,
    compiled_class_marker: u64,
    base_layer_marker: u64,
}

impl View for StoreState {
    type V = StoreModel;

    closed spec fn view(&self) -> StoreModel {
        StoreModel {
            headers: self.headers@,
            bodies: self.bodies@.map_values(|b: crate::types::BlockBody| b@),
            diffs: self.diffs@.map_values(|d: crate::types::StateDiff| d@),
            hash_index: self.hash_index@,
            tx_index: self.tx_index@,
            deployed_at: self.deployed_at@,
            class_of: self.class_of@,
            history: self.history@,
            nonce_history: self.nonce_history@,
            compiled_class_marker: self.compiled_class_marker,
            base_layer_marker: self.base_layer_marker,
        }
    }
}

impl StoreState {
    /// A store with nothing in it.
    pub fn empty() -> (r: StoreState)
        ensures
            r@ == StoreModel::init(),
            r@.wf(),
    {
        let r = StoreState {
            headers: Vec::new(),
            bodies: Vec::new(),
            diffs: Vec::new(),
            hash_index: Vec::new(),
            tx_index: Vec::new(),
            deployed_at: Vec::new(),
            class_of: Vec::new(),
            history: Vec::new(),
            nonce_history: Vec::new(),
            compiled_class_marker: 0,
            base_layer_marker: 0,
        };
        assert(r@ =~= StoreModel::init());
        r
    }

    /// A deep copy: the snapshot a new scope works on.
    pub fn snapshot(&self) -> (r: StoreState)
        ensures
            r@ == self@,
    {
        let r = StoreState {
            headers: crate::types::copy_vec(&self.headers),
            bodies: copy_bodies(&self.bodies),
            diffs: copy_diffs(&self.diffs),
            hash_index: crate::types::copy_vec(&self.hash_index),
            tx_index: crate::types::copy_vec(&self.tx_index),
            deployed_at: crate::types::copy_vec(&self.deployed_at),
            class_of: crate::types::copy_vec(&self.class_of),
            history: crate::types::copy_vec(&self.history),
            nonce_history: crate::types::copy_vec(&self.nonce_history),
            compiled_class_marker: self.compiled_class_marker,
            base_layer_marker: self.base_layer_marker,
        };
        assert(r@ =~= self@);
        r
    }

    /// The first block number with no header: 0 on an empty store.
    pub fn get_header_marker(&self) -> (r: u64)
        ensures
            r as nat == self@.header_marker(),
    {
        self.headers.len() as u64
    }

    /// The first block number with no body.
    pub fn get_body_marker(&self) -> (r: u64)
        ensures
            r as nat == self@.body_marker(),
    {
        self.bodies.len() as u64
    }

    /// The first block number with no state diff.
    pub fn get_state_marker(&self) -> (r: u64)
        ensures
            r as nat == self@.state_marker(),
    {
        self.diffs.len() as u64
    }

    /// The header stored at block `n`, present exactly when `n` is below the
    /// header marker.
    pub fn get_block_header(&self, n: u64) -> (r: Option<BlockHeader>)
        ensures
            (n as nat) < self@.header_marker() ==> r == Some(self@.headers[n as int]),
            (n as nat) >= self@.header_marker() ==> r is None,
    {
        if n < self.headers.len() as u64 {
            Some(self.headers[n as usize])
        } else {
            None
        }
    }

    /// The block number a hash was appended under, if any.
    pub fn get_block_number_by_hash(&self, block_hash: &Felt) -> (r: Option<u64>)
        ensures
            r == assoc_lookup(self@.hash_index, *block_hash),
    {
        assoc_get(&self.hash_index, *block_hash)
    }

    /// Appends the header for block `n`. Refused with `MarkerMismatch` when
    /// `n` is not the header marker, and with `BlockHashAlreadyExists` when
    /// the hash is already indexed; accepted otherwise, advancing the header
    /// marker to `n + 1`.
    pub fn append_header(&mut self, n: u64, header: &BlockHeader) -> (r: Result<(), StorageError>)
        requires
            old(self)@.wf(),
        ensures
            final(self)@.wf(),
            r is Ok <==> old(self)@.can_append_header(n, *header),
            r is Ok ==> final(self)@ == old(self)@.with_header(*header),
            r is Err ==> final(self)@ == old(self)@ && r == Err::<(), StorageError>(
                old(self)@.header_append_err(n, *header),
            ),
    {
        let marker = self.headers.len() as u64;
        if n != marker {
            return Err(StorageError::MarkerMismatch { expected: marker, found: n });
        }
        if assoc_get(&self.hash_index, header.block_hash).is_some() {
            return Err(StorageError::BlockHashAlreadyExists {
                block_hash: header.block_hash,
                block_number: n,
            });
        }
        let ghost pre = self@;
        self.hash_index.push((header.block_hash, n));
        self.headers.push(*header);
        proof {
            assert(self@ =~= pre.with_header(*header));
            lemma_with_header_wf(pre, *header);
        }
        Ok(())
    }

    /// Appends the body for block `n`, indexing every transaction hash.
    /// Refused with `MarkerMismatch` off the body marker, with
    /// `MissingHeader` while the header trails, and with
    /// `TransactionHashAlreadyExists` on the first hash already taken.
    pub fn append_body(&mut self, n: u64, body: &crate::types::BlockBody) -> (r: Result<
        (),
        StorageError,
    >)
        requires
            old(self)@.wf(),
        ensures
            final(self)@.wf(),
            r is Ok <==> old(self)@.can_append_body(n, body@),
            r is Ok ==> final(self)@ == old(self)@.with_body(n, body@),
            r is Err ==> final(self)@ == old(self)@ && r == Err::<(), StorageError>(
                old(self)@.body_append_err(n, body@),
            ),
    {
        let marker = self.bodies.len() as u64;
        if n != marker {
            return Err(StorageError::MarkerMismatch { expected: marker, found: n });
        }
        if n >= self.headers.len() as u64 {
            return Err(StorageError::MissingHeader { block_number: n });
        }
        let ghost pre = self@;
        let ghost bodyv = body@;
        let txs = &body.transactions;
        let mut entries: Vec<(Felt, (u64, u64))> = Vec::new();
        assert(entries@ =~= crate::model::body_entries_upto(bodyv, n, 0));
        let mut i: usize = 0;
        while i < txs.len()
            invariant
                self@ == pre,
                pre == old(self)@,
                bodyv == body@,
                pre.wf(),
                n as nat == pre.body_marker(),
                (n as nat) < pre.header_marker(),
                i <= txs.len(),
                bodyv == txs@.map_values(|t: Transaction| t@),
                entries@ == crate::model::body_entries_upto(bodyv, n, i as int),
                forall|j: int| 0 <= j < i ==> !crate::model::tx_conflict_at(pre.tx_index, bodyv, j),
            decreases txs.len() - i,
        {
            let h = txs[i].transaction_hash;
            assert(bodyv[i as int].transaction_hash == h);
            if assoc_get(&self.tx_index, h).is_some() {
                proof {
                    assert(crate::model::tx_conflict_at(pre.tx_index, bodyv, i as int));
                    crate::model::lemma_first_tx_conflict_locate(pre.tx_index, bodyv, i as int);
                    assert(crate::model::first_tx_conflict(pre.tx_index, bodyv, 0) == i as int);
                    assert(!pre.can_append_body(n, bodyv));
                }
                return Err(StorageError::TransactionHashAlreadyExists {
                    transaction_hash: h,
                    block_number: n,
                });
            }
            if assoc_get(&entries, h).is_some() {
                proof {
                    crate::model::lemma_assoc_lookup_none(entries@, h);
                    let j = choose|j: int| 0 <= j < entries@.len() && (#[trigger] entries@[j]).0 == h;
                    assert(entries@[j].0 == bodyv[j].transaction_hash);
                    assert(crate::model::tx_conflict_at(pre.tx_index, bodyv, i as int));
                    crate::model::lemma_first_tx_conflict_locate(pre.tx_index, bodyv, i as int);
                    assert(crate::model::first_tx_conflict(pre.tx_index, bodyv, 0) == i as int);
                    assert(!pre.can_append_body(n, bodyv));
                }
                return Err(StorageError::TransactionHashAlreadyExists {
                    transaction_hash: h,
                    block_number: n,
                });
            }
            proof {
                crate::model::lemma_assoc_lookup_none(entries@, h);
                assert forall|j: int| 0 <= j < i implies (#[trigger] bodyv[j]).transaction_hash
                    != h by {
                    assert(entries@[j].0 == bodyv[j].transaction_hash);
                }
                assert(!crate::model::tx_conflict_at(pre.tx_index, bodyv, i as int));
            }
            entries.push((h, (n, i as u64)));
            assert(entries@ =~= crate::model::body_entries_upto(bodyv, n, i as int + 1));
            i += 1;
        }
        proof {
            assert forall|ii: int| 0 <= ii < bodyv.len() implies assoc_lookup(
                pre.tx_index,
                (#[trigger] bodyv[ii]).transaction_hash,
            ) is None by {
                assert(!crate::model::tx_conflict_at(pre.tx_index, bodyv, ii));
            }
            assert forall|i1: int, i2: int| 0 <= i1 < i2 < bodyv.len() implies (
            #[trigger] bodyv[i1]).transaction_hash != (#[trigger] bodyv[i2]).transaction_hash by {
                assert(!crate::model::tx_conflict_at(pre.tx_index, bodyv, i2));
            }
            assert(pre.can_append_body(n, bodyv));
            assert(entries@ == crate::model::body_entries(bodyv, n));
        }
        assert(bodyv.len() <= u64::MAX) by {
            assert(bodyv.len() == txs@.len());
        }
        self.tx_index.append(&mut entries);
        self.bodies.push(crate::types::copy_body(body));
        proof {
            assert(self@.bodies =~= pre.bodies.push(bodyv));
            assert(self@ =~= pre.with_body(n, bodyv));
            lemma_with_body_wf(pre, n, bodyv);
        }
        Ok(())
    }

    /// Appends the state diff for block `n`: stores the diff, records every
    /// deployment, storage write and nonce update, and advances the state
    /// marker. Refused with `MarkerMismatch` off the state marker, with
    /// `MissingHeader` while the header trails, and otherwise with the first
    /// duplicate deployment, storage slot or nonce the diff carries.
    pub fn append_state_diff(&mut self, n: u64, diff: &crate::types::StateDiff) -> (r: Result<
        (),
        StorageError,
    >)
        requires
            old(self)@.wf(),
        ensures
            final(self)@.wf(),
            r is Ok <==> old(self)@.can_append_state_diff(n, diff@),
            r is Ok ==> final(self)@ == old(self)@.with_state_diff(n, diff@),
            r is Err ==> final(self)@ == old(self)@ && r == Err::<(), StorageError>(
                old(self)@.state_diff_err(n, diff@),
            ),
    {
        let marker = self.diffs.len() as u64;
        if n != marker {
            return Err(StorageError::MarkerMismatch { expected: marker, found: n });
        }
        if n >= self.headers.len() as u64 {
            return Err(StorageError::MissingHeader { block_number: n });
        }
        let ghost pre = self@;
        let ghost diffv = diff@;

        // Deployments: refuse an address already deployed or repeated.
        let dlist = &diff.deployed_contracts;
        let ghost dlistv = diffv.deployed_contracts;
        let mut dep_entries: Vec<(Felt, u64)> = Vec::new();
        let mut cls_entries: Vec<(Felt, Felt)> = Vec::new();
        assert(dep_entries@ =~= crate::model::deploy_entries_upto(dlistv, n, 0));
        assert(cls_entries@ =~= crate::model::class_entries_upto(dlistv, 0));
        let mut i: usize = 0;
        while i < dlist.len()
            invariant
                self@ == pre,
                pre == old(self)@,
                diffv == diff@,
                dlistv == dlist@,
                dlistv == diffv.deployed_contracts,
                pre.wf(),
                n as nat == pre.state_marker(),
                (n as nat) < pre.header_marker(),
                i <= dlist.len(),
                dep_entries@ == crate::model::deploy_entries_upto(dlistv, n, i as int),
                cls_entries@ == crate::model::class_entries_upto(dlistv, i as int),
                forall|j: int|
                    0 <= j < i ==> !crate::model::deploy_conflict_at(pre.deployed_at, dlistv, j),
            decreases dlist.len() - i,
        {
            let a = dlist[i].address;
            if assoc_get(&self.deployed_at, a).is_some() {
                proof {
                    assert(crate::model::deploy_conflict_at(pre.deployed_at, dlistv, i as int));
                    crate::model::lemma_first_deploy_conflict_locate(
                        pre.deployed_at,
                        dlistv,
                        i as int,
                    );
                    assert(!pre.can_append_state_diff(n, diffv));
                }
                return Err(StorageError::ContractAlreadyExists { address: a, block_number: n });
            }
            if assoc_get(&dep_entries, a).is_some() {
                proof {
                    crate::model::lemma_assoc_lookup_none(dep_entries@, a);
                    let j = choose|j: int|
                        0 <= j < dep_entries@.len() && (#[trigger] dep_entries@[j]).0 == a;
                    assert(dep_entries@[j].0 == dlistv[j].address);
                    assert(crate::model::deploy_conflict_at(pre.deployed_at, dlistv, i as int));
                    crate::model::lemma_first_deploy_conflict_locate(
                        pre.deployed_at,
                        dlistv,
                        i as int,
                    );
                    assert(!pre.can_append_state_diff(n, diffv));
                }
                return Err(StorageError::ContractAlreadyExists { address: a, block_number: n });
            }
            proof {
                crate::model::lemma_assoc_lookup_none(dep_entries@, a);
                assert forall|j: int| 0 <= j < i implies (#[trigger] dlistv[j]).address != a by {
                    assert(dep_entries@[j].0 == dlistv[j].address);
                }
                assert(!crate::model::deploy_conflict_at(pre.deployed_at, dlistv, i as int));
            }
            dep_entries.push((a, n));
            cls_entries.push((a, dlist[i].class_hash));
            assert(dep_entries@ =~= crate::model::deploy_entries_upto(dlistv, n, i as int + 1));
            assert(cls_entries@ =~= crate::model::class_entries_upto(dlistv, i as int + 1));
            i += 1;
        }
        proof {
            crate::model::lemma_first_deploy_conflict_locate(
                pre.deployed_at,
                dlistv,
                dlistv.len() as int,
            );
            assert forall|k: int| 0 <= k < dlistv.len() implies assoc_lookup(
                pre.deployed_at,
                (#[trigger] dlistv[k]).address,
            ) is None by {
                assert(!crate::model::deploy_conflict_at(pre.deployed_at, dlistv, k));
            }
            assert forall|k1: int, k2: int| 0 <= k1 < k2 < dlistv.len() implies (
            #[trigger] dlistv[k1]).address != (#[trigger] dlistv[k2]).address by {
                assert(!crate::model::deploy_conflict_at(pre.deployed_at, dlistv, k2));
            }
        }

        // Storage writes: flatten the diff into history rows.
        let ghost sdv = diffv.storage_diffs;
        let ghost recsv = crate::model::diff_records(sdv, n);
        let mut recs: Vec<StorageRecord> = Vec::new();
        assert(sdv.take(0) =~= Seq::<crate::types::StorageDiffModel>::empty());
        assert(recs@ =~= crate::model::diff_records(sdv.take(0), n));
        let mut g: usize = 0;
        while g < diff.storage_diffs.len()
            invariant
                diffv == diff@,
                sdv == diffv.storage_diffs,
                sdv.len() == diff.storage_diffs@.len(),
                g <= diff.storage_diffs.len(),
                recs@ == crate::model::diff_records(sdv.take(g as int), n),
            decreases diff.storage_diffs.len() - g,
        {
            let group = &diff.storage_diffs[g];
            let ghost gv = sdv[g as int];
            assert(gv == group@);
            assert(crate::model::group_records_upto(gv, n, 0) =~= Seq::<StorageRecord>::empty());
            let mut k: usize = 0;
            while k < group.entries.len()
                invariant
                    gv == group@,
                    gv.entries == group.entries@,
                    k <= group.entries.len(),
                    recs@ == crate::model::diff_records(sdv.take(g as int), n)
                        + crate::model::group_records_upto(gv, n, k as int),
                decreases group.entries.len() - k,
            {
                recs.push(
                    StorageRecord {
                        address: group.address,
                        key: group.entries[k].key,
                        block: n,
                        value: group.entries[k].value,
                    },
                );
                assert(crate::model::group_records_upto(gv, n, k as int + 1)
                    =~= crate::model::group_records_upto(gv, n, k as int).push(
                    StorageRecord {
                        address: gv.address,
                        key: gv.entries[k as int].key,
                        block: n,
                        value: gv.entries[k as int].value,
                    },
                ));
                k += 1;
            }
            proof {
                assert(crate::model::group_records_upto(gv, n, group.entries@.len() as int)
                    =~= crate::model::group_records(gv, n));
                crate::model::lemma_diff_records_take_snoc(sdv, n, g as int);
            }
            g += 1;
        }
        proof {
            assert(sdv.take(sdv.len() as int) =~= sdv);
            assert(recs@ == recsv);
        }

        // Refuse a storage slot written twice.
        let mut p: usize = 0;
        while p < recs.len()
            invariant
                self@ == pre,
                pre == old(self)@,
                diffv == diff@,
                dlistv == diffv.deployed_contracts,
                pre.wf(),
                n as nat == pre.state_marker(),
                (n as nat) < pre.header_marker(),
                recs@ == recsv,
                recsv == crate::model::diff_records(diffv.storage_diffs, n),
                crate::model::first_deploy_conflict(pre.deployed_at, dlistv, 0) == dlistv.len(),
                p <= recs.len(),
                forall|j: int| 0 <= j < p ==> !crate::model::record_conflict_at(recsv, j),
            decreases recs.len() - p,
        {
            let rec = recs[p];
            if records_dup_before(&recs, p, rec.address, rec.key) {
                proof {
                    assert(crate::model::record_conflict_at(recsv, p as int));
                    crate::model::lemma_first_record_conflict_locate(recsv, p as int);
                    let q = choose|q: int|
                        0 <= q < p && (#[trigger] recsv[q]).address == recsv[p as int].address
                            && recsv[q].key == recsv[p as int].key;
                    assert(!crate::model::records_nodup(recsv));
                    assert(!pre.can_append_state_diff(n, diffv));
                }
                return Err(StorageError::StorageEntryAlreadyExists {
                    address: rec.address,
                    key: rec.key,
                    block_number: n,
                });
            }
            p += 1;
        }
        proof {
            assert forall|j1: int, j2: int| 0 <= j1 < j2 < recsv.len() implies !((
            #[trigger] recsv[j1]).address == (#[trigger] recsv[j2]).address && recsv[j1].key
                == recsv[j2].key) by {
                assert(!crate::model::record_conflict_at(recsv, j2));
            }
            assert(crate::model::records_nodup(recsv));
            crate::model::lemma_first_record_conflict_locate(recsv, recsv.len() as int);
        }

        // Nonce updates: refuse a contract updated twice.
        let nlist = &diff.nonces;
        let ghost nlistv = diffv.nonces;
        let mut nrecs: Vec<NonceRecord> = Vec::new();
        assert(nrecs@ =~= crate::model::nonce_records_upto(nlistv, n, 0));
        let mut u: usize = 0;
        while u < nlist.len()
            invariant
                self@ == pre,
                pre == old(self)@,
                diffv == diff@,
                nlistv == nlist@,
                nlistv == diffv.nonces,
                dlistv == diffv.deployed_contracts,
                recsv == crate::model::diff_records(diffv.storage_diffs, n),
                pre.wf(),
                n as nat == pre.state_marker(),
                (n as nat) < pre.header_marker(),
                crate::model::first_deploy_conflict(pre.deployed_at, dlistv, 0) == dlistv.len(),
                crate::model::first_record_conflict(recsv, 0) == recsv.len(),
                crate::model::records_nodup(recsv),
                u <= nlist.len(),
                nrecs@ == crate::model::nonce_records_upto(nlistv, n, u as int),
                forall|j: int| 0 <= j < u ==> !crate::model::nonce_conflict_at(nlistv, j),
            decreases nlist.len() - u,
        {
            let a = nlist[u].address;
            if nonce_dup_before(&nrecs, a) {
                proof {
                    let q = choose|q: int|
                        0 <= q < nrecs@.len() && (#[trigger] nrecs@[q]).address == a;
                    assert(nlistv[q].address == a);
                    assert(crate::model::nonce_conflict_at(nlistv, u as int));
                    crate::model::lemma_first_nonce_conflict_locate(nlistv, u as int);
                    assert(!pre.can_append_state_diff(n, diffv));
                }
                return Err(StorageError::NonceAlreadyExists { address: a, block_number: n });
            }
            proof {
                assert forall|j: int| 0 <= j < u implies (#[trigger] nlistv[j]).address != a by {
                    assert(nrecs@[j].address == nlistv[j].address);
                }
                assert(!crate::model::nonce_conflict_at(nlistv, u as int));
            }
            nrecs.push(NonceRecord { address: a, block: n, nonce: nlist[u].nonce });
            assert(nrecs@ =~= crate::model::nonce_records_upto(nlistv, n, u as int + 1));
            u += 1;
        }
        proof {
            assert forall|k1: int, k2: int| 0 <= k1 < k2 < nlistv.len() implies (
            #[trigger] nlistv[k1]).address != (#[trigger] nlistv[k2]).address by {
                assert(!crate::model::nonce_conflict_at(nlistv, k2));
            }
            assert forall|k: int| 0 <= k < dlistv.len() implies assoc_lookup(
                pre.deployed_at,
                (#[trigger] dlistv[k]).address,
            ) is None by {
                assert(!crate::model::deploy_conflict_at(pre.deployed_at, dlistv, k));
            }
            assert(pre.can_append_state_diff(n, diffv));
            assert(nrecs@ =~= crate::model::diff_nonce_records(nlistv, n));
        }

        // Install everything: one atomic step of the model.
        self.deployed_at.append(&mut dep_entries);
        self.class_of.append(&mut cls_entries);
        self.history.append(&mut recs);
        self.nonce_history.append(&mut nrecs);
        self.diffs.push(crate::types::copy_state_diff(diff));
        proof {
            assert(self@.diffs =~= pre.diffs.push(diffv));
            assert(self@ =~= pre.with_state_diff(n, diffv));
            lemma_with_state_diff_wf(pre, n, diffv);
        }
        Ok(())
    }

    /// The marker of any stream by kind.
    pub fn get_marker(&self, kind: MarkerKind) -> (r: u64)
        ensures
            r as nat == self@.marker_of(kind),
    {
        match kind {
            MarkerKind::Header => self.headers.len() as u64,
            MarkerKind::Body => self.bodies.len() as u64,
            MarkerKind::State => self.diffs.len() as u64,
            MarkerKind::CompiledClass => self.compiled_class_marker,
            MarkerKind::BaseLayer => self.base_layer_marker,
        }
    }

    /// The body stored at block `n`, present exactly when `n` is below the
    /// body marker.
    pub fn get_block_body(&self, n: u64) -> (r: Option<&crate::types::BlockBody>)
        ensures
            (n as nat) < self@.body_marker() ==> (r matches Some(b) && b@ == self@.bodies[n as int]),
            (n as nat) >= self@.body_marker() ==> r is None,
    {
        if n < self.bodies.len() as u64 {
            Some(&self.bodies[n as usize])
        } else {
            None
        }
    }

    /// The state diff stored at block `n`, present exactly when `n` is below
    /// the state marker.
    pub fn get_state_diff(&self, n: u64) -> (r: Option<&crate::types::StateDiff>)
        ensures
            (n as nat) < self@.state_marker() ==> (r matches Some(d) && d@ == self@.diffs[n as int]),
            (n as nat) >= self@.state_marker() ==> r is None,
    {
        if n < self.diffs.len() as u64 {
            Some(&self.diffs[n as usize])
        } else {
            None
        }
    }

    /// Where a transaction hash lives: its block number and index in the
    /// block, if any body holds it.
    pub fn get_transaction(&self, tx_hash: &Felt) -> (r: Option<(u64, u64)>)
        ensures
            r == assoc_lookup(self@.tx_index, *tx_hash),
    {
        assoc_get(&self.tx_index, *tx_hash)
    }

    /// The transaction at index `index` of block `n`'s body, if both exist.
    pub fn get_transaction_by(&self, n: u64, index: u64) -> (r: Option<Transaction>)
        ensures
            (index as int) < self@.body_txs(n as int).len() ==> (r matches Some(t) && t@
                == self@.body_txs(n as int)[index as int]),
            (index as int) >= self@.body_txs(n as int).len() ==> r is None,
    {
        if n < self.bodies.len() as u64 {
            let txs = &self.bodies[n as usize].transactions;
            if index < txs.len() as u64 {
                return Some(crate::types::copy_transaction(&txs[index as usize]));
            }
        }
        None
    }

    /// The block a contract was deployed at, if it was.
    pub fn get_deployed_block(&self, address: &Felt) -> (r: Option<u64>)
        ensures
            r == assoc_lookup(self@.deployed_at, *address),
    {
        assoc_get(&self.deployed_at, *address)
    }

    /// The class hash a contract was deployed with, if it was.
    pub fn get_class_hash(&self, address: &Felt) -> (r: Option<Felt>)
        ensures
            r == assoc_lookup(self@.class_of, *address),
    {
        assoc_get(&self.class_of, *address)
    }

    /// Resolves a block id against a stream marker.
    fn resolve_block_id(&self, id: &BlockId, marker: u64) -> (r: Result<u64, QueryError>)
        ensures
            r == self@.resolve(*id, marker as nat),
    {
        match id {
            BlockId::Number(n) => if *n < marker {
                Ok(*n)
            } else {
                Err(QueryError::InvalidBlockId)
            },
            BlockId::Hash(h) => match assoc_get(&self.hash_index, *h) {
                Some(n) => if n < marker {
                    Ok(n)
                } else {
                    Err(QueryError::InvalidBlockId)
                },
                None => Err(QueryError::InvalidBlockId),
            },
            BlockId::Latest => if marker == 0 {
                Err(QueryError::NoBlocks)
            } else {
                Ok(marker - 1)
            },
        }
    }

    /// The number of the latest block with a header, or `NoBlocks`.
    pub fn block_number(&self) -> (r: Result<u64, QueryError>)
        ensures
            self@.header_marker() == 0 ==> r == Err::<u64, QueryError>(QueryError::NoBlocks),
            self@.header_marker() > 0 ==> r == Ok::<u64, QueryError>(
                (self@.header_marker() - 1) as u64,
            ),
    {
        let marker = self.headers.len() as u64;
        if marker == 0 {
            Err(QueryError::NoBlocks)
        } else {
            Ok(marker - 1)
        }
    }

    /// The header of the named block together with its transaction hashes;
    /// a body still trailing its header reads as empty.
    pub fn get_block_with_tx_hashes(&self, id: &BlockId) -> (r: Result<
        (BlockHeader, Vec<Felt>),
        QueryError,
    >)
        ensures
            self@.resolve(*id, self@.header_marker()) matches Err(e) ==> r == Err::<
                (BlockHeader, Vec<Felt>),
                QueryError,
            >(e),
            self@.resolve(*id, self@.header_marker()) matches Ok(n) ==> (r matches Ok(p)
                && p.0 == self@.headers[n as int] && p.1@ == self@.body_tx_hashes(n as int)),
    {
        let n = match self.resolve_block_id(id, self.headers.len() as u64) {
            Ok(n) => n,
            Err(e) => {
                return Err(e);
            },
        };
        let header = self.headers[n as usize];
        let mut hashes: Vec<Felt> = Vec::new();
        if n < self.bodies.len() as u64 {
            let txs = &self.bodies[n as usize].transactions;
            let mut i: usize = 0;
            while i < txs.len()
                invariant
                    i <= txs.len(),
                    hashes@.len() == i,
                    forall|j: int| 0 <= j < i ==> #[trigger] hashes@[j] == txs@[j]@.transaction_hash,
                decreases txs.len() - i,
            {
                hashes.push(txs[i].transaction_hash);
                i += 1;
            }
            assert(hashes@ =~= self@.body_tx_hashes(n as int));
        } else {
            assert(hashes@ =~= self@.body_tx_hashes(n as int));
        }
        Ok((header, hashes))
    }

    /// The header of the named block together with its full transactions;
    /// a body still trailing its header reads as empty.
    pub fn get_block_with_txs(&self, id: &BlockId) -> (r: Result<
        (BlockHeader, Vec<Transaction>),
        QueryError,
    >)
        ensures
            self@.resolve(*id, self@.header_marker()) matches Err(e) ==> r == Err::<
                (BlockHeader, Vec<Transaction>),
                QueryError,
            >(e),
            self@.resolve(*id, self@.header_marker()) matches Ok(n) ==> (r matches Ok(p)
                && p.0 == self@.headers[n as int] && p.1@.map_values(|t: Transaction| t@)
                == self@.body_txs(n as int)),
    {
        let n = match self.resolve_block_id(id, self.headers.len() as u64) {
            Ok(n) => n,
            Err(e) => {
                return Err(e);
            },
        };
        let header = self.headers[n as usize];
        let txs: Vec<Transaction> = if n < self.bodies.len() as u64 {
            crate::types::copy_transactions(&self.bodies[n as usize].transactions)
        } else {
            Vec::new()
        };
        proof {
            if (n as int) < self@.bodies.len() {
                assert(self@.body_txs(n as int) == self@.bodies[n as int]);
            } else {
                assert(txs@.map_values(|t: Transaction| t@) =~= Seq::<TxModel>::empty());
            }
        }
        Ok((header, txs))
    }

    /// The value of a contract's storage slot as of the named block, per the
    /// point-in-time rules: the most recent write at or before the block, or
    /// zero for a slot never written.
    pub fn get_storage_at(&self, address: Felt, key: Felt, id: &BlockId) -> (r: Result<
        Felt,
        QueryError,
    >)
        ensures
            r == self@.storage_at(address, key, *id),
    {
        let n = match self.resolve_block_id(id, self.diffs.len() as u64) {
            Ok(n) => n,
            Err(e) => {
                return Err(e);
            },
        };
        match assoc_get(&self.deployed_at, address) {
            Some(d) => {
                if d <= n {
                    match history_get(&self.history, address, key, n) {
                        Some(v) => Ok(v),
                        None => Ok(Felt { hi: 0, lo: 0 }),
                    }
                } else {
                    Err(QueryError::ContractNotFound)
                }
            },
            None => Err(QueryError::ContractNotFound),
        }
    }

    /// A contract's nonce as of the named block: the most recent update at
    /// or before it, or zero.
    pub fn get_nonce_at(&self, address: Felt, id: &BlockId) -> (r: Result<Felt, QueryError>)
        ensures
            r == self@.nonce_at(address, *id),
    {
        let n = match self.resolve_block_id(id, self.diffs.len() as u64) {
            Ok(n) => n,
            Err(e) => {
                return Err(e);
            },
        };
        match assoc_get(&self.deployed_at, address) {
            Some(d) => {
                if d <= n {
                    match nonce_get(&self.nonce_history, address, n) {
                        Some(v) => Ok(v),
                        None => Ok(Felt { hi: 0, lo: 0 }),
                    }
                } else {
                    Err(QueryError::ContractNotFound)
                }
            },
            None => Err(QueryError::ContractNotFound),
        }
    }

    /// The transaction carrying the given hash, found through the
    /// transaction index.
    pub fn get_transaction_by_hash(&self, tx_hash: &Felt) -> (r: Result<Transaction, QueryError>)
        requires
            self@.wf(),
        ensures
            assoc_lookup(self@.tx_index, *tx_hash) matches Some(loc) ==> (r matches Ok(t) && t@
                == self@.bodies[loc.0 as int][loc.1 as int]),
            assoc_lookup(self@.tx_index, *tx_hash) is None ==> r == Err::<
                Transaction,
                QueryError,
            >(QueryError::InvalidTransactionHash),
    {
        match assoc_get(&self.tx_index, *tx_hash) {
            Some(loc) => {
                proof {
                    crate::model::lemma_assoc_lookup_some(self@.tx_index, *tx_hash);
                    let j = choose|j: int|
                        0 <= j < self@.tx_index.len() && #[trigger] self@.tx_index[j] == (
                        *tx_hash,
                        loc,
                        );
                    assert((self@.tx_index[j].1.0 as int) < self@.bodies.len() && (
                    self@.tx_index[j].1.1 as int) < self@.bodies[self@.tx_index[j].1.0 as int].len());
                    assert(self@.bodies.len() == self.bodies@.len());
                    assert(self@.bodies[loc.0 as int] == self.bodies@[loc.0 as int]@);
                }
                let (b, i) = loc;
                let blen = self.bodies.len();
                assert((b as int) < blen as int);
                let body = &self.bodies[b as usize];
                let tlen = body.transactions.len();
                assert((i as int) < tlen as int) by {
                    assert(self@.bodies[b as int].len() == body.transactions@.len());
                }
                let tx = crate::types::copy_transaction(&body.transactions[i as usize]);
                assert(tx@ == self@.bodies[b as int][i as int]);
                Ok(tx)
            },
            None => Err(QueryError::InvalidTransactionHash),
        }
    }

    /// The transaction at the given index of the named block; an index past
    /// the (possibly still absent) body is refused.
    pub fn get_transaction_by_block_id_and_index(&self, id: &BlockId, index: u64) -> (r: Result<
        Transaction,
        QueryError,
    >)
        ensures
            self@.tx_by_position(*id, index) matches Ok(tm) ==> (r matches Ok(t) && t@ == tm),
            self@.tx_by_position(*id, index) matches Err(e) ==> r == Err::<
                Transaction,
                QueryError,
            >(e),
    {
        let n = match self.resolve_block_id(id, self.headers.len() as u64) {
            Ok(n) => n,
            Err(e) => {
                return Err(e);
            },
        };
        if n < self.bodies.len() as u64 {
            let txs = &self.bodies[n as usize].transactions;
            if index < txs.len() as u64 {
                return Ok(crate::types::copy_transaction(&txs[index as usize]));
            }
        }
        Err(QueryError::InvalidTransactionIndex)
    }
}

/// Scans the block-ordered history from the end for the most recent write to
/// `(address, key)` at or before block `b`.
fn history_get(h: &Vec<StorageRecord>, address: Felt, key: Felt, b: u64) -> (r: Option<Felt>)
    ensures
        r == history_value(h@, address, key, b),
{
    let mut j: usize = h.len();
    assert(h@.take(j as int) =~= h@);
    while j > 0
        invariant
            j <= h.len(),
            history_value(h@, address, key, b) == history_value(h@.take(j as int), address, key, b),
        decreases j,
    {
        j -= 1;
        let e = h[j];
        assert(h@.take(j + 1 as int).last() == h@[j as int]);
        assert(h@.take(j + 1 as int).drop_last() =~= h@.take(j as int));
        if e.address == address && e.key == key && e.block <= b {
            return Some(e.value);
        }
    }
    assert(h@.take(0) =~= Seq::<StorageRecord>::empty());
    None
}

/// Scans the nonce history from the end for the most recent update for
/// `address` at or before block `b`.
fn nonce_get(h: &Vec<NonceRecord>, address: Felt, b: u64) -> (r: Option<Felt>)
    ensures
        r == nonce_history_value(h@, address, b),
{
    let mut j: usize = h.len();
    assert(h@.take(j as int) =~= h@);
    while j > 0
        invariant
            j <= h.len(),
            nonce_history_value(h@, address, b) == nonce_history_value(
                h@.take(j as int),
                address,
                b,
            ),
        decreases j,
    {
        j -= 1;
        let e = h[j];
        assert(h@.take(j + 1 as int).last() == h@[j as int]);
        assert(h@.take(j + 1 as int).drop_last() =~= h@.take(j as int));
        if e.address == address && e.block <= b {
            return Some(e.nonce);
        }
    }
    assert(h@.take(0) =~= Seq::<NonceRecord>::empty());
    None
}

/// A successful header append preserves well-formedness.
proof fn lemma_with_header_wf(m: StoreModel, h: BlockHeader)
    requires
        m.wf(),
        m.headers.len() <= u64::MAX,
        assoc_lookup(m.hash_index, h.block_hash) is None,
    ensures
        m.with_header(h).wf(),
{
    let post = m.with_header(h);
    let n = m.headers.len() as int;
    crate::model::lemma_assoc_lookup_none(m.hash_index, h.block_hash);
    assert forall|j: int| 0 <= j < post.hash_index.len() implies {
        &&& ((#[trigger] post.hash_index[j]).1 as int) < post.headers.len()
        &&& post.headers[post.hash_index[j].1 as int].block_hash == post.hash_index[j].0
    } by {
        if j < m.hash_index.len() {
            assert(post.hash_index[j] == m.hash_index[j]);
            assert(post.headers[m.hash_index[j].1 as int] == m.headers[m.hash_index[j].1 as int]);
        } else {
            assert(post.hash_index[j] == (h.block_hash, n as u64));
            assert(post.headers[n] == h);
        }
    }
    assert forall|q: int| 0 <= q < post.headers.len() implies assoc_lookup(
        post.hash_index,
        (#[trigger] post.headers[q]).block_hash,
    ) == Some(q as u64) by {
        crate::model::lemma_assoc_lookup_push(
            m.hash_index,
            h.block_hash,
            n as u64,
            post.headers[q].block_hash,
        );
        if q < n {
            assert(post.headers[q] == m.headers[q]);
        } else {
            assert(post.headers[q] == h);
        }
    }
    assert forall|j1: int, j2: int| 0 <= j1 < j2 < post.hash_index.len() implies (
    #[trigger] post.hash_index[j1]).0 != (#[trigger] post.hash_index[j2]).0 by {
        if j2 < m.hash_index.len() {
            assert(post.hash_index[j1] == m.hash_index[j1]);
            assert(post.hash_index[j2] == m.hash_index[j2]);
        } else {
            assert(post.hash_index[j1] == m.hash_index[j1]);
            assert(post.hash_index[j2] == (h.block_hash, n as u64));
            assert(m.hash_index[j1].0 != h.block_hash);
        }
    }
    assert(post.hash_index_wf());
    assert(post.tx_index_wf());
    assert(post.deployed_wf());
    assert(post.history_wf());
    assert(post.nonce_wf());
}

/// A successful body append preserves well-formedness.
proof fn lemma_with_body_wf(m: StoreModel, n: u64, body: Seq<TxModel>)
    requires
        m.wf(),
        m.can_append_body(n, body),
        body.len() <= u64::MAX,
    ensures
        m.with_body(n, body).wf(),
{
    let post = m.with_body(n, body);
    let e = crate::model::body_entries(body, n);
    let ol = m.tx_index.len() as int;
    assert forall|j: int| 0 <= j < post.tx_index.len() implies {
        &&& ((#[trigger] post.tx_index[j]).1.0 as int) < post.bodies.len()
        &&& (post.tx_index[j].1.1 as int) < post.bodies[post.tx_index[j].1.0 as int].len()
        &&& post.bodies[post.tx_index[j].1.0 as int][post.tx_index[j].1.1 as int].transaction_hash
            == post.tx_index[j].0
    } by {
        if j < ol {
            assert(post.tx_index[j] == m.tx_index[j]);
            assert(post.bodies[m.tx_index[j].1.0 as int] == m.bodies[m.tx_index[j].1.0 as int]);
        } else {
            assert(post.tx_index[j] == e[j - ol]);
            assert(e[j - ol] == (body[j - ol].transaction_hash, (n, (j - ol) as u64)));
            assert(post.bodies[n as int] == body);
        }
    }
    assert forall|b: int, i2: int|
        0 <= b < post.bodies.len() && 0 <= i2 < post.bodies[b].len() implies assoc_lookup(
        post.tx_index,
        (#[trigger] post.bodies[b][i2]).transaction_hash,
    ) == Some((b as u64, i2 as u64)) by {
        crate::model::lemma_assoc_lookup_concat(
            m.tx_index,
            e,
            post.bodies[b][i2].transaction_hash,
        );
        if b < m.bodies.len() {
            assert(post.bodies[b] == m.bodies[b]);
        } else {
            assert(post.bodies[b] == body);
            assert(assoc_lookup(m.tx_index, body[i2].transaction_hash) is None);
            crate::model::lemma_body_entries_lookup(
                body,
                n,
                body.len() as int,
                body[i2].transaction_hash,
            );
        }
    }
    assert forall|j1: int, j2: int| 0 <= j1 < j2 < post.tx_index.len() implies (
    #[trigger] post.tx_index[j1]).0 != (#[trigger] post.tx_index[j2]).0 by {
        if j2 < ol {
            assert(post.tx_index[j1] == m.tx_index[j1]);
            assert(post.tx_index[j2] == m.tx_index[j2]);
        } else if j1 >= ol {
            assert(post.tx_index[j1] == e[j1 - ol]);
            assert(post.tx_index[j2] == e[j2 - ol]);
        } else {
            assert(post.tx_index[j1] == m.tx_index[j1]);
            assert(post.tx_index[j2] == e[j2 - ol]);
            assert(e[j2 - ol].0 == body[j2 - ol].transaction_hash);
            assert(assoc_lookup(m.tx_index, body[j2 - ol].transaction_hash) is None);
            crate::model::lemma_assoc_lookup_none(m.tx_index, body[j2 - ol].transaction_hash);
        }
    }
    assert(post.tx_index_wf());
    assert(post.hash_index_wf());
    assert(post.deployed_wf());
    assert(post.history_wf());
    assert(post.nonce_wf());
}

/// Whether a flattened row below `p` already writes `(address, key)`.
fn records_dup_before(recs: &Vec<StorageRecord>, p: usize, address: Felt, key: Felt) -> (r: bool)
    requires
        p <= recs@.len(),
    ensures
        r <==> exists|q: int|
            0 <= q < p && (#[trigger] recs@[q]).address == address && recs@[q].key == key,
{
    let mut q: usize = 0;
    while q < p
        invariant
            q <= p,
            p <= recs@.len(),
            forall|j: int|
                0 <= j < q ==> !((#[trigger] recs@[j]).address == address && recs@[j].key == key),
        decreases p - q,
    {
        if recs[q].address == address && recs[q].key == key {
            return true;
        }
        q += 1;
    }
    false
}

/// Whether an already-collected nonce row carries `address`.
fn nonce_dup_before(nrecs: &Vec<NonceRecord>, address: Felt) -> (r: bool)
    ensures
        r <==> exists|q: int| 0 <= q < nrecs@.len() && (#[trigger] nrecs@[q]).address == address,
{
    let mut q: usize = 0;
    while q < nrecs.len()
        invariant
            q <= nrecs@.len(),
            forall|j: int| 0 <= j < q ==> (#[trigger] nrecs@[j]).address != address,
        decreases nrecs@.len() - q,
    {
        if nrecs[q].address == address {
            return true;
        }
        q += 1;
    }
    false
}

/// A successful state-diff append preserves well-formedness.
proof fn lemma_with_state_diff_wf(m: StoreModel, n: u64, diff: crate::types::DiffModel)
    requires
        m.wf(),
        m.can_append_state_diff(n, diff),
    ensures
        m.with_state_diff(n, diff).wf(),
{
    let post = m.with_state_diff(n, diff);
    let dlist = diff.deployed_contracts;
    let de = crate::model::deploy_entries(dlist, n);
    let ce = crate::model::class_entries(dlist);
    let recs = crate::model::diff_records(diff.storage_diffs, n);
    let nrecs = crate::model::diff_nonce_records(diff.nonces, n);
    let dol = m.deployed_at.len() as int;
    let hol = m.history.len() as int;
    let nol = m.nonce_history.len() as int;
    crate::model::lemma_diff_records_value(diff.storage_diffs, n);

    // Old contract addresses stay distinct from the diff's, in both tables.
    assert forall|k: int| 0 <= k < dlist.len() implies assoc_lookup(
        m.class_of,
        (#[trigger] dlist[k]).address,
    ) is None by {
        crate::model::lemma_assoc_lookup_none(m.deployed_at, dlist[k].address);
        crate::model::lemma_assoc_lookup_none(m.class_of, dlist[k].address);
        assert forall|j: int| 0 <= j < m.class_of.len() implies (#[trigger] m.class_of[j]).0
            != dlist[k].address by {
            assert(m.class_of[j].0 == m.deployed_at[j].0);
            assert(m.deployed_at[j].0 != dlist[k].address);
        }
    }
    assert forall|j1: int, j2: int|
        0 <= j1 < j2 < crate::model::deploy_pairs(dlist).len() implies (
    #[trigger] crate::model::deploy_pairs(dlist)[j1]).0 != (#[trigger] crate::model::deploy_pairs(
        dlist,
    )[j2]).0 by {
        assert(crate::model::deploy_pairs(dlist)[j1].0 == dlist[j1].address);
        assert(crate::model::deploy_pairs(dlist)[j2].0 == dlist[j2].address);
    }

    // Rows of the extended deployment tables are valid.
    assert forall|j: int| 0 <= j < post.deployed_at.len() implies {
        &&& ((#[trigger] post.deployed_at[j]).1 as int) < post.diffs.len()
        &&& post.class_of[j].0 == post.deployed_at[j].0
        &&& crate::model::deployed_class(
            post.diffs[post.deployed_at[j].1 as int].deployed_contracts,
            post.deployed_at[j].0,
        ) == Some(post.class_of[j].1)
    } by {
        if j < dol {
            assert(post.deployed_at[j] == m.deployed_at[j]);
            assert(post.class_of[j] == m.class_of[j]);
            assert(post.diffs[m.deployed_at[j].1 as int] == m.diffs[m.deployed_at[j].1 as int]);
        } else {
            assert(post.deployed_at[j] == de[j - dol]);
            assert(post.class_of[j] == ce[j - dol]);
            assert(de[j - dol] == (dlist[j - dol].address, n));
            assert(ce[j - dol] == (dlist[j - dol].address, dlist[j - dol].class_hash));
            assert(post.diffs[n as int] == diff);
            crate::model::lemma_assoc_lookup_at(crate::model::deploy_pairs(dlist), j - dol);
            assert(crate::model::deploy_pairs(dlist)[j - dol] == (
                dlist[j - dol].address,
                dlist[j - dol].class_hash,
            ));
        }
    }

    // Every deployment of every stored diff is indexed, with its class.
    assert forall|n2: int, k: int|
        0 <= n2 < post.diffs.len() && 0 <= k < post.diffs[n2].deployed_contracts.len() implies {
        &&& assoc_lookup(
            post.deployed_at,
            (#[trigger] post.diffs[n2].deployed_contracts[k]).address,
        ) == Some(n2 as u64)
        &&& assoc_lookup(post.class_of, post.diffs[n2].deployed_contracts[k].address) == Some(
            post.diffs[n2].deployed_contracts[k].class_hash,
        )
    } by {
        let a = post.diffs[n2].deployed_contracts[k].address;
        crate::model::lemma_assoc_lookup_concat(m.deployed_at, de, a);
        crate::model::lemma_assoc_lookup_concat(m.class_of, ce, a);
        if n2 < m.diffs.len() {
            assert(post.diffs[n2] == m.diffs[n2]);
        } else {
            assert(post.diffs[n2] == diff);
            assert(assoc_lookup(m.deployed_at, a) is None);
            crate::model::lemma_deploy_entries_lookup(dlist, n, dlist.len() as int, a);
        }
    }

    // Both deployment tables stay duplicate-free.
    assert forall|j1: int, j2: int| 0 <= j1 < j2 < post.deployed_at.len() implies (
    #[trigger] post.deployed_at[j1]).0 != (#[trigger] post.deployed_at[j2]).0 by {
        if j2 < dol {
            assert(post.deployed_at[j1] == m.deployed_at[j1]);
            assert(post.deployed_at[j2] == m.deployed_at[j2]);
        } else if j1 >= dol {
            assert(post.deployed_at[j1] == de[j1 - dol]);
            assert(post.deployed_at[j2] == de[j2 - dol]);
        } else {
            assert(post.deployed_at[j1] == m.deployed_at[j1]);
            assert(post.deployed_at[j2] == de[j2 - dol]);
            crate::model::lemma_assoc_lookup_none(m.deployed_at, dlist[j2 - dol].address);
        }
    }
    assert forall|j1: int, j2: int| 0 <= j1 < j2 < post.class_of.len() implies (
    #[trigger] post.class_of[j1]).0 != (#[trigger] post.class_of[j2]).0 by {
        if j2 < dol {
            assert(post.class_of[j1] == m.class_of[j1]);
            assert(post.class_of[j2] == m.class_of[j2]);
        } else if j1 >= dol {
            assert(post.class_of[j1] == ce[j1 - dol]);
            assert(post.class_of[j2] == ce[j2 - dol]);
        } else {
            assert(post.class_of[j1] == m.class_of[j1]);
            assert(post.class_of[j2] == ce[j2 - dol]);
            crate::model::lemma_assoc_lookup_none(m.class_of, dlist[j2 - dol].address);
        }
    }
    assert(post.deployed_wf());

    // The extended history is a transcript of the extended diffs.
    assert forall|j: int| 0 <= j < post.history.len() implies {
        &&& ((#[trigger] post.history[j]).block as int) < post.diffs.len()
        &&& crate::model::diff_storage_value(
            post.diffs[post.history[j].block as int].storage_diffs,
            post.history[j].address,
            post.history[j].key,
        ) == Some(post.history[j].value)
    } by {
        if j < hol {
            assert(post.history[j] == m.history[j]);
            assert(post.diffs[m.history[j].block as int] == m.diffs[m.history[j].block as int]);
        } else {
            assert(post.history[j] == recs[j - hol]);
            assert(recs[j - hol].block == n);
            assert(post.diffs[n as int] == diff);
        }
    }
    assert forall|n2: int, a: Felt, k: Felt|
        0 <= n2 < post.diffs.len() implies ((#[trigger] crate::model::diff_storage_value(
        post.diffs[n2].storage_diffs,
        a,
        k,
    )) matches Some(v) ==> post.history.contains(
        StorageRecord { address: a, key: k, block: n2 as u64, value: v },
    )) by {
        match crate::model::diff_storage_value(post.diffs[n2].storage_diffs, a, k) {
            Some(v) => {
                let rec = StorageRecord { address: a, key: k, block: n2 as u64, value: v };
                if n2 < m.diffs.len() {
                    assert(post.diffs[n2] == m.diffs[n2]);
                    assert(m.history.contains(rec));
                    let q = choose|q: int| 0 <= q < m.history.len() && m.history[q] == rec;
                    assert(post.history[q] == rec);
                } else {
                    assert(post.diffs[n2] == diff);
                    assert(recs.contains(rec));
                    let q = choose|q: int| 0 <= q < recs.len() && recs[q] == rec;
                    assert(post.history[hol + q] == rec);
                }
                assert(post.history.contains(rec));
            },
            None => {},
        }
    }
    assert forall|j1: int, j2: int| 0 <= j1 < j2 < post.history.len() implies (
    #[trigger] post.history[j1]).block <= (#[trigger] post.history[j2]).block by {
        if j2 < hol {
            assert(post.history[j1] == m.history[j1]);
            assert(post.history[j2] == m.history[j2]);
        } else if j1 >= hol {
            assert(post.history[j1] == recs[j1 - hol]);
            assert(post.history[j2] == recs[j2 - hol]);
        } else {
            assert(post.history[j1] == m.history[j1]);
            assert(post.history[j2] == recs[j2 - hol]);
            assert((m.history[j1].block as int) < m.diffs.len());
        }
    }
    assert forall|j1: int, j2: int| 0 <= j1 < j2 < post.history.len() implies !((
    #[trigger] post.history[j1]).address == (#[trigger] post.history[j2]).address
        && post.history[j1].key == post.history[j2].key && post.history[j1].block
        == post.history[j2].block) by {
        if j2 < hol {
            assert(post.history[j1] == m.history[j1]);
            assert(post.history[j2] == m.history[j2]);
        } else if j1 >= hol {
            assert(post.history[j1] == recs[j1 - hol]);
            assert(post.history[j2] == recs[j2 - hol]);
        } else {
            assert(post.history[j1] == m.history[j1]);
            assert(post.history[j2] == recs[j2 - hol]);
            assert((m.history[j1].block as int) < m.diffs.len());
            assert(recs[j2 - hol].block == n);
        }
    }
    assert(post.history_wf());

    // The extended nonce history: every row from its diff, ordered, unique.
    assert forall|j1: int, j2: int|
        0 <= j1 < j2 < crate::model::nonce_pairs(diff.nonces).len() implies (
    #[trigger] crate::model::nonce_pairs(diff.nonces)[j1]).0 != (
    #[trigger] crate::model::nonce_pairs(diff.nonces)[j2]).0 by {
        assert(crate::model::nonce_pairs(diff.nonces)[j1].0 == diff.nonces[j1].address);
        assert(crate::model::nonce_pairs(diff.nonces)[j2].0 == diff.nonces[j2].address);
    }
    assert forall|j: int| 0 <= j < post.nonce_history.len() implies {
        &&& ((#[trigger] post.nonce_history[j]).block as int) < post.diffs.len()
        &&& crate::model::diff_nonce_value(
            post.diffs[post.nonce_history[j].block as int].nonces,
            post.nonce_history[j].address,
        ) == Some(post.nonce_history[j].nonce)
    } by {
        if j < nol {
            assert(post.nonce_history[j] == m.nonce_history[j]);
            assert(post.diffs[m.nonce_history[j].block as int] == m.diffs[m.nonce_history[j].block
                as int]);
        } else {
            assert(post.nonce_history[j] == nrecs[j - nol]);
            assert(nrecs[j - nol] == NonceRecord {
                address: diff.nonces[j - nol].address,
                block: n,
                nonce: diff.nonces[j - nol].nonce,
            });
            assert(post.diffs[n as int] == diff);
            crate::model::lemma_assoc_lookup_at(crate::model::nonce_pairs(diff.nonces), j - nol);
            assert(crate::model::nonce_pairs(diff.nonces)[j - nol] == (
                diff.nonces[j - nol].address,
                diff.nonces[j - nol].nonce,
            ));
        }
    }
    assert forall|n2: int, a: Felt|
        0 <= n2 < post.diffs.len() implies ((#[trigger] crate::model::diff_nonce_value(
        post.diffs[n2].nonces,
        a,
    )) matches Some(v) ==> post.nonce_history.contains(
        NonceRecord { address: a, block: n2 as u64, nonce: v },
    )) by {
        match crate::model::diff_nonce_value(post.diffs[n2].nonces, a) {
            Some(v) => {
                let rec = NonceRecord { address: a, block: n2 as u64, nonce: v };
                if n2 < m.diffs.len() {
                    assert(post.diffs[n2] == m.diffs[n2]);
                    assert(m.nonce_history.contains(rec));
                    let q = choose|q: int|
                        0 <= q < m.nonce_history.len() && m.nonce_history[q] == rec;
                    assert(post.nonce_history[q] == rec);
                } else {
                    assert(post.diffs[n2] == diff);
                    crate::model::lemma_assoc_lookup_some(
                        crate::model::nonce_pairs(diff.nonces),
                        a,
                    );
                    let j = choose|j: int|
                        0 <= j < crate::model::nonce_pairs(diff.nonces).len()
                            && #[trigger] crate::model::nonce_pairs(diff.nonces)[j] == (a, v);
                    assert(crate::model::nonce_pairs(diff.nonces)[j] == (
                        diff.nonces[j].address,
                        diff.nonces[j].nonce,
                    ));
                    assert(nrecs[j] == rec);
                    assert(post.nonce_history[nol + j] == rec);
                }
                assert(post.nonce_history.contains(rec));
            },
            None => {},
        }
    }
    assert forall|j1: int, j2: int| 0 <= j1 < j2 < post.nonce_history.len() implies (
    #[trigger] post.nonce_history[j1]).block <= (#[trigger] post.nonce_history[j2]).block by {
        if j2 < nol {
            assert(post.nonce_history[j1] == m.nonce_history[j1]);
            assert(post.nonce_history[j2] == m.nonce_history[j2]);
        } else if j1 >= nol {
            assert(post.nonce_history[j1] == nrecs[j1 - nol]);
            assert(post.nonce_history[j2] == nrecs[j2 - nol]);
        } else {
            assert(post.nonce_history[j1] == m.nonce_history[j1]);
            assert(post.nonce_history[j2] == nrecs[j2 - nol]);
            assert((m.nonce_history[j1].block as int) < m.diffs.len());
        }
    }
    assert forall|j1: int, j2: int| 0 <= j1 < j2 < post.nonce_history.len() implies !((
    #[trigger] post.nonce_history[j1]).address == (#[trigger] post.nonce_history[j2]).address
        && post.nonce_history[j1].block == post.nonce_history[j2].block) by {
        if j2 < nol {
            assert(post.nonce_history[j1] == m.nonce_history[j1]);
            assert(post.nonce_history[j2] == m.nonce_history[j2]);
        } else if j1 >= nol {
            assert(post.nonce_history[j1] == nrecs[j1 - nol]);
            assert(post.nonce_history[j2] == nrecs[j2 - nol]);
        } else {
            assert(post.nonce_history[j1] == m.nonce_history[j1]);
            assert(post.nonce_history[j2] == nrecs[j2 - nol]);
            assert((m.nonce_history[j1].block as int) < m.diffs.len());
            assert(nrecs[j2 - nol].block == n);
        }
    }
    assert(post.nonce_wf());

    assert(post.hash_index_wf());
    assert(post.tx_index_wf());
}

/// Copies the bodies table, preserving its view.
fn copy_bodies(v: &Vec<crate::types::BlockBody>) -> (r: Vec<crate::types::BlockBody>)
    ensures
        r@.map_values(|b: crate::types::BlockBody| b@) == v@.map_values(
            |b: crate::types::BlockBody| b@,
        ),
{
    let mut r: Vec<crate::types::BlockBody> = Vec::new();
    let mut i: usize = 0;
    while i < v.len()
        invariant
            i <= v.len(),
            r@.len() == i,
            forall|j: int| 0 <= j < i ==> #[trigger] r@[j]@ == v@[j]@,
        decreases v.len() - i,
    {
        r.push(crate::types::copy_body(&v[i]));
        i += 1;
    }
    assert(r@.map_values(|b: crate::types::BlockBody| b@) =~= v@.map_values(
        |b: crate::types::BlockBody| b@,
    ));
    r
}

/// Copies the diffs table, preserving its view.
fn copy_diffs(v: &Vec<crate::types::StateDiff>) -> (r: Vec<crate::types::StateDiff>)
    ensures
        r@.map_values(|d: crate::types::StateDiff| d@) == v@.map_values(
            |d: crate::types::StateDiff| d@,
        ),
{
    let mut r: Vec<crate::types::StateDiff> = Vec::new();
    let mut i: usize = 0;
    while i < v.len()
        invariant
            i <= v.len(),
            r@.len() == i,
            forall|j: int| 0 <= j < i ==> #[trigger] r@[j]@ == v@[j]@,
        decreases v.len() - i,
    {
        r.push(crate::types::copy_state_diff(&v[i]));
        i += 1;
    }
    assert(r@.map_values(|d: crate::types::StateDiff| d@) =~= v@.map_values(
        |d: crate::types::StateDiff| d@,
    ));
    r
}

} // verus!
