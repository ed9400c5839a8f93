//! The data model: block headers, bodies, state diffs, block identifiers,
//! marker kinds, and the error taxonomy.
//!
//! Types that own vectors come with a spec-level view (`TxModel`,
//! `StorageDiffModel`, `DiffModel`) so contracts can speak of their contents
//! as sequences, and with verified deep-copy functions, since the store hands
//! out owned values and snapshots.

use vstd::prelude::*;

use crate::felt::Felt;

verus! {

/// A block header. Headers are keyed by their block number; the hash also
/// gets a secondary index entry.
#[derive(Clone, Copy, Debug, PartialEq, Eq, Structural)]
pub struct BlockHeader {
    pub block_hash: Felt,
    pub parent_hash: Felt,
    pub number: u64,
    pub sequencer: Felt,
    pub timestamp: u64,
    pub state_root: Felt,
}

impl Default for BlockHeader {
    /// The all-zero header, handy as a fixture.
    fn default() -> (r: BlockHeader)
        ensures
            r == (BlockHeader {
                block_hash: Felt { hi: 0, lo: 0 },
                parent_hash: Felt { hi: 0, lo: 0 },
                number: 0,
                sequencer: Felt { hi: 0, lo: 0 },
                timestamp: 0,
                state_root: Felt { hi: 0, lo: 0 },
            }),
    {
        BlockHeader {
            block_hash: Felt { hi: 0, lo: 0 },
            parent_hash: Felt { hi: 0, lo: 0 },
            number: 0,
            sequencer: Felt { hi: 0, lo: 0 },
            timestamp: 0,
            state_root: Felt { hi: 0, lo: 0 },
        }
    }
}

/// A transaction inside a block body.
#[derive(Clone, Debug, PartialEq, Eq)]
pub struct Transaction {
    pub transaction_hash: Felt,
    pub version: Felt,
    pub contract_address: Felt,
    pub max_fee: u128,
    pub calldata: Vec<Felt>,
}

/// Spec-level image of a [`Transaction`].
#[verifier::ext_equal]
pub ghost struct TxModel {
    pub transaction_hash: Felt,
    pub version: Felt,
    pub contract_address: Felt,
    pub max_fee: u128,
    pub calldata: Seq<Felt>,
}

impl View for Transaction {
    type V = TxModel;

    open spec fn view(&self) -> TxModel {
        TxModel {
            transaction_hash: self.transaction_hash,
            version: self.version,
            contract_address: self.contract_address,
            max_fee: self.max_fee,
            calldata: self.calldata@,
        }
    }
}

/// The ordered transactions of one block.
#[derive(Clone, Debug, PartialEq, Eq)]
pub struct BlockBody {
    pub transactions: Vec<Transaction>,
}

impl View for BlockBody {
    type V = Seq<TxModel>;

    open spec fn view(&self) -> Seq<TxModel> {
        self.transactions@.map_values(|t: Transaction| t@)
    }
}

/// A contract deployment carried by a state diff.
#[derive(Clone, Copy, Debug, PartialEq, Eq, Structural)]
pub struct DeployedContract {
    pub address: Felt,
    pub class_hash: Felt,
}

/// One storage write carried by a state diff.
#[derive(Clone, Copy, Debug, PartialEq, Eq, Structural)]
pub struct StorageEntry {
    pub key: Felt,
    pub value: Felt,
}

/// All storage writes of one contract within a state diff.
#[derive(Clone, Debug, PartialEq, Eq)]
pub struct StorageDiff {
    pub address: Felt,
    pub entries: Vec<StorageEntry>,
}

/// Spec-level image of a [`StorageDiff`].
#[verifier::ext_equal]
pub ghost struct StorageDiffModel {
    pub address: Felt,
    pub entries: Seq<StorageEntry>,
}

impl View for StorageDiff {
    type V = StorageDiffModel;

    open spec fn view(&self) -> StorageDiffModel {
        StorageDiffModel { address: self.address, entries: self.entries@ }
    }
}

/// A nonce update carried by a state diff.
#[derive(Clone, Copy, Debug, PartialEq, Eq, Structural)]
pub struct NonceUpdate {
    pub address: Felt,
    pub nonce: Felt,
}

/// The per-block state delta: deployments, storage writes, declared classes
/// and nonce updates.
#[derive(Clone, Debug, PartialEq, Eq)]
pub struct StateDiff {
    pub deployed_contracts: Vec<DeployedContract>,
    pub storage_diffs: Vec<StorageDiff>,
    pub declared_classes: Vec<Felt>,
    pub nonces: Vec<NonceUpdate>,
}

/// Spec-level image of a [`StateDiff`].
#[verifier::ext_equal]
pub ghost struct DiffModel {
    pub deployed_contracts: Seq<DeployedContract>,
    pub storage_diffs: Seq<StorageDiffModel>,
    pub declared_classes: Seq<Felt>,
    pub nonces: Seq<NonceUpdate>,
}

impl View for StateDiff {
    type V = DiffModel;

    open spec fn view(&self) -> DiffModel {
        DiffModel {
            deployed_contracts: self.deployed_contracts@,
            storage_diffs: self.storage_diffs@.map_values(|d: StorageDiff| d@),
            declared_classes: self.declared_classes@,
            nonces: self.nonces@,
        }
    }
}

/// The five per-block data streams, each with its own marker.
#[derive(Clone, Copy, Debug, PartialEq, Eq, Structural)]
pub enum MarkerKind {
    Header,
    Body,
    State,
    CompiledClass,
    BaseLayer,
}

/// How a caller names a block in a read query.
#[derive(Clone, Copy, Debug, PartialEq, Eq, Structural)]
pub enum BlockId {
    Number(u64),
    Hash(Felt),
    Latest,
}

/// Why an append was refused. A refused append invalidates its write scope;
/// the caller must begin a new one.
#[derive(Clone, Copy, Debug, PartialEq, Eq, Structural)]
pub enum StorageError {
    /// The appended block number is not the stream's next expected block.
    MarkerMismatch { expected: u64, found: u64 },
    /// A header with this hash is already indexed.
    BlockHashAlreadyExists { block_hash: Felt, block_number: u64 },
    /// A transaction with this hash is already indexed.
    TransactionHashAlreadyExists { transaction_hash: Felt, block_number: u64 },
    /// The contract was already deployed at an earlier block.
    ContractAlreadyExists { address: Felt, block_number: u64 },
    /// The diff writes the same storage slot twice.
    StorageEntryAlreadyExists { address: Felt, key: Felt, block_number: u64 },
    /// The diff updates the same contract's nonce twice.
    NonceAlreadyExists { address: Felt, block_number: u64 },
    /// Bodies and state diffs may only trail headers: no header yet at this
    /// block number.
    MissingHeader { block_number: u64 },
}

/// Why a read query failed.
#[derive(Clone, Copy, Debug, PartialEq, Eq, Structural)]
pub enum QueryError {
    /// The store holds no block at all.
    NoBlocks,
    /// The block id names no block within the queried stream.
    InvalidBlockId,
    /// The contract was not deployed at or before the queried block.
    ContractNotFound,
    /// No transaction carries the queried hash.
    InvalidTransactionHash,
    /// The transaction index is out of range for the block.
    InvalidTransactionIndex,
}

/// Copies a vector of copyable elements, preserving its contents.
pub fn copy_vec<T: Copy>(v: &Vec<T>) -> (r: Vec<T>)
    ensures
        r@ == v@,
{
    let mut r: Vec<T> = Vec::new();
    let mut i: usize = 0;
    while i < v.len()
        invariant
            i <= v.len(),
            r@ == v@.subrange(0, i as int),
        decreases v.len() - i,
    {
        r.push(v[i]);
        assert(r@ =~= v@.subrange(0, i + 1 as int));
        i += 1;
    }
    assert(r@ =~= v@);
    r
}

/// Copies a transaction, preserving its view.
pub fn copy_transaction(t: &Transaction) -> (r: Transaction)
    ensures
        r@ == t@,
{
    Transaction {
        transaction_hash: t.transaction_hash,
        version: t.version,
        contract_address: t.contract_address,
        max_fee: t.max_fee,
        calldata: copy_vec(&t.calldata),
    }
}

/// Copies a list of transactions, preserving the sequence of views.
pub fn copy_transactions(v: &Vec<Transaction>) -> (r: Vec<Transaction>)
    ensures
        r@.map_values(|t: Transaction| t@) == v@.map_values(|t: Transaction| t@),
{
    let mut r: Vec<Transaction> = Vec::new();
    let mut i: usize = 0;
    while i < v.len()
        invariant
            i <= v.len(),
            r@.len() == i,
            forall|j: int| 0 <= j < i ==> #[trigger] r@[j]@ == v@[j]@,
        decreases v.len() - i,
    {
        r.push(copy_transaction(&v[i]));
        i += 1;
    }
    assert(r@.map_values(|t: Transaction| t@) =~= v@.map_values(|t: Transaction| t@));
    r
}

/// Copies a block body, preserving its view.
pub fn copy_body(b: &BlockBody) -> (r: BlockBody)
    ensures
        r@ == b@,
{
    BlockBody { transactions: copy_transactions(&b.transactions) }
}

/// Copies one contract's storage writes, preserving the view.
pub fn copy_storage_diff(d: &StorageDiff) -> (r: StorageDiff)
    ensures
        r@ == d@,
{
    StorageDiff { address: d.address, entries: copy_vec(&d.entries) }
}

/// Copies a list of per-contract storage writes, preserving the views.
pub fn copy_storage_diffs(v: &Vec<StorageDiff>) -> (r: Vec<StorageDiff>)
    ensures
        r@.map_values(|d: StorageDiff| d@) == v@.map_values(|d: StorageDiff| d@),
{
    let mut r: Vec<StorageDiff> = Vec::new();
    let mut i: usize = 0;
    while i < v.len()
        invariant
            i <= v.len(),
            r@.len() == i,
            forall|j: int| 0 <= j < i ==> #[trigger] r@[j]@ == v@[j]@,
        decreases v.len() - i,
    {
        r.push(copy_storage_diff(&v[i]));
        i += 1;
    }
    assert(r@.map_values(|d: StorageDiff| d@) =~= v@.map_values(|d: StorageDiff| d@));
    r
}

/// Copies a state diff, preserving its view.
pub fn copy_state_diff(d: &StateDiff) -> (r: StateDiff)
    ensures
        r@ == d@,
{
    StateDiff {
        deployed_contracts: copy_vec(&d.deployed_contracts),
        storage_diffs: copy_storage_diffs(&d.storage_diffs),
        declared_classes: copy_vec(&d.declared_classes),
        nonces: copy_vec(&d.nonces),
    }
}

} // verus!
