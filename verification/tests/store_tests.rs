//! End-to-end scenarios over the storage engine: the marker protocol, the
//! read queries, and the error taxonomy.

use block_storage::felt::Felt;
use block_storage::txn::Storage;
use block_storage::types::{
    BlockBody, BlockHeader, BlockId, DeployedContract, MarkerKind, NonceUpdate, QueryError,
    StateDiff, StorageDiff, StorageEntry, StorageError, Transaction,
};

fn expect_err<T>(r: Result<T, StorageError>) -> StorageError {
    match r {
        Err(e) => e,
        Ok(_) => panic!("expected the append to be refused"),
    }
}

fn felt(hi: u128, lo: u128) -> Felt {
    Felt { hi, lo }
}

fn block_hash_a() -> Felt {
    // 0x642b629ad8ce233b55798c83bb629a59bf0a0092f67da28d6d66776680d5483
    felt(
        0x642b629ad8ce233b55798c83bb629a5,
        0x9bf0a0092f67da28d6d66776680d5483,
    )
}

fn block_hash_b() -> Felt {
    // Same prefix, last digit changed: a hash the store has never seen.
    felt(
        0x642b629ad8ce233b55798c83bb629a5,
        0x9bf0a0092f67da28d6d66776680d5484,
    )
}

fn header_at(number: u64, block_hash: Felt) -> BlockHeader {
    BlockHeader {
        block_hash,
        parent_hash: Felt::zero(),
        number,
        sequencer: Felt::zero(),
        timestamp: 0,
        state_root: Felt::zero(),
    }
}

fn deploy_tx(hash: Felt) -> Transaction {
    Transaction {
        transaction_hash: hash,
        version: Felt::from_u64(1),
        contract_address: Felt::from_u64(2),
        max_fee: 100,
        calldata: vec![Felt::from_u64(3)],
    }
}

fn empty_diff() -> StateDiff {
    StateDiff {
        deployed_contracts: vec![],
        storage_diffs: vec![],
        declared_classes: vec![],
        nonces: vec![],
    }
}

#[test]
fn test_block_number() {
    let mut storage = Storage::open();

    // No blocks yet.
    let rs = storage.begin_read();
    assert_eq!(rs.tables().block_number(), Err(QueryError::NoBlocks));

    // Add a block and check again.
    let ws = storage.begin_write();
    let ws = ws.append_header(0, &BlockHeader::default()).unwrap();
    ws.commit(&mut storage);
    let rs = storage.begin_read();
    assert_eq!(rs.tables().block_number(), Ok(0));
}

#[test]
fn test_get_block_w_transaction_hashes() {
    let mut storage = Storage::open();
    let header = header_at(0, block_hash_a());
    let ws = storage.begin_write();
    let ws = ws.append_header(header.number, &header).unwrap();
    ws.commit(&mut storage);
    let rs = storage.begin_read();

    // Get block by hash.
    let (h, hashes) = rs
        .tables()
        .get_block_with_tx_hashes(&BlockId::Hash(block_hash_a()))
        .unwrap();
    assert_eq!(h, header);
    assert_eq!(hashes, Vec::<Felt>::new());

    // Get block by number.
    let (h, hashes) = rs
        .tables()
        .get_block_with_tx_hashes(&BlockId::Number(0))
        .unwrap();
    assert_eq!(h, header);
    assert_eq!(hashes, Vec::<Felt>::new());

    // Ask for the latest block.
    let (h, _) = rs
        .tables()
        .get_block_with_tx_hashes(&BlockId::Latest)
        .unwrap();
    assert_eq!(h, header);

    // Ask for an invalid block hash.
    let err = rs
        .tables()
        .get_block_with_tx_hashes(&BlockId::Hash(block_hash_b()))
        .unwrap_err();
    assert_eq!(err, QueryError::InvalidBlockId);

    // Ask for an invalid block number.
    let err = rs
        .tables()
        .get_block_with_tx_hashes(&BlockId::Number(1))
        .unwrap_err();
    assert_eq!(err, QueryError::InvalidBlockId);
}

#[test]
fn test_get_block_w_full_transactions() {
    let mut storage = Storage::open();
    let header = header_at(0, block_hash_a());
    let ws = storage.begin_write();
    let ws = ws.append_header(header.number, &header).unwrap();
    ws.commit(&mut storage);
    let rs = storage.begin_read();

    let (h, txs) = rs
        .tables()
        .get_block_with_txs(&BlockId::Hash(block_hash_a()))
        .unwrap();
    assert_eq!(h, header);
    assert_eq!(txs, Vec::<Transaction>::new());

    let (h, txs) = rs.tables().get_block_with_txs(&BlockId::Number(0)).unwrap();
    assert_eq!(h, header);
    assert_eq!(txs, Vec::<Transaction>::new());

    let (h, _) = rs.tables().get_block_with_txs(&BlockId::Latest).unwrap();
    assert_eq!(h, header);

    let err = rs
        .tables()
        .get_block_with_txs(&BlockId::Hash(block_hash_b()))
        .unwrap_err();
    assert_eq!(err, QueryError::InvalidBlockId);

    let err = rs
        .tables()
        .get_block_with_txs(&BlockId::Number(1))
        .unwrap_err();
    assert_eq!(err, QueryError::InvalidBlockId);
}

#[test]
fn test_get_storage_at() {
    let mut storage = Storage::open();
    let header = header_at(0, block_hash_a());
    let address = felt(0, 0x11);
    let class_hash = felt(0, 0x4);
    let key = felt(0, 0x1001);
    let value = felt(0, 0x200);
    let diff = StateDiff {
        deployed_contracts: vec![DeployedContract {
            address,
            class_hash,
        }],
        storage_diffs: vec![StorageDiff {
            address,
            entries: vec![StorageEntry { key, value }],
        }],
        declared_classes: vec![],
        nonces: vec![],
    };
    let ws = storage.begin_write();
    let ws = ws.append_header(header.number, &header).unwrap();
    let ws = ws.append_state_diff(0, &diff).unwrap();
    ws.commit(&mut storage);
    let rs = storage.begin_read();

    // Get storage by block hash.
    let res = rs
        .tables()
        .get_storage_at(address, key, &BlockId::Hash(block_hash_a()))
        .unwrap();
    assert_eq!(res, value);

    // Get storage by block number.
    let res = rs
        .tables()
        .get_storage_at(address, key, &BlockId::Number(0))
        .unwrap();
    assert_eq!(res, value);

    // Ask for an invalid contract.
    let err = rs
        .tables()
        .get_storage_at(felt(0, 0x12), key, &BlockId::Hash(block_hash_a()))
        .unwrap_err();
    assert_eq!(err, QueryError::ContractNotFound);

    // Ask for an invalid block hash.
    let err = rs
        .tables()
        .get_storage_at(address, key, &BlockId::Hash(block_hash_b()))
        .unwrap_err();
    assert_eq!(err, QueryError::InvalidBlockId);

    // Ask for an invalid block number.
    let err = rs
        .tables()
        .get_storage_at(address, key, &BlockId::Number(1))
        .unwrap_err();
    assert_eq!(err, QueryError::InvalidBlockId);
}

#[test]
fn test_get_transaction_by_hash() {
    let mut storage = Storage::open();
    let transaction = deploy_tx(Felt::zero());
    let body = BlockBody {
        transactions: vec![transaction.clone()],
    };
    let ws = storage.begin_write();
    let ws = ws.append_header(0, &header_at(0, block_hash_a())).unwrap();
    let ws = ws.append_body(0, &body).unwrap();
    ws.commit(&mut storage);
    let rs = storage.begin_read();

    let res = rs
        .tables()
        .get_transaction_by_hash(&Felt::zero())
        .unwrap();
    assert_eq!(res, transaction);

    // Ask for an invalid transaction.
    let err = rs
        .tables()
        .get_transaction_by_hash(&Felt::from_u64(1))
        .unwrap_err();
    assert_eq!(err, QueryError::InvalidTransactionHash);
}

#[test]
fn test_get_transaction_by_block_id_and_index() {
    let mut storage = Storage::open();
    let transaction = deploy_tx(Felt::zero());
    let header = header_at(0, block_hash_a());
    let body = BlockBody {
        transactions: vec![transaction.clone()],
    };
    let ws = storage.begin_write();
    let ws = ws.append_header(header.number, &header).unwrap();
    let ws = ws.append_body(header.number, &body).unwrap();
    ws.commit(&mut storage);
    let rs = storage.begin_read();

    // Get transaction by block hash.
    let res = rs
        .tables()
        .get_transaction_by_block_id_and_index(&BlockId::Hash(block_hash_a()), 0)
        .unwrap();
    assert_eq!(res, transaction);

    // Get transaction by block number.
    let res = rs
        .tables()
        .get_transaction_by_block_id_and_index(&BlockId::Number(0), 0)
        .unwrap();
    assert_eq!(res, transaction);

    // Ask for an invalid block hash.
    let err = rs
        .tables()
        .get_transaction_by_block_id_and_index(&BlockId::Hash(block_hash_b()), 0)
        .unwrap_err();
    assert_eq!(err, QueryError::InvalidBlockId);

    // Ask for an invalid block number.
    let err = rs
        .tables()
        .get_transaction_by_block_id_and_index(&BlockId::Number(1), 0)
        .unwrap_err();
    assert_eq!(err, QueryError::InvalidBlockId);

    // Ask for an invalid transaction index.
    let err = rs
        .tables()
        .get_transaction_by_block_id_and_index(&BlockId::Hash(block_hash_a()), 1)
        .unwrap_err();
    assert_eq!(err, QueryError::InvalidTransactionIndex);

    // The plain index-based read and the hash index agree.
    assert_eq!(rs.tables().get_transaction_by(0, 0), Some(transaction.clone()));
    assert_eq!(rs.tables().get_transaction_by(0, 1), None);
    assert_eq!(rs.tables().get_transaction_by(1, 0), None);
    assert_eq!(rs.tables().get_transaction(&Felt::zero()), Some((0, 0)));
}

#[test]
fn test_empty_store_markers() {
    let storage = Storage::open();
    let rs = storage.begin_read();
    assert_eq!(rs.tables().get_header_marker(), 0);
    assert_eq!(rs.tables().get_marker(MarkerKind::Header), 0);
    assert_eq!(rs.tables().get_marker(MarkerKind::Body), 0);
    assert_eq!(rs.tables().get_marker(MarkerKind::State), 0);
    assert_eq!(rs.tables().get_marker(MarkerKind::CompiledClass), 0);
    assert_eq!(rs.tables().get_marker(MarkerKind::BaseLayer), 0);
    assert_eq!(rs.tables().get_block_header(0), None);
    assert_eq!(rs.tables().get_block_number_by_hash(&block_hash_a()), None);
}

#[test]
fn test_marker_mismatch() {
    let storage = Storage::open();
    let ws = storage.begin_write();
    let err = expect_err(ws.append_header(1, &header_at(1, block_hash_a())));
    assert_eq!(
        err,
        StorageError::MarkerMismatch {
            expected: 0,
            found: 1
        }
    );
}

#[test]
fn test_block_hash_already_exists() {
    let mut storage = Storage::open();
    let ws = storage.begin_write();
    let ws = ws.append_header(0, &header_at(0, block_hash_a())).unwrap();
    let err = expect_err(ws.append_header(1, &header_at(1, block_hash_a())));
    assert_eq!(
        err,
        StorageError::BlockHashAlreadyExists {
            block_hash: block_hash_a(),
            block_number: 1
        }
    );
    // The scope is gone; the committed store never saw block 0.
    let rs = storage.begin_read();
    assert_eq!(rs.tables().get_header_marker(), 0);
}

#[test]
fn test_markers_advance_by_one() {
    let mut storage = Storage::open();
    let ws = storage.begin_write();
    let ws = ws.append_header(0, &header_at(0, block_hash_a())).unwrap();
    assert_eq!(ws.tables().get_header_marker(), 1);
    assert_eq!(ws.tables().get_body_marker(), 0);
    assert_eq!(ws.tables().get_state_marker(), 0);
    let ws = ws
        .append_body(
            0,
            &BlockBody {
                transactions: vec![],
            },
        )
        .unwrap();
    assert_eq!(ws.tables().get_body_marker(), 1);
    let ws = ws.append_state_diff(0, &empty_diff()).unwrap();
    assert_eq!(ws.tables().get_state_marker(), 1);
    let ws = ws.append_header(1, &header_at(1, block_hash_b())).unwrap();
    assert_eq!(ws.tables().get_header_marker(), 2);
    ws.commit(&mut storage);
    let rs = storage.begin_read();
    assert_eq!(rs.tables().get_header_marker(), 2);
    assert_eq!(rs.tables().get_body_marker(), 1);
    assert_eq!(rs.tables().get_state_marker(), 1);
}

#[test]
fn test_marker_denseness_concrete() {
    let mut storage = Storage::open();
    let ws = storage.begin_write();
    let ws = ws.append_header(0, &header_at(0, block_hash_a())).unwrap();
    let ws = ws.append_header(1, &header_at(1, block_hash_b())).unwrap();
    let ws = ws
        .append_body(
            0,
            &BlockBody {
                transactions: vec![],
            },
        )
        .unwrap();
    let ws = ws.append_state_diff(0, &empty_diff()).unwrap();
    ws.commit(&mut storage);
    let rs = storage.begin_read();
    // Every block below a marker is present, every one at or above is not.
    assert!(rs.tables().get_block_header(0).is_some());
    assert!(rs.tables().get_block_header(1).is_some());
    assert!(rs.tables().get_block_header(2).is_none());
    assert!(rs.tables().get_block_body(0).is_some());
    assert!(rs.tables().get_block_body(1).is_none());
    assert!(rs.tables().get_state_diff(0).is_some());
    assert!(rs.tables().get_state_diff(1).is_none());
    // The hash index inverts the headers.
    assert_eq!(rs.tables().get_block_number_by_hash(&block_hash_a()), Some(0));
    assert_eq!(rs.tables().get_block_number_by_hash(&block_hash_b()), Some(1));
}

#[test]
fn test_idempotent_restart() {
    let mut storage = Storage::open();
    let header = header_at(0, block_hash_a());
    let ws = storage.begin_write();
    let ws = ws.append_header(0, &header).unwrap();
    ws.commit(&mut storage);

    // Re-issuing the exact append that was last committed is refused.
    let ws = storage.begin_write();
    let err = expect_err(ws.append_header(0, &header));
    assert_eq!(
        err,
        StorageError::MarkerMismatch {
            expected: 1,
            found: 0
        }
    );

    // Re-issuing at the current marker succeeds.
    let ws = storage.begin_write();
    let ws = ws.append_header(1, &header_at(1, block_hash_b())).unwrap();
    ws.commit(&mut storage);
    let rs = storage.begin_read();
    assert_eq!(rs.tables().get_header_marker(), 2);
}

#[test]
fn test_snapshot_isolation() {
    let mut storage = Storage::open();

    // A read scope begun before a commit observes none of it.
    let before = storage.begin_read();
    let ws = storage.begin_write();
    let ws = ws.append_header(0, &header_at(0, block_hash_a())).unwrap();
    // Uncommitted writes are visible inside the scope only.
    assert_eq!(ws.tables().get_header_marker(), 1);
    assert_eq!(before.tables().get_header_marker(), 0);
    ws.commit(&mut storage);
    assert_eq!(before.tables().get_header_marker(), 0);
    assert_eq!(before.tables().block_number(), Err(QueryError::NoBlocks));

    // One begun after observes all of it.
    let after = storage.begin_read();
    assert_eq!(after.tables().get_header_marker(), 1);
    assert_eq!(after.tables().block_number(), Ok(0));
}

#[test]
fn test_abort_discards_writes() {
    let mut storage = Storage::open();
    let ws = storage.begin_write();
    let ws = ws.append_header(0, &header_at(0, block_hash_a())).unwrap();
    ws.abort();
    let rs = storage.begin_read();
    assert_eq!(rs.tables().get_header_marker(), 0);
    // The same block can be appended and committed afresh.
    let ws = storage.begin_write();
    let ws = ws.append_header(0, &header_at(0, block_hash_a())).unwrap();
    ws.commit(&mut storage);
    assert_eq!(storage.begin_read().tables().get_header_marker(), 1);
}

#[test]
fn test_point_in_time_history() {
    let mut storage = Storage::open();
    let address = felt(0, 0x11);
    let key = felt(0, 0x5);
    let diff0 = StateDiff {
        deployed_contracts: vec![DeployedContract {
            address,
            class_hash: felt(0, 0x4),
        }],
        storage_diffs: vec![StorageDiff {
            address,
            entries: vec![StorageEntry {
                key,
                value: felt(0, 5),
            }],
        }],
        declared_classes: vec![],
        nonces: vec![],
    };
    let diff2 = StateDiff {
        deployed_contracts: vec![],
        storage_diffs: vec![StorageDiff {
            address,
            entries: vec![StorageEntry {
                key,
                value: felt(0, 7),
            }],
        }],
        declared_classes: vec![],
        nonces: vec![],
    };
    let mut ws = storage.begin_write();
    let hashes = [block_hash_a(), block_hash_b(), felt(1, 1)];
    for n in 0..3u64 {
        ws = ws.append_header(n, &header_at(n, hashes[n as usize])).unwrap();
    }
    let ws = ws.append_state_diff(0, &diff0).unwrap();
    let ws = ws.append_state_diff(1, &empty_diff()).unwrap();
    let ws = ws.append_state_diff(2, &diff2).unwrap();
    ws.commit(&mut storage);
    let rs = storage.begin_read();

    // The value as of each block is the write of the greatest block at or
    // below it.
    assert_eq!(
        rs.tables().get_storage_at(address, key, &BlockId::Number(0)),
        Ok(felt(0, 5))
    );
    assert_eq!(
        rs.tables().get_storage_at(address, key, &BlockId::Number(1)),
        Ok(felt(0, 5))
    );
    assert_eq!(
        rs.tables().get_storage_at(address, key, &BlockId::Number(2)),
        Ok(felt(0, 7))
    );
    assert_eq!(
        rs.tables().get_storage_at(address, key, &BlockId::Latest),
        Ok(felt(0, 7))
    );
    // A slot never written reads as zero.
    assert_eq!(
        rs.tables()
            .get_storage_at(address, felt(0, 0x6), &BlockId::Latest),
        Ok(Felt::zero())
    );
}

#[test]
fn test_duplicate_transaction_hash() {
    let mut storage = Storage::open();
    let ws = storage.begin_write();
    let ws = ws.append_header(0, &header_at(0, block_hash_a())).unwrap();

    // Two transactions of one body sharing a hash.
    let body = BlockBody {
        transactions: vec![deploy_tx(Felt::zero()), deploy_tx(Felt::zero())],
    };
    let err = expect_err(ws.append_body(0, &body));
    assert_eq!(
        err,
        StorageError::TransactionHashAlreadyExists {
            transaction_hash: Felt::zero(),
            block_number: 0
        }
    );

    // A later body reusing an indexed hash.
    let ws = storage.begin_write();
    let ws = ws.append_header(0, &header_at(0, block_hash_a())).unwrap();
    let ws = ws.append_header(1, &header_at(1, block_hash_b())).unwrap();
    let ws = ws
        .append_body(
            0,
            &BlockBody {
                transactions: vec![deploy_tx(Felt::zero())],
            },
        )
        .unwrap();
    let err = expect_err(ws.append_body(
        1,
        &BlockBody {
            transactions: vec![deploy_tx(Felt::zero())],
        },
    ));
    assert_eq!(
        err,
        StorageError::TransactionHashAlreadyExists {
            transaction_hash: Felt::zero(),
            block_number: 1
        }
    );
}

#[test]
fn test_contract_already_exists() {
    let mut storage = Storage::open();
    let address = felt(0, 0x11);
    let deploy = StateDiff {
        deployed_contracts: vec![DeployedContract {
            address,
            class_hash: felt(0, 0x4),
        }],
        storage_diffs: vec![],
        declared_classes: vec![],
        nonces: vec![],
    };
    let ws = storage.begin_write();
    let ws = ws.append_header(0, &header_at(0, block_hash_a())).unwrap();
    let ws = ws.append_header(1, &header_at(1, block_hash_b())).unwrap();
    let ws = ws.append_state_diff(0, &deploy).unwrap();
    let err = expect_err(ws.append_state_diff(1, &deploy));
    assert_eq!(
        err,
        StorageError::ContractAlreadyExists {
            address,
            block_number: 1
        }
    );
}

#[test]
fn test_duplicate_storage_entry() {
    let mut storage = Storage::open();
    let address = felt(0, 0x11);
    let key = felt(0, 0x1001);
    let diff = StateDiff {
        deployed_contracts: vec![],
        storage_diffs: vec![StorageDiff {
            address,
            entries: vec![
                StorageEntry {
                    key,
                    value: felt(0, 1),
                },
                StorageEntry {
                    key,
                    value: felt(0, 2),
                },
            ],
        }],
        declared_classes: vec![],
        nonces: vec![],
    };
    let ws = storage.begin_write();
    let ws = ws.append_header(0, &header_at(0, block_hash_a())).unwrap();
    let err = expect_err(ws.append_state_diff(0, &diff));
    assert_eq!(
        err,
        StorageError::StorageEntryAlreadyExists {
            address,
            key,
            block_number: 0
        }
    );
}

#[test]
fn test_missing_header() {
    let storage = Storage::open();
    let ws = storage.begin_write();
    let err = expect_err(ws.append_body(
        0,
        &BlockBody {
            transactions: vec![],
        },
    ));
    assert_eq!(err, StorageError::MissingHeader { block_number: 0 });

    let ws = storage.begin_write();
    let err = expect_err(ws.append_state_diff(0, &empty_diff()));
    assert_eq!(err, StorageError::MissingHeader { block_number: 0 });
}

#[test]
fn test_nonces() {
    let mut storage = Storage::open();
    let address = felt(0, 0x11);
    let diff = StateDiff {
        deployed_contracts: vec![DeployedContract {
            address,
            class_hash: felt(0, 0x4),
        }],
        storage_diffs: vec![],
        declared_classes: vec![],
        nonces: vec![NonceUpdate {
            address,
            nonce: felt(0, 3),
        }],
    };
    let ws = storage.begin_write();
    let ws = ws.append_header(0, &header_at(0, block_hash_a())).unwrap();
    let ws = ws.append_state_diff(0, &diff).unwrap();
    ws.commit(&mut storage);
    let rs = storage.begin_read();
    assert_eq!(
        rs.tables().get_nonce_at(address, &BlockId::Number(0)),
        Ok(felt(0, 3))
    );
    assert_eq!(
        rs.tables().get_nonce_at(felt(0, 0x12), &BlockId::Number(0)),
        Err(QueryError::ContractNotFound)
    );

    // Historical resolution: a later update shadows only later blocks.
    let later = StateDiff {
        deployed_contracts: vec![],
        storage_diffs: vec![],
        declared_classes: vec![],
        nonces: vec![NonceUpdate {
            address,
            nonce: felt(0, 9),
        }],
    };
    let ws = storage.begin_write();
    let ws = ws.append_header(1, &header_at(1, felt(7, 7))).unwrap();
    let ws = ws.append_state_diff(1, &later).unwrap();
    ws.commit(&mut storage);
    let rs = storage.begin_read();
    assert_eq!(
        rs.tables().get_nonce_at(address, &BlockId::Number(0)),
        Ok(felt(0, 3))
    );
    assert_eq!(
        rs.tables().get_nonce_at(address, &BlockId::Latest),
        Ok(felt(0, 9))
    );

    // A diff updating one contract's nonce twice is refused.
    let dup = StateDiff {
        deployed_contracts: vec![],
        storage_diffs: vec![],
        declared_classes: vec![],
        nonces: vec![
            NonceUpdate {
                address,
                nonce: felt(0, 4),
            },
            NonceUpdate {
                address,
                nonce: felt(0, 5),
            },
        ],
    };
    let ws = storage.begin_write();
    let ws = ws.append_header(2, &header_at(2, block_hash_b())).unwrap();
    let err = expect_err(ws.append_state_diff(2, &dup));
    assert_eq!(
        err,
        StorageError::NonceAlreadyExists {
            address,
            block_number: 2
        }
    );
}

#[test]
fn test_deploy_tables() {
    let mut storage = Storage::open();
    let address = felt(0, 0x11);
    let class_hash = felt(0, 0x4);
    let diff = StateDiff {
        deployed_contracts: vec![DeployedContract {
            address,
            class_hash,
        }],
        storage_diffs: vec![],
        declared_classes: vec![felt(0, 0x4)],
        nonces: vec![],
    };
    let ws = storage.begin_write();
    let ws = ws.append_header(0, &header_at(0, block_hash_a())).unwrap();
    let ws = ws.append_state_diff(0, &diff).unwrap();
    ws.commit(&mut storage);
    let rs = storage.begin_read();
    assert_eq!(rs.tables().get_deployed_block(&address), Some(0));
    assert_eq!(rs.tables().get_class_hash(&address), Some(class_hash));
    assert_eq!(rs.tables().get_deployed_block(&felt(0, 0x12)), None);
    assert_eq!(rs.tables().get_transaction(&Felt::zero()), None);
    assert_eq!(rs.tables().get_state_diff(0).unwrap(), &diff);
}
