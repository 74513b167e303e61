use znx::codec::{block_hash, signing_bytes, tx_root, txid, CodecError};
use znx::crypto::Keypair;
use znx::kv::{Column, KvOp, KvStore, MemoryKv};
use znx::state::{apply_coinbase, apply_transaction, ErrorText, StateStore};
use znx::storage::{RocksStorage, StorageError};
use znx::types::{Block, BlockHeader, OutPoint, Transaction, TxIn, TxOut};

const CHAIN_ID: &str = "znx-devnet-1";

fn open_temp() -> RocksStorage<MemoryKv> {
    RocksStorage::from_db(MemoryKv::new())
}

fn outpoint(byte: u8, vout: u32) -> OutPoint {
    OutPoint { txid: [byte; 32], vout }
}

#[test]
fn unknown_utxo_is_none() {
    let storage = open_temp();
    assert_eq!(storage.get_utxo(&outpoint(1, 0)), None);
}

#[test]
fn apply_changes_persists_and_removes_utxos() {
    let mut storage = open_temp();
    let addr = Keypair::generate().address();
    let op = outpoint(9, 0);

    storage
        .apply_changes(vec![], vec![(op, TxOut { amount: 42, pubkey_hash: addr })])
        .expect("escritura válida");
    assert_eq!(storage.get_utxo(&op), Some(TxOut { amount: 42, pubkey_hash: addr }));

    storage.apply_changes(vec![op], vec![]).expect("borrado válido");
    assert_eq!(storage.get_utxo(&op), None);
}

#[test]
fn coinbase_and_transaction_end_to_end_against_rocksdb() {
    let mut storage = open_temp();
    let miner = Keypair::generate();
    let receiver = Keypair::generate();

    let coinbase = Transaction::new_coinbase(CHAIN_ID.to_string(), 1, 0, vec![TxOut { amount: 50, pubkey_hash: miner.address() }]);
    apply_coinbase(&mut storage, &coinbase, 1, 50).expect("coinbase válida");

    let coinbase_id = txid(&coinbase);
    let spend = OutPoint { txid: coinbase_id, vout: 0 };

    let mut tx = Transaction {
        chain_id: CHAIN_ID.to_string(),
        inputs: vec![TxIn { prev_out: spend, public_key: miner.public_key().to_bytes(), signature: [0u8; 64] }],
        outputs: vec![TxOut { amount: 40, pubkey_hash: receiver.address() }, TxOut { amount: 8, pubkey_hash: miner.address() }],
    };
    let signature = miner.sign(&signing_bytes(&tx));
    tx.inputs[0].signature = signature.to_bytes();

    let applied = apply_transaction(&mut storage, &tx, CHAIN_ID).expect("transferencia válida");
    assert_eq!(applied.fee, 2);

    assert_eq!(storage.get_utxo(&spend), None);
    let tx_id = txid(&tx);
    assert_eq!(storage.get_utxo(&OutPoint { txid: tx_id, vout: 0 }), Some(TxOut { amount: 40, pubkey_hash: receiver.address() }));
    assert_eq!(storage.get_utxo(&OutPoint { txid: tx_id, vout: 1 }), Some(TxOut { amount: 8, pubkey_hash: miner.address() }));
}

#[test]
fn commit_block_then_undo_restores_the_previous_utxo_set() {
    let mut storage = open_temp();
    let miner = Keypair::generate();
    let receiver = Keypair::generate();

    let genesis_block = sample_block(0, [0u8; 32]);
    storage.put_block(&genesis_block).expect("guarda bloque 0");
    let genesis_hash = block_hash(&genesis_block);
    let seed_op = OutPoint { txid: [42u8; 32], vout: 0 };
    storage.apply_changes(vec![], vec![(seed_op, TxOut { amount: 100, pubkey_hash: miner.address() })]).expect("siembra");

    let coinbase = Transaction::new_coinbase(CHAIN_ID.to_string(), 1, 0, vec![TxOut { amount: 50, pubkey_hash: miner.address() }]);
    let mut spend_tx = Transaction {
        chain_id: CHAIN_ID.to_string(),
        inputs: vec![TxIn { prev_out: seed_op, public_key: miner.public_key().to_bytes(), signature: [0u8; 64] }],
        outputs: vec![TxOut { amount: 90, pubkey_hash: receiver.address() }],
    };
    let signature = miner.sign(&signing_bytes(&spend_tx));
    spend_tx.inputs[0].signature = signature.to_bytes();

    let block = Block {
        header: BlockHeader {
            height: 1,
            parent_hash: genesis_hash,
            tx_root: tx_root(&[coinbase.clone(), spend_tx.clone()]),
            timestamp: 1_753_000_001,
            target: [0xffu8; 32],
            pow_nonce: 0,
        },
        transactions: vec![coinbase.clone(), spend_tx.clone()],
    };

    let spent = vec![seed_op];
    let coinbase_id = txid(&coinbase);
    let spend_tx_id = txid(&spend_tx);
    let created = vec![
        (OutPoint { txid: coinbase_id, vout: 0 }, TxOut { amount: 50, pubkey_hash: miner.address() }),
        (OutPoint { txid: spend_tx_id, vout: 0 }, TxOut { amount: 90, pubkey_hash: receiver.address() }),
    ];
    let undo = vec![(seed_op, TxOut { amount: 100, pubkey_hash: miner.address() })];

    storage.commit_block(&block, spent, created, undo).expect("commit válido");

    assert_eq!(storage.latest_height().expect("lectura ok"), Some(1));
    assert_eq!(storage.get_utxo(&seed_op), None);
    assert_eq!(storage.get_utxo(&OutPoint { txid: coinbase_id, vout: 0 }), Some(TxOut { amount: 50, pubkey_hash: miner.address() }));
    assert_eq!(storage.get_utxo(&OutPoint { txid: spend_tx_id, vout: 0 }), Some(TxOut { amount: 90, pubkey_hash: receiver.address() }));

    let undone = storage.undo_latest_block().expect("deshace sin error");
    assert_eq!(undone, block);
    assert_eq!(storage.latest_height().expect("lectura ok"), Some(0));
    assert_eq!(storage.get_utxo(&seed_op), Some(TxOut { amount: 100, pubkey_hash: miner.address() }));
    assert_eq!(storage.get_utxo(&OutPoint { txid: coinbase_id, vout: 0 }), None);
    assert_eq!(storage.get_utxo(&OutPoint { txid: spend_tx_id, vout: 0 }), None);
}

#[test]
fn get_transaction_is_indexed_on_commit_and_removed_on_undo() {
    let mut storage = open_temp();
    let miner = Keypair::generate();

    let genesis_block = sample_block(0, [0u8; 32]);
    storage.put_block(&genesis_block).expect("guarda bloque 0");
    let genesis_hash = block_hash(&genesis_block);

    let coinbase = Transaction::new_coinbase(CHAIN_ID.to_string(), 1, 0, vec![TxOut { amount: 50, pubkey_hash: miner.address() }]);
    let coinbase_id = txid(&coinbase);

    assert_eq!(storage.get_transaction(&coinbase_id).expect("lectura ok"), None);

    let block = Block {
        header: BlockHeader {
            height: 1,
            parent_hash: genesis_hash,
            tx_root: tx_root(std::slice::from_ref(&coinbase)),
            timestamp: 1_753_000_001,
            target: [0xffu8; 32],
            pow_nonce: 0,
        },
        transactions: vec![coinbase.clone()],
    };
    let created = vec![(OutPoint { txid: coinbase_id, vout: 0 }, TxOut { amount: 50, pubkey_hash: miner.address() })];
    storage.commit_block(&block, vec![], created, vec![]).expect("commit válido");
    let block_hash_value = block_hash(&block);

    let (height, hash, tx) = storage.get_transaction(&coinbase_id).expect("lectura ok").expect("indexada tras el commit");
    assert_eq!(height, 1);
    assert_eq!(hash, block_hash_value);
    assert_eq!(tx, coinbase);

    storage.undo_latest_block().expect("deshace sin error");
    assert_eq!(storage.get_transaction(&coinbase_id).expect("lectura ok"), None);
}

#[test]
fn list_utxos_for_returns_only_the_matching_owner() {
    let mut storage = open_temp();
    let owner = Keypair::generate();
    let other = Keypair::generate();

    storage
        .apply_changes(
            vec![],
            vec![
                (OutPoint { txid: [1u8; 32], vout: 0 }, TxOut { amount: 10, pubkey_hash: owner.address() }),
                (OutPoint { txid: [2u8; 32], vout: 0 }, TxOut { amount: 20, pubkey_hash: owner.address() }),
                (OutPoint { txid: [3u8; 32], vout: 0 }, TxOut { amount: 30, pubkey_hash: other.address() }),
            ],
        )
        .expect("siembra");

    let mut owned = storage.list_utxos_for(&owner.address()).expect("lectura ok");
    owned.sort_by_key(|(_, out)| out.amount);
    assert_eq!(owned.len(), 2);
    assert_eq!(owned[0].1.amount, 10);
    assert_eq!(owned[1].1.amount, 20);
}

fn sample_block(height: u64, parent_hash: [u8; 32]) -> Block {
    Block {
        header: BlockHeader {
            height,
            parent_hash,
            tx_root: [0u8; 32],
            timestamp: 1_753_000_000 + height,
            target: [0xffu8; 32],
            pow_nonce: 0,
        },
        transactions: vec![],
    }
}

#[test]
fn block_roundtrip_by_height_and_hash_updates_latest_height() {
    let mut storage = open_temp();
    assert_eq!(storage.latest_height().expect("lectura ok"), None);

    let genesis_block = sample_block(0, [0u8; 32]);
    let genesis_hash = block_hash(&genesis_block);
    storage.put_block(&genesis_block).expect("guarda bloque 0");

    let block_one = sample_block(1, genesis_hash);
    storage.put_block(&block_one).expect("guarda bloque 1");

    assert_eq!(storage.latest_height().expect("lectura ok"), Some(1));
    assert_eq!(storage.get_block(0).expect("lectura ok"), Some(genesis_block.clone()));
    assert_eq!(storage.get_block(1).expect("lectura ok"), Some(block_one.clone()));
    assert_eq!(storage.get_block_by_hash(&genesis_hash).expect("lectura ok"), Some(genesis_block));
    assert_eq!(storage.get_block(99).expect("lectura ok"), None);
}

#[test]
fn state_root_is_deterministic_and_sensitive_to_content() {
    let mut storage = open_temp();
    let addr = Keypair::generate().address();
    let op = outpoint(3, 0);

    let root_empty = storage.state_root().expect("state root vacío");

    storage
        .apply_changes(vec![], vec![(op, TxOut { amount: 1, pubkey_hash: addr })])
        .expect("escritura válida");
    let root_with_one_utxo = storage.state_root().expect("state root con datos");
    let root_with_one_utxo_again = storage.state_root().expect("state root de nuevo");

    assert_ne!(root_empty, root_with_one_utxo);
    assert_eq!(root_with_one_utxo, root_with_one_utxo_again);
}

#[test]
fn an_undone_block_leaves_the_root_as_it_was() {
    let mut storage = open_temp();
    let miner = Keypair::generate();
    storage.put_block(&sample_block(0, [0u8; 32])).unwrap();
    let seed = outpoint(5, 2);
    storage.apply_changes(vec![], vec![(seed, TxOut { amount: 9, pubkey_hash: miner.address() })]).unwrap();
    let before = storage.state_root().unwrap();

    let mut block = sample_block(1, block_hash(&sample_block(0, [0u8; 32])));
    block.transactions =
        vec![Transaction::new_coinbase(CHAIN_ID.to_string(), 1, 0, vec![TxOut { amount: 1, pubkey_hash: miner.address() }])];
    let id = txid(&block.transactions[0]);
    let created = vec![(OutPoint { txid: id, vout: 0 }, block.transactions[0].outputs[0])];
    let undo = vec![(seed, TxOut { amount: 9, pubkey_hash: miner.address() })];
    storage.commit_block(&block, vec![seed], created, undo).unwrap();
    assert_ne!(storage.state_root().unwrap(), before);
    assert_eq!(storage.is_sound(), Ok(true));

    storage.undo_latest_block().unwrap();
    assert_eq!(storage.state_root().unwrap(), before);
    assert_eq!(storage.get_block_by_hash(&block_hash(&block)), Ok(None));
    assert_eq!(storage.get_block(1), Ok(None));
}

#[test]
fn the_root_does_not_depend_on_the_order_of_writing() {
    let owner = Keypair::generate().address();
    let a = (outpoint(1, 0), TxOut { amount: 1, pubkey_hash: owner });
    let b = (outpoint(2, 0), TxOut { amount: 2, pubkey_hash: owner });
    let mut first = open_temp();
    first.apply_changes(vec![], vec![a, b]).unwrap();
    let mut second = open_temp();
    second.apply_changes(vec![], vec![b]).unwrap();
    second.apply_changes(vec![], vec![a]).unwrap();
    second.put_block(&sample_block(0, [0u8; 32])).unwrap();
    assert_eq!(first.state_root(), second.state_root());
}

#[test]
fn listed_outputs_come_in_key_order() {
    let owner = Keypair::generate().address();
    let mut storage = open_temp();
    let out = |amount: u128| TxOut { amount, pubkey_hash: owner };
    storage.apply_changes(vec![], vec![(outpoint(2, 0), out(1)), (outpoint(1, 256), out(2)), (outpoint(1, 1), out(3))]).unwrap();
    assert_eq!(
        storage.list_utxos_for(&owner),
        Ok(vec![(outpoint(1, 1), out(3)), (outpoint(1, 256), out(2)), (outpoint(2, 0), out(1))])
    );
}

#[test]
fn what_does_not_decode_is_reported() {
    let mut db = MemoryKv::new();
    db.write(vec![
        KvOp::Put { column: Column::Blocks, key: 0u64.to_be_bytes().to_vec(), value: vec![1, 2, 3] },
        KvOp::Put { column: Column::Utxos, key: vec![0u8; 36], value: vec![9] },
    ])
    .unwrap();
    let storage = RocksStorage::from_db(db);
    assert_eq!(storage.get_block(0), Err(StorageError::Codec(CodecError::Borsh("Unexpected length of input".to_string()))));
    assert_eq!(
        storage.list_utxos_for(&Keypair::generate().address()),
        Err(StorageError::Codec(CodecError::Borsh("Unexpected length of input".to_string())))
    );
    assert_eq!(storage.is_sound(), Ok(false));
    assert_eq!(
        StorageError::Codec(CodecError::Borsh("roto".to_string())).describe(),
        "error de (de)serialización: error de (de)serialización borsh: roto"
    );
    assert_eq!(StorageError::RocksDb("lleno".to_string()).describe(), "error de RocksDB: lleno");
}

#[test]
fn a_column_keeps_its_values_apart_and_in_order() {
    let mut db = MemoryKv::new();
    db.write(vec![
        KvOp::Put { column: Column::Meta, key: vec![2], value: vec![20] },
        KvOp::Put { column: Column::Meta, key: vec![1, 5], value: vec![15] },
        KvOp::Put { column: Column::Undo, key: vec![1], value: vec![99] },
        KvOp::Put { column: Column::Meta, key: vec![1], value: vec![10] },
        KvOp::Put { column: Column::Meta, key: vec![2], value: vec![21] },
        KvOp::Delete { column: Column::Meta, key: vec![7] },
    ])
    .unwrap();
    assert_eq!(
        db.entries(Column::Meta),
        Ok(vec![(vec![1], vec![10]), (vec![1, 5], vec![15]), (vec![2], vec![21])])
    );
    assert_eq!(db.get(Column::Undo, &[1]), Ok(Some(vec![99])));
    db.write(vec![KvOp::Delete { column: Column::Meta, key: vec![1] }]).unwrap();
    assert_eq!(db.get(Column::Meta, &[1]), Ok(None));
    assert_eq!(db.read(Column::Meta, &[1, 5]), Some(vec![15]));
    assert_eq!(Column::Utxos.name(), "utxos");
}
