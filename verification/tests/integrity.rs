use znx::codec::{encode, tx_root, txid};
use znx::crypto::Keypair;
use znx::integrity::{holds_transaction, inputs_fit, is_chained};
use znx::kv::{Column, KvOp, KvStore, MemoryKv};
use znx::storage::RocksStorage;
use znx::types::{Block, BlockHeader, Transaction, TxOut};

fn block(height: u64) -> Block {
    let owner = Keypair::from_secret_bytes([1u8; 32]).address();
    let outputs = vec![TxOut { amount: 5, pubkey_hash: owner }];
    let transactions = vec![Transaction::new_coinbase("znx-test-1".to_string(), height, 0, outputs)];
    let header = BlockHeader {
        height,
        parent_hash: [0u8; 32],
        tx_root: tx_root(&transactions),
        timestamp: height,
        target: [0xffu8; 32],
        pow_nonce: 0,
    };
    Block { header, transactions }
}

fn put(column: Column, key: &[u8], value: Vec<u8>) -> KvOp {
    KvOp::Put { column, key: key.to_vec(), value }
}

fn stored(ops: Vec<KvOp>) -> RocksStorage<MemoryKv> {
    let mut db = MemoryKv::new();
    db.write(ops).unwrap();
    RocksStorage::from_db(db)
}

fn two_blocks() -> Vec<KvOp> {
    vec![
        put(Column::Blocks, &0u64.to_be_bytes(), encode(&block(0))),
        put(Column::Blocks, &1u64.to_be_bytes(), encode(&block(1))),
        put(Column::Meta, b"latest_height", 1u64.to_be_bytes().to_vec()),
    ]
}

#[test]
fn committed_blocks_are_a_chain() {
    let mut storage = RocksStorage::from_db(MemoryKv::new());
    assert_eq!(is_chained(&storage), Ok(false));
    storage.put_block(&block(0)).unwrap();
    assert_eq!(is_chained(&storage), Ok(true));
    storage.commit_block(&block(1), vec![], vec![], vec![]).unwrap();
    assert_eq!(is_chained(&storage), Ok(true));
    assert_eq!(storage.heights_in(Column::Blocks), Ok(vec![0, 1]));
    assert_eq!(storage.heights_in(Column::Undo), Ok(vec![1]));
    assert_eq!(storage.index_in(Column::TxIndex), Ok(vec![(txid(&block(1).transactions[0]), 1)]));
}

#[test]
fn what_breaks_a_chain_is_found() {
    assert_eq!(is_chained(&stored(two_blocks())), Ok(true));

    let mut gap = two_blocks();
    gap.remove(0);
    assert_eq!(is_chained(&stored(gap)), Ok(false));

    let mut above = two_blocks();
    above.push(put(Column::Blocks, &7u64.to_be_bytes(), encode(&block(7))));
    assert_eq!(is_chained(&stored(above)), Ok(false));

    let mut misplaced = two_blocks();
    misplaced[1] = put(Column::Blocks, &1u64.to_be_bytes(), encode(&block(2)));
    assert_eq!(is_chained(&stored(misplaced)), Ok(false));

    let mut undo = two_blocks();
    undo.push(put(Column::Undo, &2u64.to_be_bytes(), vec![0u8; 4]));
    assert_eq!(is_chained(&stored(undo)), Ok(false));

    let mut hash = two_blocks();
    hash.push(put(Column::BlockHashIndex, &[9u8; 32], 1u64.to_be_bytes().to_vec()));
    assert_eq!(is_chained(&stored(hash)), Ok(false));

    let mut id = two_blocks();
    id.push(put(Column::TxIndex, &txid(&block(1).transactions[0]), 1u64.to_be_bytes().to_vec()));
    assert_eq!(is_chained(&stored(id.clone())), Ok(true));
    id.push(put(Column::TxIndex, &txid(&block(0).transactions[0]), 1u64.to_be_bytes().to_vec()));
    assert_eq!(is_chained(&stored(id)), Ok(false));
}

#[test]
fn a_block_knows_its_transactions() {
    let block = block(3);
    assert!(inputs_fit(&block));
    assert!(holds_transaction(&block, &txid(&block.transactions[0])));
    assert!(!holds_transaction(&block, &[0u8; 32]));
}
