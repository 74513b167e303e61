use znx::chain::{commit_new_tip, try_reorg_to_chain, BlockError};
use znx::codec::{block_hash, signing_bytes, tx_root, txid};
use znx::crypto::{Address, Keypair};
use znx::genesis::Genesis;
use znx::kv::MemoryKv;
use znx::mempool::Mempool;
use znx::node::{bootstrap_genesis, mine_batch, requeue_transactions};
use znx::state::StateStore;
use znx::storage::RocksStorage;
use znx::types::{Block, BlockHeader, OutPoint, Transaction, TxIn, TxOut};

fn test_genesis() -> Genesis {
    Genesis {
        chain_id: "znx-test-1".to_string(),
        genesis_time_unix: 0,
        subsidy_schedule: vec![50],
        subsidy_period_blocks: 1_000_000,
        target_block_time_secs: 120,
        difficulty_adjustment_interval_blocks: 2016,
        initial_target: [0xffu8; 32],
        premine: vec![],
    }
}

fn open_temp() -> RocksStorage<MemoryKv> {
    let mut storage = RocksStorage::from_db(MemoryKv::new());
    bootstrap_genesis(&mut storage, &test_genesis()).expect("bootstrap de génesis");
    storage
}

#[test]
fn bootstrap_genesis_without_premine_leaves_the_genesis_block_empty() {
    let storage = open_temp();
    let genesis_block = storage.get_block(0).expect("lectura ok").expect("el génesis existe");
    assert!(genesis_block.transactions.is_empty());
}

#[test]
fn bootstrap_genesis_with_premine_creates_one_utxo_per_recipient() {
    let mut storage = RocksStorage::from_db(MemoryKv::new());

    let founder = Keypair::generate().address();
    let investor = Keypair::generate().address();
    let mut genesis = test_genesis();
    genesis.premine = vec![(founder, 35_000_000), (investor, 25_000_000)];

    bootstrap_genesis(&mut storage, &genesis).expect("bootstrap con premine");

    let genesis_block = storage.get_block(0).expect("lectura ok").expect("el génesis existe");
    assert_eq!(genesis_block.transactions.len(), 1, "el premine viaja en una única transacción coinbase de altura 0");
    let premine_tx = &genesis_block.transactions[0];
    assert!(premine_tx.is_coinbase());

    let premine_txid = txid(premine_tx);
    assert_eq!(storage.get_utxo(&OutPoint { txid: premine_txid, vout: 0 }), Some(TxOut { amount: 35_000_000, pubkey_hash: founder }));
    assert_eq!(storage.get_utxo(&OutPoint { txid: premine_txid, vout: 1 }), Some(TxOut { amount: 25_000_000, pubkey_hash: investor }));
    assert_eq!(storage.latest_height().expect("lectura ok"), Some(0));
}
fn mined_block_at_height_1(genesis: &Genesis, parent_hash: [u8; 32], miner: Address, extra_nonce: u64) -> Block {
    let coinbase =
        Transaction::new_coinbase(genesis.chain_id.clone(), 1, extra_nonce, vec![TxOut { amount: genesis.subsidy_schedule[0], pubkey_hash: miner }]);
    let header = BlockHeader {
        height: 1,
        parent_hash,
        tx_root: tx_root(std::slice::from_ref(&coinbase)),
        timestamp: 1_000,
        target: genesis.initial_target,
        pow_nonce: 0,
    };
    let mined = mine_batch(header, 10).expect("target máximo, cualquier nonce cumple en el primer intento");
    Block { header: mined, transactions: vec![coinbase] }
}

#[test]
fn commit_new_tip_extends_and_then_rejects_the_same_height_again() {
    let mut storage = open_temp();
    let genesis = test_genesis();
    let genesis_hash = block_hash(&storage.get_block(0).unwrap().unwrap());
    let miner = Keypair::generate();

    let block1 = mined_block_at_height_1(&genesis, genesis_hash, miner.address(), 0);
    commit_new_tip(&mut storage, &genesis, &block1).expect("bloque válido debería aplicar");
    assert_eq!(storage.latest_height().unwrap(), Some(1));
    assert_eq!(storage.get_utxo(&OutPoint { txid: txid(&block1.transactions[0]), vout: 0 }), Some(TxOut { amount: 50, pubkey_hash: miner.address() }));
    let err = commit_new_tip(&mut storage, &genesis, &block1).unwrap_err();
    assert!(matches!(err, BlockError::UnexpectedHeight { local: 1, found: 1 }));
}

#[test]
fn commit_new_tip_rejects_a_block_with_the_wrong_parent() {
    let mut storage = open_temp();
    let genesis = test_genesis();
    let miner = Keypair::generate();

    let bogus_parent = [7u8; 32];
    let block = mined_block_at_height_1(&genesis, bogus_parent, miner.address(), 0);
    let err = commit_new_tip(&mut storage, &genesis, &block).unwrap_err();
    assert!(matches!(err, BlockError::ParentMismatch));
}
fn mined_block_at_height_2(genesis: &Genesis, parent: &Block, miner: Address, extra_nonce: u64) -> Block {
    let coinbase =
        Transaction::new_coinbase(genesis.chain_id.clone(), 2, extra_nonce, vec![TxOut { amount: genesis.subsidy_schedule[0], pubkey_hash: miner }]);
    let header = BlockHeader {
        height: 2,
        parent_hash: block_hash(parent),
        tx_root: tx_root(std::slice::from_ref(&coinbase)),
        timestamp: 2_000,
        target: genesis.initial_target,
        pow_nonce: 0,
    };
    let mined = mine_batch(header, 10).expect("target máximo, cualquier nonce cumple en el primer intento");
    Block { header: mined, transactions: vec![coinbase] }
}

#[test]
fn try_reorg_to_chain_swaps_a_single_sibling_by_the_smaller_header_hash() {
    let mut storage = open_temp();
    let genesis = test_genesis();
    let genesis_hash = block_hash(&storage.get_block(0).unwrap().unwrap());
    let miner_a = Keypair::generate();
    let miner_b = Keypair::generate();

    let block_a = mined_block_at_height_1(&genesis, genesis_hash, miner_a.address(), 0);
    let block_b = mined_block_at_height_1(&genesis, genesis_hash, miner_b.address(), 1);
    assert_ne!(block_hash(&block_a), block_hash(&block_b));

    let (winner, loser) = if block_hash(&block_a) < block_hash(&block_b) { (block_a, block_b) } else { (block_b, block_a) };
    commit_new_tip(&mut storage, &genesis, &loser).expect("aplica");
    assert_eq!(storage.get_block(1).unwrap().unwrap(), loser);
    let reorged = try_reorg_to_chain(&mut storage, &genesis, 0, vec![winner.clone()]).expect("no debería fallar");
    assert!(reorged);
    assert_eq!(storage.get_block(1).unwrap().unwrap(), winner);
    assert_eq!(storage.latest_height().unwrap(), Some(1));
    assert_eq!(storage.get_utxo(&OutPoint { txid: txid(&loser.transactions[0]), vout: 0 }), None);
    let not_reorged = try_reorg_to_chain(&mut storage, &genesis, 0, vec![loser]).expect("no debería fallar");
    assert!(!not_reorged);
    assert_eq!(storage.get_block(1).unwrap().unwrap(), winner);
}

#[test]
fn try_reorg_to_chain_replaces_a_shorter_local_chain_with_a_longer_heavier_candidate() {
    let mut storage = open_temp();
    let genesis = test_genesis();
    let genesis_hash = block_hash(&storage.get_block(0).unwrap().unwrap());
    let miner = Keypair::generate();
    let other_miner = Keypair::generate();
    let local_1 = mined_block_at_height_1(&genesis, genesis_hash, miner.address(), 0);
    commit_new_tip(&mut storage, &genesis, &local_1).expect("aplica bloque 1 local");
    let candidate_1 = mined_block_at_height_1(&genesis, genesis_hash, other_miner.address(), 1);
    let candidate_2 = mined_block_at_height_2(&genesis, &candidate_1, other_miner.address(), 1);

    let reorged = try_reorg_to_chain(&mut storage, &genesis, 0, vec![candidate_1.clone(), candidate_2.clone()]).expect("no debería fallar");
    assert!(reorged);
    assert_eq!(storage.latest_height().unwrap(), Some(2));
    assert_eq!(storage.get_block(1).unwrap().unwrap(), candidate_1);
    assert_eq!(storage.get_block(2).unwrap().unwrap(), candidate_2);
    assert_eq!(storage.get_utxo(&OutPoint { txid: txid(&local_1.transactions[0]), vout: 0 }), None);
}

#[test]
fn try_reorg_to_chain_keeps_a_longer_heavier_local_chain() {
    let mut storage = open_temp();
    let genesis = test_genesis();
    let genesis_hash = block_hash(&storage.get_block(0).unwrap().unwrap());
    let miner = Keypair::generate();
    let other_miner = Keypair::generate();
    let local_1 = mined_block_at_height_1(&genesis, genesis_hash, miner.address(), 0);
    commit_new_tip(&mut storage, &genesis, &local_1).expect("aplica bloque 1 local");
    let local_2 = mined_block_at_height_2(&genesis, &local_1, miner.address(), 0);
    commit_new_tip(&mut storage, &genesis, &local_2).expect("aplica bloque 2 local");
    let candidate_1 = mined_block_at_height_1(&genesis, genesis_hash, other_miner.address(), 1);
    let reorged = try_reorg_to_chain(&mut storage, &genesis, 0, vec![candidate_1]).expect("no debería fallar");
    assert!(!reorged);
    assert_eq!(storage.get_block(1).unwrap().unwrap(), local_1);
    assert_eq!(storage.get_block(2).unwrap().unwrap(), local_2);
}
#[test]
fn requeue_transactions_returns_a_dropped_candidate_tx_to_the_mempool() {
    let mut storage = open_temp();
    let genesis = test_genesis();
    let genesis_hash = block_hash(&storage.get_block(0).unwrap().unwrap());
    let miner = Keypair::generate();
    let spender = Keypair::generate();
    let receiver = Keypair::generate();
    let funding_block = mined_block_at_height_1(&genesis, genesis_hash, spender.address(), 0);
    commit_new_tip(&mut storage, &genesis, &funding_block).expect("financia a spender");
    let funding_outpoint = OutPoint { txid: txid(&funding_block.transactions[0]), vout: 0 };

    let mut spend_tx = Transaction {
        chain_id: genesis.chain_id.clone(),
        inputs: vec![TxIn { prev_out: funding_outpoint, public_key: spender.public_key().to_bytes(), signature: [0u8; 64] }],
        outputs: vec![TxOut { amount: 30, pubkey_hash: receiver.address() }],
    };
    let signature = spender.sign(&signing_bytes(&spend_tx));
    spend_tx.inputs[0].signature = signature.to_bytes();

    let mut mempool = Mempool::new(genesis.chain_id.clone());
    mempool.insert(&storage, spend_tx.clone()).expect("la tx de spender es válida");
    assert_eq!(mempool.len(), 1);
    let drained = mempool.next_batch(10);
    assert_eq!(drained.len(), 1, "next_batch sacó la tx del mempool");
    assert!(mempool.is_empty(), "el mempool queda vacío mientras el candidato está 'en vuelo'");

    let coinbase_placeholder = Transaction::new_coinbase(genesis.chain_id.clone(), 1, 0, vec![TxOut { amount: 50, pubkey_hash: miner.address() }]);
    let mut candidate_transactions = vec![coinbase_placeholder];
    candidate_transactions.extend(drained);

    requeue_transactions(&storage, &mut mempool, candidate_transactions);

    assert_eq!(mempool.len(), 1, "la tx del spender tiene que volver al mempool");
    let requeued = mempool.next_batch(10);
    assert_eq!(requeued, vec![spend_tx], "la misma tx, no una copia distinta");
}

#[test]
fn requeue_transactions_with_only_coinbase_is_a_noop() {
    let storage = open_temp();
    let genesis = test_genesis();
    let miner = Keypair::generate();
    let mut mempool = Mempool::new(genesis.chain_id.clone());

    let coinbase_only = vec![Transaction::new_coinbase(genesis.chain_id, 1, 0, vec![TxOut { amount: 50, pubkey_hash: miner.address() }])];
    requeue_transactions(&storage, &mut mempool, coinbase_only);

    assert!(mempool.is_empty(), "no había ninguna tx de mempool que perder");
}
