use znx::chain::{commit_new_tip, expected_target, try_reorg_to_chain, BlockError};
use znx::codec::{block_hash, signing_bytes, tx_root, txid};
use znx::consensus::ConsensusError;
use znx::crypto::{Address, Keypair};
use znx::genesis::Genesis;
use znx::integrity::is_chained;
use znx::kv::MemoryKv;
use znx::mempool::Mempool;
use znx::node::{
    bootstrap_genesis, build_mining_candidate, mine_batch, mining_info, record_strike,
};
use znx::state::{ErrorText, StateError, StateStore};
use znx::storage::RocksStorage;
use znx::types::{Block, BlockHeader, OutPoint, Transaction, TxIn, TxOut};

fn genesis() -> Genesis {
    Genesis {
        chain_id: "znx-test-1".to_string(),
        genesis_time_unix: 1_000,
        subsidy_schedule: vec![50],
        subsidy_period_blocks: 4,
        target_block_time_secs: 10,
        difficulty_adjustment_interval_blocks: 3,
        initial_target: [0xffu8; 32],
        premine: vec![],
    }
}

fn started(genesis: &Genesis) -> RocksStorage<MemoryKv> {
    let mut storage = RocksStorage::from_db(MemoryKv::new());
    bootstrap_genesis(&mut storage, genesis).unwrap();
    storage
}

fn tip(storage: &RocksStorage<MemoryKv>) -> Block {
    storage.get_block(storage.latest_height().unwrap().unwrap()).unwrap().unwrap()
}

fn block_on(
    storage: &RocksStorage<MemoryKv>,
    genesis: &Genesis,
    parent: &Block,
    transactions: Vec<Transaction>,
    timestamp: u64,
) -> Block {
    let height = parent.header.height + 1;
    let header = BlockHeader {
        height,
        parent_hash: block_hash(parent),
        tx_root: tx_root(&transactions),
        timestamp,
        target: expected_target(storage, genesis, height).unwrap(),
        pow_nonce: 0,
    };
    Block { header: mine_batch(header, 100_000).unwrap(), transactions }
}

fn coinbase(genesis: &Genesis, height: u64, to: Address, amount: u128) -> Transaction {
    Transaction::new_coinbase(genesis.chain_id.clone(), height, 0, vec![TxOut { amount, pubkey_hash: to }])
}

fn pay(genesis: &Genesis, from: &Keypair, spend: OutPoint, amounts: &[u128]) -> Transaction {
    let mut tx = Transaction {
        chain_id: genesis.chain_id.clone(),
        inputs: vec![TxIn { prev_out: spend, public_key: from.public_key().to_bytes(), signature: [0u8; 64] }],
        outputs: amounts.iter().map(|a| TxOut { amount: *a, pubkey_hash: from.address() }).collect(),
    };
    tx.inputs[0].signature = from.sign(&signing_bytes(&tx)).to_bytes();
    tx
}

#[test]
fn each_fault_of_a_block_has_its_error() {
    let genesis = genesis();
    let mut storage = started(&genesis);
    let miner = Keypair::generate();
    let first = tip(&storage);
    let root = storage.state_root().unwrap();
    let good = block_on(&storage, &genesis, &first, vec![coinbase(&genesis, 1, miner.address(), 50)], 1_010);

    let mut bad = good.clone();
    bad.header.height = 5;
    assert_eq!(
        commit_new_tip(&mut storage, &genesis, &bad),
        Err(BlockError::UnexpectedHeight { local: 0, found: 5 })
    );

    let mut bad = good.clone();
    bad.header.target = [0x7fu8; 32];
    bad.header = mine_batch(bad.header, 100_000).unwrap();
    assert_eq!(commit_new_tip(&mut storage, &genesis, &bad), Err(BlockError::UnexpectedTarget));

    let mut bad = good.clone();
    bad.header.target = [0u8; 32];
    assert_eq!(
        commit_new_tip(&mut storage, &genesis, &bad),
        Err(BlockError::Pow(ConsensusError::InsufficientWork))
    );

    let bad = Block { header: good.header, transactions: vec![] };
    assert_eq!(commit_new_tip(&mut storage, &genesis, &bad), Err(BlockError::BadTxRoot));

    let bad = block_on(&storage, &genesis, &first, vec![], 1_010);
    assert_eq!(commit_new_tip(&mut storage, &genesis, &bad), Err(BlockError::MissingCoinbase));

    let two = vec![coinbase(&genesis, 1, miner.address(), 10), coinbase(&genesis, 1, miner.address(), 10)];
    let bad = block_on(&storage, &genesis, &first, two, 1_010);
    assert_eq!(commit_new_tip(&mut storage, &genesis, &bad), Err(BlockError::UnexpectedCoinbase));

    let bad = block_on(&storage, &genesis, &first, vec![coinbase(&genesis, 1, miner.address(), 51)], 1_010);
    assert_eq!(
        commit_new_tip(&mut storage, &genesis, &bad),
        Err(BlockError::Coinbase(StateError::CoinbaseOverclaims { claimed: 51, allowed: 50 }))
    );

    let nowhere = OutPoint { txid: [9u8; 32], vout: 0 };
    let transactions = vec![coinbase(&genesis, 1, miner.address(), 50), pay(&genesis, &miner, nowhere, &[1])];
    let bad = block_on(&storage, &genesis, &first, transactions, 1_010);
    assert_eq!(
        commit_new_tip(&mut storage, &genesis, &bad),
        Err(BlockError::Transaction(StateError::UnknownOutpoint))
    );

    assert_eq!(storage.state_root().unwrap(), root);
    assert_eq!(storage.latest_height(), Ok(Some(0)));
    assert_eq!(commit_new_tip(&mut storage, &genesis, &good), Ok(()));
    assert_eq!(
        BlockError::UnexpectedHeight { local: 1, found: 3 }.describe(),
        "altura inesperada: local está en 1, el bloque trae 3 (se espera 1 + 1)"
    );
    assert_eq!(
        BlockError::Transaction(StateError::NoInputs).describe(),
        "transacción del bloque inválida: la transacción no tiene ningún input"
    );
}

#[test]
fn fees_go_to_the_miner_and_nothing_else_is_made() {
    let genesis = genesis();
    let mut storage = started(&genesis);
    let miner = Keypair::generate();
    let first = tip(&storage);
    let one = block_on(&storage, &genesis, &first, vec![coinbase(&genesis, 1, miner.address(), 50)], 1_010);
    commit_new_tip(&mut storage, &genesis, &one).unwrap();
    let reward = OutPoint { txid: txid(&one.transactions[0]), vout: 0 };

    let spend = pay(&genesis, &miner, reward, &[20, 23]);
    let too_much = vec![coinbase(&genesis, 2, miner.address(), 58), spend.clone()];
    let two = block_on(&storage, &genesis, &one, too_much, 1_020);
    assert_eq!(
        commit_new_tip(&mut storage, &genesis, &two),
        Err(BlockError::Coinbase(StateError::CoinbaseOverclaims { claimed: 58, allowed: 57 }))
    );
    let two = block_on(&storage, &genesis, &one, vec![coinbase(&genesis, 2, miner.address(), 57), spend], 1_020);
    commit_new_tip(&mut storage, &genesis, &two).unwrap();
    let total: u128 = storage.list_utxos_for(&miner.address()).unwrap().iter().map(|(_, o)| o.amount).sum();
    assert_eq!(total, 100);
}

#[test]
fn targets_change_at_the_end_of_a_period() {
    let mut genesis = genesis();
    genesis.initial_target = [0u8; 32];
    genesis.initial_target[1] = 0x80;
    let mut storage = started(&genesis);
    let miner = Keypair::generate().address();
    for height in 1..=2u64 {
        let parent = tip(&storage);
        let block = block_on(&storage, &genesis, &parent, vec![coinbase(&genesis, height, miner, 50)], 1_000 + height);
        assert_eq!(block.header.target, genesis.initial_target);
        commit_new_tip(&mut storage, &genesis, &block).unwrap();
    }
    let next = expected_target(&storage, &genesis, 3).unwrap();
    let fastest = num_bigint::BigUint::from_bytes_be(&genesis.initial_target) / 4u32;
    assert_eq!(num_bigint::BigUint::from_bytes_be(&next), fastest);
    assert_eq!(expected_target(&storage, &genesis, 0), Ok(genesis.initial_target));
}

#[test]
fn a_refused_chain_leaves_no_trace() {
    let genesis = genesis();
    let mut storage = started(&genesis);
    let miner = Keypair::generate();
    let first = tip(&storage);
    let local = block_on(&storage, &genesis, &first, vec![coinbase(&genesis, 1, miner.address(), 50)], 1_010);
    commit_new_tip(&mut storage, &genesis, &local).unwrap();
    let root = storage.state_root().unwrap();

    let other = Keypair::generate().address();
    let one = block_on(&storage, &genesis, &first, vec![coinbase(&genesis, 1, other, 50)], 1_011);
    let two = block_on(&storage, &genesis, &one, vec![coinbase(&genesis, 2, other, 51)], 1_012);
    assert_eq!(
        try_reorg_to_chain(&mut storage, &genesis, 0, vec![one, two]),
        Err(BlockError::Coinbase(StateError::CoinbaseOverclaims { claimed: 51, allowed: 50 }))
    );
    assert_eq!(storage.state_root().unwrap(), root);
    assert_eq!(tip(&storage), local);
    assert_eq!(storage.get_block(2), Ok(None));
}

#[test]
fn two_nodes_settle_on_the_same_sibling() {
    let genesis = genesis();
    let a = Keypair::generate().address();
    let b = Keypair::generate().address();
    let mut left = started(&genesis);
    let mut right = started(&genesis);
    let first = tip(&left);
    let one = block_on(&left, &genesis, &first, vec![coinbase(&genesis, 1, a, 50)], 1_010);
    let other = block_on(&left, &genesis, &first, vec![coinbase(&genesis, 1, b, 50)], 1_010);
    commit_new_tip(&mut left, &genesis, &one).unwrap();
    commit_new_tip(&mut right, &genesis, &other).unwrap();
    let moved_left = try_reorg_to_chain(&mut left, &genesis, 0, vec![other]).unwrap();
    let moved_right = try_reorg_to_chain(&mut right, &genesis, 0, vec![one]).unwrap();
    assert_ne!(moved_left, moved_right);
    assert_eq!(block_hash(&tip(&left)), block_hash(&tip(&right)));
    assert_eq!(left.state_root(), right.state_root());
}

#[test]
fn a_mined_candidate_extends_the_chain() {
    let genesis = genesis();
    let mut storage = started(&genesis);
    let miner = Keypair::generate();
    let first = tip(&storage);
    let one = block_on(&storage, &genesis, &first, vec![coinbase(&genesis, 1, miner.address(), 50)], 1_010);
    commit_new_tip(&mut storage, &genesis, &one).unwrap();
    let reward = OutPoint { txid: txid(&one.transactions[0]), vout: 0 };
    let mut mempool = Mempool::new(genesis.chain_id.clone());
    let spend = pay(&genesis, &miner, reward, &[45]);
    mempool.insert(&storage, spend.clone()).unwrap();

    let candidate =
        build_mining_candidate(&storage, &mut mempool, &genesis, miner.address(), 7, 1_020).expect("hay una punta");
    assert!(mempool.is_empty());
    assert_eq!(candidate.transactions.len(), 2);
    assert_eq!(candidate.transactions[1], spend);
    assert_eq!(candidate.transactions[0].outputs, vec![TxOut { amount: 55, pubkey_hash: miner.address() }]);
    assert_eq!(candidate.transactions[0].inputs[0].signature[8..16], 7u64.to_le_bytes());
    assert_eq!(candidate.header.timestamp, 1_020);
    let header = mine_batch(candidate.header, 10).unwrap();
    let block = Block { header, transactions: candidate.transactions };
    assert_eq!(commit_new_tip(&mut storage, &genesis, &block), Ok(()));
    assert_eq!(storage.get_transaction(&txid(&spend)).unwrap().unwrap().0, 2);
    assert_eq!(storage.get_utxo(&reward), None);
}

#[test]
fn no_nonce_meets_an_impossible_target() {
    let mut header = tip(&started(&genesis())).header;
    assert_eq!(mine_batch(header, 0), None);
    header.target = [0u8; 32];
    assert_eq!(mine_batch(header, 50), None);
}

#[test]
fn mining_info_speaks_of_the_next_block() {
    let genesis = genesis();
    let mut storage = started(&genesis);
    let info = mining_info(&storage, &genesis);
    assert_eq!((info.height, info.next_subsidy, info.target), (Some(0), 50, [0xffu8; 32]));
    let miner = Keypair::generate().address();
    for height in 1..=3u64 {
        let parent = tip(&storage);
        let time = parent.header.timestamp + 10;
        let block = block_on(&storage, &genesis, &parent, vec![coinbase(&genesis, height, miner, 50)], time);
        commit_new_tip(&mut storage, &genesis, &block).unwrap();
    }
    let info = mining_info(&storage, &genesis);
    assert_eq!((info.height, info.next_subsidy), (Some(3), 25));
    assert_eq!(info.target, tip(&storage).header.target);
    let empty = RocksStorage::from_db(MemoryKv::new());
    let info = mining_info(&empty, &genesis);
    assert_eq!((info.height, info.next_subsidy, info.target), (None, 50, genesis.initial_target));
}

#[test]
fn five_strikes_are_too_many() {
    assert_eq!(record_strike(0), (1, false));
    assert_eq!(record_strike(3), (4, false));
    assert_eq!(record_strike(4), (5, true));
    assert_eq!(record_strike(9), (10, true));
}

#[test]
fn undoing_a_block_that_spends_its_own_output_leaves_nothing_of_it() {
    let genesis = genesis();
    let mut storage = started(&genesis);
    let miner = Keypair::from_secret_bytes([5u8; 32]);
    let first = tip(&storage);
    let one = block_on(&storage, &genesis, &first, vec![coinbase(&genesis, 1, miner.address(), 50)], 1_010);
    commit_new_tip(&mut storage, &genesis, &one).unwrap();
    let root = storage.state_root().unwrap();

    let earned = OutPoint { txid: txid(&one.transactions[0]), vout: 0 };
    let a = pay(&genesis, &miner, earned, &[30, 20]);
    let passing = OutPoint { txid: txid(&a), vout: 0 };
    let b = pay(&genesis, &miner, passing, &[30]);
    let two = block_on(
        &storage,
        &genesis,
        &one,
        vec![coinbase(&genesis, 2, miner.address(), 50), a.clone(), b.clone()],
        1_020,
    );
    commit_new_tip(&mut storage, &genesis, &two).unwrap();
    assert_eq!(storage.get_utxo(&passing), None);
    assert!(storage.get_utxo(&OutPoint { txid: txid(&b), vout: 0 }).is_some());

    assert_eq!(storage.undo_latest_block().unwrap(), two);
    assert_eq!(storage.get_utxo(&passing), None);
    assert_eq!(storage.get_utxo(&OutPoint { txid: txid(&a), vout: 1 }), None);
    assert_eq!(storage.get_utxo(&OutPoint { txid: txid(&b), vout: 0 }), None);
    assert_eq!(storage.get_utxo(&earned), Some(TxOut { amount: 50, pubkey_hash: miner.address() }));
    assert_eq!(storage.state_root().unwrap(), root);
    assert_eq!(is_chained(&storage), Ok(true));
}
