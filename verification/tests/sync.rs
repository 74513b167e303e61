use std::cell::Cell;
use std::rc::Rc;

use znx::chain::{commit_new_tip, BlockError};
use znx::codec::{block_hash, encode, tx_root};
use znx::crypto::{Address, Keypair};
use znx::genesis::Genesis;
use znx::kv::{Column, KvMap, KvOp, KvStore, MemoryKv};
use znx::mempool::{Mempool, MempoolError};
use znx::node::{bootstrap_genesis, mine_batch};
use znx::storage::{RocksStorage, StorageError};
use znx::sync::{
    block_response, handle_inbound_block, handle_inbound_transaction, Backfill, BackfillReply,
    BackfillStep, BlockVerdict, IbdStep, IbdSync, TxVerdict,
};
use znx::types::{Block, BlockHeader, Transaction, TxOut};

fn genesis() -> Genesis {
    Genesis {
        chain_id: "znx-test-1".to_string(),
        genesis_time_unix: 0,
        subsidy_schedule: vec![50],
        subsidy_period_blocks: 1_000_000,
        target_block_time_secs: 120,
        difficulty_adjustment_interval_blocks: 2016,
        initial_target: [0xffu8; 32],
        premine: vec![],
    }
}

fn started() -> RocksStorage<MemoryKv> {
    let mut storage = RocksStorage::from_db(MemoryKv::new());
    bootstrap_genesis(&mut storage, &genesis()).unwrap();
    storage
}

fn chain(length: u64, miner: Address) -> Vec<Block> {
    let mut blocks = vec![started().get_block(0).unwrap().unwrap()];
    for height in 1..=length {
        let outputs = vec![TxOut { amount: 50, pubkey_hash: miner }];
        let transactions = vec![Transaction::new_coinbase("znx-test-1".to_string(), height, 0, outputs)];
        let header = BlockHeader {
            height,
            parent_hash: block_hash(&blocks[height as usize - 1]),
            tx_root: tx_root(&transactions),
            timestamp: height,
            target: [0xffu8; 32],
            pow_nonce: 0,
        };
        blocks.push(Block { header: mine_batch(header, 10).unwrap(), transactions });
    }
    blocks
}

fn address(byte: u8) -> Address {
    Keypair::from_secret_bytes([byte; 32]).address()
}

#[test]
fn a_gossiped_transaction_is_judged_by_its_form_alone() {
    let storage = started();
    let mut mempool = Mempool::new("znx-test-1".to_string());
    let verdict = handle_inbound_transaction(&storage, &mut mempool, &[1, 2, 3]);
    assert!(matches!(verdict, TxVerdict::Undecodable));
    assert!(!verdict.counts_as_valid());
    let coinbase = Transaction::new_coinbase("znx-test-1".to_string(), 1, 0, vec![]);
    let verdict = handle_inbound_transaction(&storage, &mut mempool, &encode(&coinbase));
    assert!(matches!(verdict, TxVerdict::NotAdmitted(MempoolError::CoinbaseNotAllowed)));
    assert!(verdict.counts_as_valid());
}

#[test]
fn a_gossiped_block_extends_competes_or_is_an_orphan() {
    let genesis = genesis();
    let mut storage = started();
    let ours = chain(2, address(1));
    let theirs = chain(3, address(2));

    let verdict = handle_inbound_block(&mut storage, &genesis, &[0u8; 5]);
    assert!(matches!(verdict, BlockVerdict::Undecodable));
    assert!(!verdict.counts_as_valid());
    assert!(!verdict.earns_a_strike());

    let verdict = handle_inbound_block(&mut storage, &genesis, &encode(&ours[1]));
    assert!(matches!(verdict, BlockVerdict::Accepted));
    assert!(verdict.counts_as_valid());

    let verdict = handle_inbound_block(&mut storage, &genesis, &encode(&theirs[1]));
    if block_hash(&theirs[1]) < block_hash(&ours[1]) {
        assert!(matches!(verdict, BlockVerdict::SiblingAdopted));
    } else {
        assert!(matches!(verdict, BlockVerdict::SiblingIgnored));
    }
    assert!(verdict.counts_as_valid());

    let verdict = handle_inbound_block(&mut storage, &genesis, &encode(&theirs[3]));
    assert!(matches!(&verdict, BlockVerdict::Orphan(b) if *b == theirs[3]));
    assert!(verdict.counts_as_valid());
    assert!(!verdict.earns_a_strike());

    let mut sibling = theirs[1].clone();
    sibling.transactions.clear();
    sibling.header.pow_nonce = 0;
    loop {
        if block_hash(&sibling) < block_hash(&storage.get_block(1).unwrap().unwrap()) {
            break;
        }
        sibling.header.pow_nonce += 1;
    }
    let verdict = handle_inbound_block(&mut storage, &genesis, &encode(&sibling));
    assert!(matches!(verdict, BlockVerdict::SiblingRejected(BlockError::BadTxRoot)));
    assert!(verdict.earns_a_strike());

    let mut bad = chain(2, address(3))[2].clone();
    bad.header.parent_hash = block_hash(&storage.get_block(1).unwrap().unwrap());
    bad.transactions.clear();
    let verdict = handle_inbound_block(&mut storage, &genesis, &encode(&bad));
    assert!(matches!(verdict, BlockVerdict::Rejected(BlockError::BadTxRoot)));
    assert!(!verdict.counts_as_valid());
    assert!(verdict.earns_a_strike());
}

#[test]
fn an_orphan_is_traced_back_to_the_local_chain() {
    let genesis = genesis();
    let mut storage = started();
    let ours = chain(1, address(1));
    commit_new_tip(&mut storage, &genesis, &ours[1]).unwrap();
    let theirs = chain(3, address(2));

    let mut backfill = Backfill::start(theirs[3].clone());
    assert!(matches!(backfill.advance(&mut storage, &genesis), BackfillStep::Request(2)));
    assert_eq!(backfill.receive(Some(encode(&theirs[2]))), BackfillReply::Extended);
    assert!(matches!(backfill.advance(&mut storage, &genesis), BackfillStep::Request(1)));
    assert_eq!(backfill.receive(Some(encode(&theirs[1]))), BackfillReply::Extended);
    assert!(matches!(backfill.advance(&mut storage, &genesis), BackfillStep::Joined(Ok(true))));
    assert_eq!(storage.latest_height(), Ok(Some(3)));
    assert_eq!(storage.get_block(3), Ok(Some(theirs[3].clone())));
}

#[test]
fn a_trace_ends_where_the_peer_has_no_answer() {
    let theirs = chain(3, address(2));
    let mut backfill = Backfill::start(theirs[3].clone());
    assert_eq!(backfill.receive(None), BackfillReply::Missing);
    assert!(!BackfillReply::Missing.earns_a_strike());
    assert_eq!(backfill.receive(Some(vec![1])), BackfillReply::Undecodable);
    assert!(BackfillReply::Undecodable.earns_a_strike());

    let mut foreign = theirs[0].clone();
    foreign.header.parent_hash = [9u8; 32];
    let mut backfill = Backfill::start(foreign);
    assert!(matches!(backfill.advance(&mut started(), &genesis()), BackfillStep::NoCommonAncestor));
}

#[test]
fn a_trace_goes_twenty_blocks_back() {
    let genesis = genesis();
    let mut storage = started();
    let theirs = chain(25, address(2));
    let mut backfill = Backfill::start(theirs[25].clone());
    let mut height = 25;
    let step = loop {
        match backfill.advance(&mut storage, &genesis) {
            BackfillStep::Request(wanted) => {
                height -= 1;
                assert_eq!(wanted, height);
                assert_eq!(backfill.receive(Some(encode(&theirs[wanted as usize]))), BackfillReply::Extended);
            }
            other => break other,
        }
    };
    assert!(matches!(step, BackfillStep::TooDeep));
    assert_eq!(height, 5);
    assert_eq!(storage.latest_height(), Ok(Some(0)));
}

#[test]
fn a_new_node_takes_blocks_sixteen_at_a_time() {
    let genesis = genesis();
    let mut storage = started();
    let theirs = chain(20, address(2));
    let mut sync = IbdSync::start();
    let wanted = sync.next_heights(&storage).unwrap();
    assert_eq!(wanted, (1..=16).collect::<Vec<u64>>());
    for height in wanted {
        let step = sync.receive(&mut storage, &genesis, Some(encode(&theirs[height as usize])));
        assert!(matches!(step, IbdStep::Synced));
    }
    assert_eq!(sync.synced(), 16);
    assert_eq!(sync.next_heights(&storage).unwrap()[0], 17);
    assert!(matches!(sync.receive(&mut storage, &genesis, None), IbdStep::UpToDate));
    let step = sync.receive(&mut storage, &genesis, Some(encode(&theirs[20])));
    assert!(matches!(step, IbdStep::Rejected(BlockError::UnexpectedHeight { local: 16, found: 20 })));
    assert!(step.earns_a_strike());
    let step = sync.receive(&mut storage, &genesis, Some(vec![]));
    assert!(matches!(step, IbdStep::Undecodable));
    assert!(step.earns_a_strike());
    assert_eq!(sync.synced(), 16);
}

#[test]
fn a_peer_is_handed_the_block_it_asks_for() {
    let genesis = genesis();
    let mut storage = started();
    let ours = chain(1, address(1));
    commit_new_tip(&mut storage, &genesis, &ours[1]).unwrap();
    assert_eq!(block_response(&storage, 1), Some(encode(&ours[1])));
    assert_eq!(block_response(&storage, 2), None);
}

#[test]
fn a_block_at_the_tip_of_a_deeper_fork_is_an_orphan() {
    let genesis = genesis();
    let mut storage = started();
    let ours = chain(2, address(1));
    let theirs = chain(2, address(2));
    for block in &ours[1..] {
        commit_new_tip(&mut storage, &genesis, block).unwrap();
    }
    let verdict = handle_inbound_block(&mut storage, &genesis, &encode(&theirs[2]));
    let orphan = match verdict {
        BlockVerdict::Orphan(block) => block,
        other => panic!("{other:?}"),
    };
    assert_eq!(orphan, theirs[2]);
    let mut backfill = Backfill::start(orphan);
    assert!(matches!(backfill.advance(&mut storage, &genesis), BackfillStep::Request(1)));
    assert_eq!(backfill.receive(Some(encode(&theirs[1]))), BackfillReply::Extended);
    let wins = block_hash(&theirs[2]) < block_hash(&ours[2]);
    match backfill.advance(&mut storage, &genesis) {
        BackfillStep::Joined(Ok(adopted)) => assert_eq!(adopted, wins),
        other => panic!("{other:?}"),
    }
    let tip = if wins { &theirs[2] } else { &ours[2] };
    assert_eq!(storage.get_block(2).unwrap().as_ref(), Some(tip));
}

/// A store that fails at one of its readings of the latest height, or at every write.
struct Frail {
    inner: MemoryKv,
    good_readings: Rc<Cell<u32>>,
    writes: Rc<Cell<bool>>,
}

impl KvStore for Frail {
    fn wf(&self) -> bool {
        true
    }

    fn kv(&self) -> KvMap {
        unreachable!("contents are for contracts to speak of")
    }

    fn reliable(&self) -> bool {
        false
    }

    fn get(&self, column: Column, key: &[u8]) -> Result<Option<Vec<u8>>, String> {
        if column == Column::Meta {
            if self.good_readings.get() == 0 {
                return Err("roto".to_string());
            }
            self.good_readings.set(self.good_readings.get() - 1);
        }
        self.inner.get(column, key)
    }

    fn read(&self, column: Column, key: &[u8]) -> Option<Vec<u8>> {
        self.inner.read(column, key)
    }

    fn entries(&self, column: Column) -> Result<Vec<(Vec<u8>, Vec<u8>)>, String> {
        self.inner.entries(column)
    }

    fn write(&mut self, ops: Vec<KvOp>) -> Result<(), String> {
        if !self.writes.get() {
            return Err("lleno".to_string());
        }
        self.inner.write(ops)
    }
}

#[test]
fn a_failing_database_is_not_held_for_a_verdict() {
    let genesis = genesis();
    let good_readings = Rc::new(Cell::new(u32::MAX));
    let writes = Rc::new(Cell::new(true));
    let inner = MemoryKv::new();
    let db = Frail { inner, good_readings: good_readings.clone(), writes: writes.clone() };
    let mut storage = RocksStorage::from_db(db);
    bootstrap_genesis(&mut storage, &genesis).unwrap();
    let ours = chain(2, address(1));
    let theirs = chain(2, address(2));

    writes.set(false);
    let verdict = handle_inbound_block(&mut storage, &genesis, &encode(&ours[1]));
    let full = StorageError::RocksDb("lleno".to_string());
    assert!(matches!(&verdict, BlockVerdict::Rejected(BlockError::Storage(e)) if *e == full));
    assert_eq!(storage.latest_height(), Ok(Some(0)));
    let step = IbdSync::start().receive(&mut storage, &genesis, Some(encode(&ours[1])));
    assert!(matches!(step, IbdStep::Rejected(BlockError::Storage(e)) if e == full));

    writes.set(true);
    commit_new_tip(&mut storage, &genesis, &ours[1]).unwrap();
    good_readings.set(0);
    let verdict = handle_inbound_block(&mut storage, &genesis, &encode(&ours[2]));
    let broken = StorageError::RocksDb("roto".to_string());
    assert!(matches!(&verdict, BlockVerdict::Rejected(BlockError::Storage(e)) if *e == broken));

    good_readings.set(1);
    let verdict = handle_inbound_block(&mut storage, &genesis, &encode(&theirs[1]));
    assert!(matches!(verdict, BlockVerdict::NoTip));
    assert!(verdict.counts_as_valid());
    assert!(!verdict.earns_a_strike());
    good_readings.set(u32::MAX);
    assert_eq!(storage.get_block(1).unwrap().as_ref(), Some(&ours[1]));
}
