//! What a node does with its chain and its pool: the first block, mining, and what it tells
//! about itself.

use vstd::prelude::*;

use crate::bytes::{
    le_bytes, le_value, lemma_array_of, lemma_le_bytes_len, lemma_le_round_trip, lemma_pow256,
};
use crate::chain::{expected_target, has_coinbase, layer_of, required_target, tip_outcome};
use crate::codec::{block_hash, ids, meets_target, merkle_root, pow_hash, tx_root};
use crate::consensus::{has_work, subsidy, subsidy_for_height};
use crate::crypto::Address;
use crate::encoding::{text_fits, Canonical};
use crate::genesis::{Genesis, GenesisView};
use crate::kv::KvStore;
use crate::mempool::{
    admission, claims, claims_are_disjoint, holds_id, lemma_unclaimed, Mempool, MempoolView,
};
use crate::state::{
    accepted_transaction_conserves_value, accepted_transaction_is_authorised, apply_coinbase,
    apply_transaction, changed, consumed_outputs, created_outputs, creates_output, layer_holds,
    lemma_created_get, lemma_empty_layer_holds, lemma_layer_holds_more, lemma_layer_shows,
    lemma_outputs_total_take, lemma_same_gets, outputs_total, pairs_total, sum_outputs, transaction_outcome, unspent_after,
    ErrorText, OverlayStore, StateError, StateErrorView, StateStore, StoreView,
};
use crate::storage::{is_failure, lemma_block_at, Ledger, RocksStorage, StorageError};
use crate::types::{
    coinbase_tag, coinbase_view, transaction_views, Block, BlockHeader, BlockView, OutPoint,
    Transaction, TransactionView, TxOut,
};

verus! {

/// The most transactions from the pool that go into one block.
pub const MAX_TXS_PER_BLOCK: usize = 500;

/// How many nonces are tried before the candidate is made anew.
pub const MINING_BATCH_ATTEMPTS: u64 = 500_000;

/// How many invalid blocks a peer may send before it is banned.
pub const STRIKES_BEFORE_BAN: u32 = 5;

/// Why the first block could not be set up.
#[derive(Debug, Clone, PartialEq, Eq)]
pub enum BootstrapError {
    Storage(StorageError),
    InvalidPremine(StateError),
}

/// The outputs of a premine.
pub open spec fn premine_outputs(premine: Seq<(Address, u128)>) -> Seq<TxOut> {
    premine.map_values(|p: (Address, u128)| TxOut { amount: p.1, pubkey_hash: p.0 })
}

/// The transactions of the first block: with a premine, one coinbase that pays it out.
pub open spec fn genesis_transactions(genesis: GenesisView) -> Seq<TransactionView> {
    if genesis.premine.len() == 0 {
        Seq::empty()
    } else {
        seq![coinbase_view(genesis.chain_id, 0, 0, premine_outputs(genesis.premine))]
    }
}

/// The first block. Every node with the same parameters makes the same one.
pub open spec fn genesis_block(genesis: GenesisView) -> BlockView {
    let transactions = genesis_transactions(genesis);
    BlockView {
        header: BlockHeader {
            height: 0,
            parent_hash: crate::bytes::array_of(Seq::new(32, |i: int| 0u8)),
            tx_root: merkle_root(ids(transactions)),
            timestamp: genesis.genesis_time_unix,
            target: genesis.initial_target,
            pow_nonce: 0,
        },
        transactions,
    }
}

/// A ledger after the first block.
pub open spec fn bootstrapped(ledger: Ledger, genesis: GenesisView) -> Ledger {
    let block = genesis_block(genesis);
    let stored = ledger.with_block(block);
    if block.transactions.len() == 0 {
        stored
    } else {
        Ledger {
            utxos: changed(
                ledger.utxos,
                Seq::empty(),
                created_outputs(block.transactions[0]),
            ),
            ..stored
        }
    }
}

/// The premine can be written down: its texts and lists fit, and so does its sum.
pub open spec fn premine_fits(genesis: GenesisView) -> bool {
    &&& text_fits(genesis.chain_id)
    &&& genesis.premine.len() <= u32::MAX
    &&& outputs_total(premine_outputs(genesis.premine)) <= u128::MAX
}

/// Whether the premine can be written down.
pub fn premine_is_bounded(genesis: &Genesis) -> (r: bool)
    ensures
        r == premine_fits(genesis@),
{
    if genesis.chain_id.as_str().as_bytes().len() > 0xFFFF_FFFF {
        return false;
    }
    if genesis.premine.len() > 0xFFFF_FFFF {
        return false;
    }
    let ghost outputs = premine_outputs(genesis@.premine);
    let mut total: u128 = 0;
    let mut i: usize = 0;
    assert(outputs.take(0) =~= Seq::<TxOut>::empty());
    while i < genesis.premine.len()
        invariant
            i <= genesis.premine@.len(),
            outputs == premine_outputs(genesis@.premine),
            total == outputs_total(outputs.take(i as int)),
        decreases genesis.premine.len() - i,
    {
        proof {
            assert(outputs.take(i + 1).drop_last() =~= outputs.take(i as int));
            assert(outputs.take(i + 1).last() == outputs[i as int]);
            lemma_outputs_total_take(outputs, i + 1);
        }
        match total.checked_add(genesis.premine[i].1) {
            Some(sum) => {
                total = sum;
            },
            None => return false,
        }
        i += 1;
    }
    assert(outputs.take(outputs.len() as int) =~= outputs);
    true
}

/// The height and nonce in a coinbase can be read back.
proof fn lemma_stated_height(height: u64, extra_nonce: u64, signature: [u8; 64])
    requires
        signature@ == coinbase_tag(height, extra_nonce),
    ensures
        le_value(signature@.take(8)) == height,
{
    lemma_le_bytes_len(height as nat, 8);
    lemma_le_bytes_len(extra_nonce as nat, 8);
    assert(signature@.take(8) =~= le_bytes(height as nat, 8));
    lemma_pow256();
    lemma_le_round_trip(height as nat, 8);
}

/// Stores the first block and pays out the premine, if there is one. The premine is apart from
/// the emission schedule.
pub fn bootstrap_genesis<D: KvStore>(storage: &mut RocksStorage<D>, genesis: &Genesis) -> (r:
    Result<(), BootstrapError>)
    requires
        old(storage).wf(),
        premine_fits(genesis@),
    ensures
        final(storage).wf(),
        final(storage).never_fails() == old(storage).never_fails(),
        match r {
            Ok(_) => final(storage).ledger() == bootstrapped(old(storage).ledger(), genesis@),
            Err(BootstrapError::Storage(e)) => is_failure(e@, old(storage).never_fails())
                && final(storage).kv() == old(storage).kv(),
            Err(BootstrapError::InvalidPremine(e)) => (exists|x: StorageError|
                e@ == StateErrorView::Store(#[trigger] x.text())) && !old(storage).never_fails()
                && final(storage).ledger() == old(storage).ledger().with_block(
                genesis_block(genesis@),
            ),
        },
{
    let ghost ledger = storage.ledger();
    let mut transactions: Vec<Transaction> = Vec::new();
    if genesis.premine.len() > 0 {
        let mut outputs: Vec<TxOut> = Vec::new();
        let mut i: usize = 0;
        while i < genesis.premine.len()
            invariant
                i <= genesis.premine@.len(),
                outputs@.len() == i,
                forall|j: int|
                    0 <= j < i ==> outputs@[j] == premine_outputs(genesis@.premine)[j],
            decreases genesis.premine.len() - i,
        {
            let entry = genesis.premine[i];
            outputs.push(TxOut { amount: entry.1, pubkey_hash: entry.0 });
            i += 1;
        }
        assert(outputs@ =~= premine_outputs(genesis@.premine));
        transactions.push(Transaction::new_coinbase(genesis.chain_id.clone(), 0, 0, outputs));
    }
    let ghost views = transaction_views(transactions@);
    proof {
        assert(views =~= genesis_transactions(genesis@));
        assert forall|i: int| 0 <= i < transactions@.len() implies (
        #[trigger] transactions@[i])@.encodable() by {
            assert(views[i] == transactions@[i]@);
        }
    }
    let root = tx_root(transactions.as_slice());
    let zeros: [u8; 32] = [0u8; 32];
    proof {
        assert(zeros@ =~= Seq::new(32, |i: int| 0u8));
        lemma_array_of(zeros);
    }
    let block = Block {
        header: BlockHeader {
            height: 0,
            parent_hash: zeros,
            tx_root: root,
            timestamp: genesis.genesis_time_unix,
            target: genesis.initial_target,
            pow_nonce: 0,
        },
        transactions,
    };
    proof {
        assert(block@ =~= genesis_block(genesis@));
        assert(block@.encodable()) by {
            assert forall|i: int| 0 <= i < views.len() implies <Transaction as Canonical>::encodable(
                #[trigger] views[i],
            ) by {
                assert(transactions@[i]@.encodable());
            }
        }
    }
    match storage.put_block(&block) {
        Ok(_) => {},
        Err(e) => return Err(BootstrapError::Storage(e)),
    }
    if block.transactions.len() > 0 {
        let premine_tx = &block.transactions[0];
        assert(views[0] == premine_tx@);
        let total: u128 = match sum_outputs(premine_tx.outputs.as_slice()) {
            Some(total) => total,
            None => u128::MAX,
        };
        proof {
            lemma_stated_height(0, 0, premine_tx@.inputs[0].signature);
        }
        let ghost stored = storage.ledger();
        match apply_coinbase(storage, premine_tx, 0, total) {
            Ok(_) => {
                assert(storage.ledger() =~= (Ledger { utxos: storage.ledger().utxos, ..stored }));
            },
            Err(e) => {
                assert(storage.ledger() =~= stored);
                return Err(BootstrapError::InvalidPremine(e));
            },
        }
    }
    Ok(())
}

/// What packing transactions into a block gives: the changes and fees of those that apply, and
/// which they are.
#[verifier::ext_equal]
pub struct Pack {
    pub spent: Set<OutPoint>,
    pub created: Map<OutPoint, TxOut>,
    pub fees: nat,
    pub included: Seq<TransactionView>,
}

/// Packs transactions in order; one that does not apply on top of those before it is left out.
pub open spec fn pack_of(
    base: Map<OutPoint, TxOut>,
    chain_id: Seq<char>,
    txs: Seq<TransactionView>,
) -> Pack
    decreases txs.len(),
{
    if txs.len() == 0 {
        Pack { spent: Set::empty(), created: Map::empty(), fees: 0, included: Seq::empty() }
    } else {
        let pack = pack_of(base, chain_id, txs.drop_last());
        let tx = txs.last();
        match transaction_outcome(
            crate::state::seen_through(base, pack.created, pack.spent),
            tx,
            chain_id,
        ) {
            Err(_) => pack,
            Ok(applied) => Pack {
                spent: pack.spent.union(crate::state::spent_outpoints(tx).to_set()),
                created: changed(
                    pack.created,
                    crate::state::spent_outpoints(tx),
                    created_outputs(tx),
                ),
                fees: pack.fees + applied.fee,
                included: pack.included.push(tx),
            },
        }
    }
}

/// An amount, or the largest one there is.
pub open spec fn capped(amount: nat) -> u128 {
    if amount <= u128::MAX {
        amount as u128
    } else {
        u128::MAX
    }
}

/// A block to be mined: all but the nonce.
#[derive(Debug, Clone)]
pub struct MiningCandidate {
    pub header: BlockHeader,
    pub transactions: Vec<Transaction>,
}

/// The transactions of a candidate: the coinbase, which pays the subsidy and the fees to the
/// miner, and those packed from a batch.
pub open spec fn candidate_transactions(
    ledger: Ledger,
    genesis: GenesisView,
    batch: Seq<TransactionView>,
    miner: Address,
    extra_nonce: u64,
) -> Seq<TransactionView> {
    let height = (ledger.latest->0 + 1) as u64;
    let pack = pack_of(ledger.utxos, genesis.chain_id, batch);
    let reward = subsidy(
        height as nat,
        genesis.subsidy_schedule,
        genesis.subsidy_period_blocks as nat,
    ) + pack.fees;
    seq![
        coinbase_view(
            genesis.chain_id,
            height,
            extra_nonce,
            seq![TxOut { amount: capped(reward), pubkey_hash: miner }],
        ),
    ] + pack.included
}

/// The candidate on top of a ledger, for a batch of transactions.
pub open spec fn candidate_of(
    ledger: Ledger,
    genesis: GenesisView,
    batch: Seq<TransactionView>,
    miner: Address,
    extra_nonce: u64,
    now: u64,
) -> BlockView {
    let height = (ledger.latest->0 + 1) as u64;
    let transactions = candidate_transactions(ledger, genesis, batch, miner, extra_nonce);
    BlockView {
        header: BlockHeader {
            height,
            parent_hash: ledger.tip().hash(),
            tx_root: merkle_root(ids(transactions)),
            timestamp: now,
            target: required_target(ledger, genesis, height),
            pow_nonce: 0,
        },
        transactions,
    }
}

/// Packs a batch on top of a store, without changing it: the transactions that apply, and their
/// fees.
pub fn pack_transactions<S: StateStore>(
    base: &S,
    chain_id: &str,
    batch: Vec<Transaction>,
) -> (r: (Vec<Transaction>, u128))
    requires
        base.wf(),
        forall|i: int| 0 <= i < batch@.len() ==> (#[trigger] batch@[i])@.encodable(),
    ensures
        ({
            let pack = pack_of(
                base.contents().utxos(),
                chain_id@,
                transaction_views(batch@),
            );
            &&& transaction_views(r.0@) == pack.included
            &&& r.1 == capped(pack.fees)
        }),
        r.0@.len() <= batch@.len(),
        forall|i: int| 0 <= i < r.0@.len() ==> (#[trigger] r.0@[i])@.encodable(),
{
    let ghost utxos = base.contents().utxos();
    let ghost views = transaction_views(batch@);
    let mut overlay = OverlayStore::new(base);
    let mut included: Vec<Transaction> = Vec::new();
    let mut total_fees: u128 = 0;
    let mut i: usize = 0;
    assert(views.take(0) =~= Seq::<TransactionView>::empty());
    assert(transaction_views(included@) =~= Seq::<TransactionView>::empty());
    while i < batch.len()
        invariant
            i <= batch@.len(),
            utxos == base.contents().utxos(),
            views == transaction_views(batch@),
            forall|k: int| 0 <= k < batch@.len() ==> (#[trigger] batch@[k])@.encodable(),
            overlay.wf(),
            ({
                let pack = pack_of(utxos, chain_id@, views.take(i as int));
                &&& overlay.contents() == (StoreView {
                    base: utxos,
                    created: pack.created,
                    spent: pack.spent,
                    layered: true,
                    reliable: true,
                })
                &&& transaction_views(included@) == pack.included
                &&& total_fees == capped(pack.fees)
            }),
            included@.len() <= i,
            forall|k: int| 0 <= k < included@.len() ==> (#[trigger] included@[k])@.encodable(),
        decreases batch.len() - i,
    {
        let tx = &batch[i];
        let ghost done = transaction_views(included@);
        proof {
            let next = views.take(i + 1);
            assert(next.drop_last() =~= views.take(i as int));
            assert(next.last() == tx@);
        }
        match apply_transaction(&mut overlay, tx, chain_id) {
            Ok(applied) => {
                total_fees = total_fees.saturating_add(applied.fee);
                included.push(tx.duplicate());
                assert(transaction_views(included@) =~= done.push(tx@));
            },
            Err(_) => {},
        }
        i += 1;
    }
    assert(views.take(views.len() as int) =~= views);
    (included, total_fees)
}

/// Makes a candidate on top of the local chain from what waits in the pool. Transactions that no
/// longer apply are dropped. The store is not changed: the candidate may yet lose the race.
pub fn build_mining_candidate<D: KvStore>(
    storage: &RocksStorage<D>,
    mempool: &mut Mempool,
    genesis: &Genesis,
    miner: Address,
    extra_nonce: u64,
    now: u64,
) -> (r: Option<MiningCandidate>)
    requires
        storage.wf(),
        storage.ledger().chained(),
        storage.ledger().latest->0 < u64::MAX,
        genesis@.emits(),
        genesis@.retargets_at(storage.ledger().latest->0 + 1),
        text_fits(genesis@.chain_id),
        old(mempool).wf(),
    ensures
        final(mempool).wf(),
        ({
            let waiting = old(mempool)@.pending;
            let n = if MAX_TXS_PER_BLOCK <= waiting.len() {
                MAX_TXS_PER_BLOCK as int
            } else {
                waiting.len() as int
            };
            let block = candidate_of(
                storage.ledger(),
                genesis@,
                waiting.take(n),
                miner,
                extra_nonce,
                now,
            );
            match r {
                Some(candidate) => {
                    &&& candidate.header == block.header
                    &&& transaction_views(candidate.transactions@) == block.transactions
                    &&& final(mempool)@ == (MempoolView {
                        pending: waiting.skip(n),
                        ..old(mempool)@
                    })
                    &&& forall|i: int|
                        0 <= i < candidate.transactions@.len() ==> (
                        #[trigger] candidate.transactions@[i])@.encodable()
                },
                None => !storage.never_fails() && final(mempool)@ == old(mempool)@,
            }
        }),
{
    let ghost ledger = storage.ledger();
    let local_height: u64 = match storage.latest_height() {
        Ok(Some(height)) => height,
        _ => return None,
    };
    proof {
        assert(ledger.blocks.contains_key(local_height));
        lemma_block_at(storage.kv(), local_height);
    }
    let parent = match storage.get_block(local_height) {
        Ok(Some(parent)) => parent,
        _ => return None,
    };
    let parent_hash = block_hash(&parent);
    let height: u64 = local_height + 1;
    let target = match expected_target(storage, genesis, height) {
        Ok(target) => target,
        Err(_) => return None,
    };
    let batch = mempool.next_batch(MAX_TXS_PER_BLOCK);
    let (included, total_fees) = pack_transactions(storage, genesis.chain_id.as_str(), batch);
    let subsidy: u128 = subsidy_for_height(
        height,
        genesis.subsidy_schedule.as_slice(),
        genesis.subsidy_period_blocks,
    );
    let reward: u128 = subsidy.saturating_add(total_fees);
    let mut outputs: Vec<TxOut> = Vec::new();
    outputs.push(TxOut { amount: reward, pubkey_hash: miner });
    let ghost pay = TxOut { amount: reward, pubkey_hash: miner };
    assert(outputs@ =~= seq![pay]);
    let coinbase = Transaction::new_coinbase(
        genesis.chain_id.clone(),
        height,
        extra_nonce,
        outputs,
    );
    let ghost first = coinbase@;
    let ghost others = transaction_views(included@);
    let mut transactions: Vec<Transaction> = Vec::new();
    transactions.push(coinbase);
    let mut rest = included;
    transactions.append(&mut rest);
    proof {
        assert(transaction_views(transactions@) =~= seq![first] + others);
        assert(first.encodable());
        assert forall|i: int| 0 <= i < transactions@.len() implies (
        #[trigger] transactions@[i])@.encodable() by {
            if i > 0 {
                assert(transactions@[i] == included@[i - 1]);
            }
        }
    }
    let header = BlockHeader {
        height,
        parent_hash,
        tx_root: tx_root(transactions.as_slice()),
        timestamp: now,
        target,
        pow_nonce: 0,
    };
    Some(MiningCandidate { header, transactions })
}

/// A header with another nonce.
pub open spec fn with_nonce(header: BlockHeader, nonce: u64) -> BlockHeader {
    BlockHeader { pow_nonce: nonce, ..header }
}

/// Looks for a nonce below `attempts` with which the header meets its target, the smallest first.
pub fn mine_batch(header: BlockHeader, attempts: u64) -> (r: Option<BlockHeader>)
    ensures
        match r {
            Some(found) => {
                &&& found == with_nonce(header, found.pow_nonce)
                &&& found.pow_nonce < attempts
                &&& has_work(found)
                &&& forall|n: u64|
                    n < found.pow_nonce ==> !has_work(#[trigger] with_nonce(header, n))
            },
            None => forall|n: u64| n < attempts ==> !has_work(#[trigger] with_nonce(header, n)),
        },
{
    let mut nonce: u64 = 0;
    while nonce < attempts
        invariant
            nonce <= attempts,
            forall|n: u64| n < nonce ==> !has_work(#[trigger] with_nonce(header, n)),
        decreases attempts - nonce,
    {
        let mut tried = header;
        tried.pow_nonce = nonce;
        assert(tried == with_nonce(header, nonce));
        let hash = pow_hash(&tried);
        if meets_target(&hash, &tried.target) {
            return Some(tried);
        }
        nonce += 1;
    }
    None
}

/// A pool after putting transactions back, one after the other; what is not admitted is lost.
pub open spec fn requeued(
    pool: MempoolView,
    utxos: Map<OutPoint, TxOut>,
    txs: Seq<TransactionView>,
) -> MempoolView
    decreases txs.len(),
{
    if txs.len() == 0 {
        pool
    } else {
        let before = requeued(pool, utxos, txs.drop_last());
        match admission(before, utxos, txs.last()) {
            Ok(_) => MempoolView { pending: before.pending.push(txs.last()), ..before },
            Err(_) => before,
        }
    }
}

proof fn lemma_requeued_so_far(
    pool: MempoolView,
    utxos: Map<OutPoint, TxOut>,
    n: int,
    k: int,
)
    requires
        0 <= k <= n <= pool.pending.len() <= pool.max_size,
        claims_are_disjoint(pool.pending),
        forall|i: int, j: int|
            0 <= i < j < pool.pending.len() ==> (#[trigger] pool.pending[i]).id() != (
            #[trigger] pool.pending[j]).id(),
        forall|i: int|
            0 <= i < n ==> admission(
                MempoolView { pending: Seq::empty(), ..pool },
                utxos,
                #[trigger] pool.pending[i],
            ) is Ok,
    ensures
        requeued(
            MempoolView { pending: pool.pending.skip(n), ..pool },
            utxos,
            pool.pending.take(n).take(k),
        ) == (MempoolView { pending: pool.pending.skip(n) + pool.pending.take(k), ..pool }),
    decreases k,
{
    let all = pool.pending;
    let drained = all.take(n);
    let rest = all.skip(n);
    if k == 0 {
        assert(drained.take(0) =~= Seq::<TransactionView>::empty());
        assert(rest + all.take(0) =~= rest);
    } else {
        lemma_requeued_so_far(pool, utxos, n, k - 1);
        let before = MempoolView { pending: rest + all.take(k - 1), ..pool };
        let tx = all[k - 1];
        assert(drained.take(k).drop_last() =~= drained.take(k - 1));
        assert(drained.take(k).last() == tx);
        assert(!holds_id(before.pending, tx.id())) by {
            if holds_id(before.pending, tx.id()) {
                let i = choose|i: int|
                    0 <= i < before.pending.len() && (#[trigger] before.pending[i]).id()
                        == tx.id();
                let x = if i < rest.len() { i + n } else { i - rest.len() };
                assert(all[x] == before.pending[i]);
                assert(all[x].id() != all[k - 1].id());
            }
        }
        assert forall|j: int| 0 <= j < tx.inputs.len() implies !claims(
            before.pending,
            (#[trigger] tx.inputs[j]).prev_out,
        ) by {
            let op = tx.inputs[j].prev_out;
            if claims(before.pending, op) {
                let (i, m) = choose|i: int, m: int|
                    0 <= i < before.pending.len() && 0 <= m < before.pending[i].inputs.len() && (
                    #[trigger] before.pending[i].inputs[m]).prev_out == op;
                let x = if i < rest.len() { i + n } else { i - rest.len() };
                assert(all[x] == before.pending[i]);
                assert(all[x].inputs[m].prev_out != all[k - 1].inputs[j].prev_out);
            }
        }
        lemma_unclaimed(before.pending, utxos, tx.inputs);
        lemma_unclaimed(Seq::empty(), utxos, tx.inputs);
        assert(admission(MempoolView { pending: Seq::empty(), ..pool }, utxos, tx) is Ok);
        assert(admission(before, utxos, tx) is Ok);
        assert(before.pending.push(tx) =~= rest + all.take(k));
    }
}

/// Transactions that were taken from a pool for a candidate and put back come back, all of them
/// and behind those that kept waiting, as long as each would still be admitted on its own.
pub proof fn drained_transactions_come_back(
    pool: MempoolView,
    utxos: Map<OutPoint, TxOut>,
    n: int,
)
    requires
        0 <= n <= pool.pending.len() <= pool.max_size,
        claims_are_disjoint(pool.pending),
        forall|i: int, j: int|
            0 <= i < j < pool.pending.len() ==> (#[trigger] pool.pending[i]).id() != (
            #[trigger] pool.pending[j]).id(),
        forall|i: int|
            0 <= i < n ==> admission(
                MempoolView { pending: Seq::empty(), ..pool },
                utxos,
                #[trigger] pool.pending[i],
            ) is Ok,
    ensures
        requeued(
            MempoolView { pending: pool.pending.skip(n), ..pool },
            utxos,
            pool.pending.take(n),
        ) == (MempoolView { pending: pool.pending.skip(n) + pool.pending.take(n), ..pool }),
{
    lemma_requeued_so_far(pool, utxos, n, n);
    assert(pool.pending.take(n).take(n) =~= pool.pending.take(n));
}

/// Puts the transactions of a candidate for which no nonce was found back into the pool, all but
/// the coinbase, which stands first. Each goes through admission again.
pub fn requeue_transactions<S: StateStore>(
    store: &S,
    mempool: &mut Mempool,
    transactions: Vec<Transaction>,
)
    requires
        store.wf(),
        old(mempool).wf(),
        forall|i: int| 0 <= i < transactions@.len() ==> (#[trigger] transactions@[i])@.encodable(),
    ensures
        final(mempool).wf(),
        final(mempool)@ == if transactions@.len() <= 1 {
            old(mempool)@
        } else {
            requeued(
                old(mempool)@,
                store.contents().utxos(),
                transaction_views(transactions@).skip(1),
            )
        },
{
    let ghost start = mempool@;
    let ghost views = transaction_views(transactions@);
    let ghost rest = views.skip(1);
    let ghost utxos = store.contents().utxos();
    if transactions.len() <= 1 {
        return ;
    }
    let mut i: usize = 1;
    assert(rest.take(0) =~= Seq::<TransactionView>::empty());
    while i < transactions.len()
        invariant
            1 <= i <= transactions@.len(),
            store.wf(),
            utxos == store.contents().utxos(),
            views == transaction_views(transactions@),
            rest == views.skip(1),
            forall|k: int|
                0 <= k < transactions@.len() ==> (#[trigger] transactions@[k])@.encodable(),
            mempool.wf(),
            mempool@ == requeued(start, utxos, rest.take(i - 1)),
        decreases transactions.len() - i,
    {
        let tx = transactions[i].duplicate();
        proof {
            let next = rest.take(i as int);
            assert(next.drop_last() =~= rest.take(i - 1));
            assert(rest[i - 1] == transactions@[i as int]@);
            assert(next.last() == tx@);
        }
        let ghost before = mempool@;
        match mempool.insert(store, tx) {
            Ok(_) => {},
            Err(_) => {
                assert(mempool@ =~= before);
            },
        }
        i += 1;
    }
    assert(rest.take(rest.len() as int) =~= rest);
}

/// What a node tells miners.
#[derive(Debug, Clone)]
pub struct MiningInfo {
    pub chain_id: String,
    pub height: Option<u64>,
    pub target: [u8; 32],
    pub next_subsidy: u128,
}

/// What a node tells miners: the chain, the latest height, the latest block's target, and the
/// subsidy of the next block. What cannot be read counts as absent.
pub fn mining_info<D: KvStore>(storage: &RocksStorage<D>, genesis: &Genesis) -> (r: MiningInfo)
    requires
        storage.wf(),
        storage.ledger().latest is Some ==> storage.ledger().latest->0 < u64::MAX,
        genesis@.emits(),
    ensures
        r.chain_id@ == genesis@.chain_id,
        r.height == storage.ledger().latest || (r.height is None && !storage.never_fails()),
        r.target == match r.height {
            Some(h) => match storage.ledger().blocks.get(h) {
                Some(block) => block.header.target,
                None => genesis@.initial_target,
            },
            None => genesis@.initial_target,
        } || (r.target == genesis@.initial_target && !storage.never_fails()),
        r.next_subsidy as nat == subsidy(
            match r.height {
                Some(h) => (h + 1) as nat,
                None => 0,
            },
            genesis@.subsidy_schedule,
            genesis@.subsidy_period_blocks as nat,
        ),
{
    let height: Option<u64> = match storage.latest_height() {
        Ok(height) => height,
        Err(_) => None,
    };
    let target = match height {
        Some(h) => {
            proof {
                lemma_block_at(storage.kv(), h);
            }
            match storage.get_block(h) {
                Ok(Some(block)) => block.header.target,
                _ => genesis.initial_target,
            }
        },
        None => genesis.initial_target,
    };
    let next_height: u64 = match height {
        Some(h) => h + 1,
        None => 0,
    };
    let next_subsidy: u128 = subsidy_for_height(
        next_height,
        genesis.subsidy_schedule.as_slice(),
        genesis.subsidy_period_blocks,
    );
    MiningInfo { chain_id: genesis.chain_id.clone(), height, target, next_subsidy }
}

/// A peer's count of invalid blocks after one more, and whether it is banned for it.
pub fn record_strike(count: u32) -> (r: (u32, bool))
    requires
        count < u32::MAX,
    ensures
        r.0 == count + 1,
        r.1 == (count + 1 >= STRIKES_BEFORE_BAN),
{
    let next: u32 = count + 1;
    (next, next >= STRIKES_BEFORE_BAN)
}

/// What is packed applies as a block's regular transactions.
proof fn lemma_pack_is_a_layer(
    base: Map<OutPoint, TxOut>,
    chain_id: Seq<char>,
    txs: Seq<TransactionView>,
)
    requires
        pack_of(base, chain_id, txs).fees <= u128::MAX,
    ensures
        ({
            let pack = pack_of(base, chain_id, txs);
            let layer = layer_of(base, chain_id, pack.included);
            &&& layer is Ok
            &&& layer->Ok_0.spent == pack.spent
            &&& layer->Ok_0.created == pack.created
            &&& layer->Ok_0.fees == pack.fees
            &&& !has_coinbase(pack.included)
        }),
    decreases txs.len(),
{
    if txs.len() > 0 {
        let front = txs.drop_last();
        let tx = txs.last();
        let before = pack_of(base, chain_id, front);
        lemma_pack_is_a_layer(base, chain_id, front);
        let seen = crate::state::seen_through(base, before.created, before.spent);
        if transaction_outcome(seen, tx, chain_id) is Ok {
            let now = before.included.push(tx);
            assert(now.drop_last() =~= before.included);
            accepted_transaction_is_authorised(seen, tx, chain_id);
            assert(!has_coinbase(now)) by {
                if has_coinbase(now) {
                    let i = choose|i: int| 0 <= i < now.len() && (#[trigger] now[i]).is_coinbase();
                    if i < before.included.len() {
                        assert(before.included[i].is_coinbase());
                    }
                }
            }
        }
    } else {
        assert(pack_of(base, chain_id, txs).included =~= Seq::<TransactionView>::empty());
    }
}

/// What has been packed is held in the layer that it was packed with.
proof fn lemma_pack_holds(
    base: Map<OutPoint, TxOut>,
    chain_id: Seq<char>,
    txs: Seq<TransactionView>,
)
    requires
        forall|i: int| 0 <= i < txs.len() ==> (#[trigger] txs[i]).outputs.len() <= u32::MAX,
    ensures
        ({
            let pack = pack_of(base, chain_id, txs);
            layer_holds(pack.created, pack.spent, pack.included)
        }),
    decreases txs.len(),
{
    if txs.len() == 0 {
        lemma_empty_layer_holds();
    } else {
        let front = txs.drop_last();
        let tx = txs.last();
        assert forall|i: int| 0 <= i < front.len() implies (#[trigger] front[i]).outputs.len()
            <= u32::MAX by {
            assert(front[i] == txs[i]);
        }
        assert(txs[txs.len() - 1] == tx);
        lemma_pack_holds(base, chain_id, front);
        let before = pack_of(base, chain_id, front);
        lemma_layer_holds_more(before.created, before.spent, before.included, tx);
    }
}

/// Every transaction of a batch is looked at, in the order of the batch: where it applies on top
/// of what the packed transactions before it have left of the unspent outputs it is packed next,
/// and what its inputs hold beyond its outputs is added to the fees; where it does not apply it is
/// left out, and nothing changes. Nothing is packed of an empty batch.
pub proof fn every_transaction_that_applies_is_packed(
    base: Map<OutPoint, TxOut>,
    chain_id: Seq<char>,
    batch: Seq<TransactionView>,
    i: int,
    left: Map<OutPoint, TxOut>,
)
    requires
        0 <= i < batch.len(),
        forall|k: int| 0 <= k < batch.len() ==> (#[trigger] batch[k]).outputs.len() <= u32::MAX,
        forall|o: OutPoint| #[trigger]
            left.get(o) == unspent_after(
                base,
                pack_of(base, chain_id, batch.take(i)).included,
                o,
            ),
    ensures
        ({
            let before = pack_of(base, chain_id, batch.take(i));
            let after = pack_of(base, chain_id, batch.take(i + 1));
            &&& transaction_outcome(left, batch[i], chain_id) is Ok ==> {
                &&& after.included == before.included.push(batch[i])
                &&& after.fees + outputs_total(batch[i].outputs) == before.fees + pairs_total(
                    consumed_outputs(left, batch[i]),
                )
            }
            &&& transaction_outcome(left, batch[i], chain_id) is Err ==> {
                &&& after.included == before.included
                &&& after.fees == before.fees
            }
        }),
        pack_of(base, chain_id, Seq::empty()).included == Seq::<TransactionView>::empty(),
        pack_of(base, chain_id, Seq::empty()).fees == 0,
{
    let shorter = batch.take(i);
    let longer = batch.take(i + 1);
    let before = pack_of(base, chain_id, shorter);
    assert(longer.drop_last() =~= shorter);
    assert(longer.last() == batch[i]);
    assert forall|k: int| 0 <= k < shorter.len() implies (#[trigger] shorter[k]).outputs.len()
        <= u32::MAX by {
        assert(shorter[k] == batch[k]);
    }
    lemma_pack_holds(base, chain_id, shorter);
    lemma_layer_shows(base, before.created, before.spent, before.included);
    let seen = crate::state::seen_through(base, before.created, before.spent);
    assert forall|o: OutPoint| #[trigger] seen.get(o) == left.get(o) by {}
    lemma_same_gets(seen, left);
    if transaction_outcome(left, batch[i], chain_id) is Ok {
        accepted_transaction_conserves_value(left, batch[i], chain_id);
    }
    let none = Seq::<TransactionView>::empty();
    assert(pack_of(base, chain_id, none).included =~= none);
}

/// A batch whose transactions all apply, one after the other, is packed whole, and its fees are
/// what its transactions consume beyond what they pay out.
pub proof fn batch_that_applies_is_packed_whole(
    base: Map<OutPoint, TxOut>,
    chain_id: Seq<char>,
    batch: Seq<TransactionView>,
)
    requires
        layer_of(base, chain_id, batch) is Ok,
    ensures
        pack_of(base, chain_id, batch).included == batch,
        pack_of(base, chain_id, batch).fees == layer_of(base, chain_id, batch)->Ok_0.fees,
        pack_of(base, chain_id, batch).created == layer_of(base, chain_id, batch)->Ok_0.created,
        pack_of(base, chain_id, batch).spent == layer_of(base, chain_id, batch)->Ok_0.spent,
    decreases batch.len(),
{
    if batch.len() == 0 {
        assert(pack_of(base, chain_id, batch).included =~= batch);
    } else {
        batch_that_applies_is_packed_whole(base, chain_id, batch.drop_last());
        assert(batch.drop_last().push(batch.last()) =~= batch);
    }
}

/// What is packed is taken from the batch, in the batch's order, and nothing is packed twice.
pub proof fn packed_transactions_are_from_the_batch(
    base: Map<OutPoint, TxOut>,
    chain_id: Seq<char>,
    batch: Seq<TransactionView>,
) -> (places: Seq<int>)
    ensures
        places.len() == pack_of(base, chain_id, batch).included.len(),
        forall|k: int|
            0 <= k < places.len() ==> 0 <= #[trigger] places[k] < batch.len() && batch[places[k]]
                == pack_of(base, chain_id, batch).included[k],
        forall|k: int, l: int|
            0 <= k < l < places.len() ==> #[trigger] places[k] < #[trigger] places[l],
    decreases batch.len(),
{
    if batch.len() == 0 {
        Seq::empty()
    } else {
        let front = packed_transactions_are_from_the_batch(base, chain_id, batch.drop_last());
        let before = pack_of(base, chain_id, batch.drop_last());
        if pack_of(base, chain_id, batch).included.len() == before.included.len() {
            front
        } else {
            front.push(batch.len() - 1)
        }
    }
}

/// A candidate holds what was packed behind its coinbase, which states its height and the extra
/// nonce and pays the subsidy of the height and all the fees to the miner, as far as an amount can
/// hold them. It names the tip as its parent, has the next height, the time it was made at, the
/// target that its height requires, and the root of its transactions.
pub proof fn candidate_holds_what_was_packed(
    ledger: Ledger,
    genesis: GenesisView,
    batch: Seq<TransactionView>,
    miner: Address,
    extra_nonce: u64,
    now: u64,
)
    requires
        ledger.latest is Some,
        ledger.latest->0 < u64::MAX,
    ensures
        ({
            let candidate = candidate_of(ledger, genesis, batch, miner, extra_nonce, now);
            let coinbase = candidate.transactions[0];
            let tag = coinbase.inputs[0].signature@;
            let pack = pack_of(ledger.utxos, genesis.chain_id, batch);
            let reward = pack.fees + subsidy(
                candidate.header.height as nat,
                genesis.subsidy_schedule,
                genesis.subsidy_period_blocks as nat,
            );
            &&& candidate.header.height == ledger.latest->0 + 1
            &&& candidate.header.parent_hash == ledger.blocks[ledger.latest->0].hash()
            &&& candidate.header.timestamp == now
            &&& candidate.header.target == required_target(
                ledger,
                genesis,
                candidate.header.height,
            )
            &&& candidate.header.tx_root == merkle_root(ids(candidate.transactions))
            &&& candidate.transactions.skip(1) == pack.included
            &&& coinbase.is_coinbase()
            &&& coinbase.chain_id == genesis.chain_id
            &&& tag.take(8) == le_bytes(candidate.header.height as nat, 8)
            &&& tag.subrange(8, 16) == le_bytes(extra_nonce as nat, 8)
            &&& coinbase.outputs.len() == 1
            &&& coinbase.outputs[0].pubkey_hash == miner
            &&& reward <= u128::MAX ==> coinbase.outputs[0].amount == reward
            &&& reward > u128::MAX ==> coinbase.outputs[0].amount == u128::MAX
        }),
{
    let candidate = candidate_of(ledger, genesis, batch, miner, extra_nonce, now);
    let pack = pack_of(ledger.utxos, genesis.chain_id, batch);
    assert(candidate.transactions.skip(1) =~= pack.included);
    let height = candidate.header.height;
    let input = crate::types::coinbase_input(height, extra_nonce);
    assert(candidate.transactions[0].inputs[0] == input);
    lemma_coinbase_signature(height, extra_nonce);
    lemma_le_bytes_len(height as nat, 8);
    lemma_le_bytes_len(extra_nonce as nat, 8);
    assert(input.signature@.take(8) =~= le_bytes(height as nat, 8));
    assert(input.signature@.subrange(8, 16) =~= le_bytes(extra_nonce as nat, 8));
}

/// A candidate for a batch whose transactions all apply, one after the other, holds the whole
/// batch, and its coinbase pays out all that the batch leaves.
pub proof fn candidate_holds_the_batch(
    ledger: Ledger,
    genesis: GenesisView,
    batch: Seq<TransactionView>,
    miner: Address,
    extra_nonce: u64,
    now: u64,
)
    requires
        ledger.latest is Some,
        ledger.latest->0 < u64::MAX,
        layer_of(ledger.utxos, genesis.chain_id, batch) is Ok,
    ensures
        ({
            let candidate = candidate_of(ledger, genesis, batch, miner, extra_nonce, now);
            let reward = subsidy(
                (ledger.latest->0 + 1) as nat,
                genesis.subsidy_schedule,
                genesis.subsidy_period_blocks as nat,
            ) + layer_of(ledger.utxos, genesis.chain_id, batch)->Ok_0.fees;
            &&& candidate.transactions.skip(1) == batch
            &&& reward <= u128::MAX ==> candidate.transactions[0].outputs[0].amount == reward
        }),
{
    batch_that_applies_is_packed_whole(ledger.utxos, genesis.chain_id, batch);
    candidate_holds_what_was_packed(ledger, genesis, batch, miner, extra_nonce, now);
}

/// A candidate whose nonce has been found extends the chain it was made for, whatever waited in
/// the pool, as long as the reward can be paid out.
pub proof fn mined_candidate_extends_the_chain(
    ledger: Ledger,
    genesis: GenesisView,
    batch: Seq<TransactionView>,
    miner: Address,
    extra_nonce: u64,
    now: u64,
    nonce: u64,
)
    requires
        ledger.latest is Some,
        ledger.latest->0 < u64::MAX,
        subsidy(
            (ledger.latest->0 + 1) as nat,
            genesis.subsidy_schedule,
            genesis.subsidy_period_blocks as nat,
        ) + pack_of(ledger.utxos, genesis.chain_id, batch).fees <= u128::MAX,
        has_work(
            with_nonce(
                candidate_of(ledger, genesis, batch, miner, extra_nonce, now).header,
                nonce,
            ),
        ),
    ensures
        ({
            let candidate = candidate_of(ledger, genesis, batch, miner, extra_nonce, now);
            let block = BlockView { header: with_nonce(candidate.header, nonce), ..candidate };
            tip_outcome(ledger, genesis, block) is Ok
        }),
{
    let candidate = candidate_of(ledger, genesis, batch, miner, extra_nonce, now);
    let block = BlockView { header: with_nonce(candidate.header, nonce), ..candidate };
    let pack = pack_of(ledger.utxos, genesis.chain_id, batch);
    let txs = block.transactions;
    lemma_pack_is_a_layer(ledger.utxos, genesis.chain_id, batch);
    assert(txs.skip(1) =~= pack.included);
    let coinbase = txs[0];
    let input = crate::types::coinbase_input(block.header.height, extra_nonce);
    assert(coinbase.inputs[0] == input);
    lemma_coinbase_signature(block.header.height, extra_nonce);
    lemma_stated_height(block.header.height, extra_nonce, input.signature);
    assert(coinbase.is_coinbase());
    let outputs = coinbase.outputs;
    assert(outputs.drop_last() =~= Seq::<TxOut>::empty());
    assert(outputs_total(outputs.drop_last()) == 0);
    assert(outputs_total(outputs) == outputs[0].amount as nat);
}

/// A coinbase's signature field holds its tag.
proof fn lemma_coinbase_signature(height: u64, extra_nonce: u64)
    ensures
        crate::types::coinbase_input(height, extra_nonce).signature@ == coinbase_tag(
            height,
            extra_nonce,
        ),
{
    let tag = coinbase_tag(height, extra_nonce);
    lemma_le_bytes_len(height as nat, 8);
    lemma_le_bytes_len(extra_nonce as nat, 8);
    let witness: [u8; 64] = [
        tag[0], tag[1], tag[2], tag[3], tag[4], tag[5], tag[6], tag[7],
        tag[8], tag[9], tag[10], tag[11], tag[12], tag[13], tag[14], tag[15],
        tag[16], tag[17], tag[18], tag[19], tag[20], tag[21], tag[22], tag[23],
        tag[24], tag[25], tag[26], tag[27], tag[28], tag[29], tag[30], tag[31],
        tag[32], tag[33], tag[34], tag[35], tag[36], tag[37], tag[38], tag[39],
        tag[40], tag[41], tag[42], tag[43], tag[44], tag[45], tag[46], tag[47],
        tag[48], tag[49], tag[50], tag[51], tag[52], tag[53], tag[54], tag[55],
        tag[56], tag[57], tag[58], tag[59], tag[60], tag[61], tag[62], tag[63],
    ];
    assert(witness@ =~= tag);
}

/// A ledger with nothing in it.
pub open spec fn empty_ledger() -> Ledger {
    Ledger {
        utxos: Map::empty(),
        blocks: Map::empty(),
        heights: Map::empty(),
        latest: None,
        undo: Map::empty(),
        tx_heights: Map::empty(),
    }
}

/// On an empty ledger the first block makes a chain of one block.
pub proof fn first_block_makes_a_chain(genesis: GenesisView)
    ensures
        bootstrapped(empty_ledger(), genesis).chained(),
        bootstrapped(empty_ledger(), genesis).latest == Some(0u64),
        bootstrapped(empty_ledger(), genesis).tip() == genesis_block(genesis),
{
    let txs = genesis_transactions(genesis);
    if txs.len() > 0 {
        assert(txs.drop_last() =~= Seq::<TransactionView>::empty());
        assert(crate::chain::input_count(txs.drop_last()) == 0);
    }
}

/// The first block has height zero, a parent of zeros, and the time and the target that the
/// parameters give, and its header commits to its transactions. On an empty ledger it leaves
/// exactly the premine: each share under the number at which it is listed, for its address, and
/// nothing else.
pub proof fn first_block_pays_out_the_premine(genesis: GenesisView, o: OutPoint)
    requires
        genesis.premine.len() <= u32::MAX,
    ensures
        ({
            let ledger = bootstrapped(empty_ledger(), genesis);
            let block = ledger.blocks[0];
            &&& block.header.height == 0
            &&& block.header.parent_hash@ == Seq::new(32, |i: int| 0u8)
            &&& block.header.timestamp == genesis.genesis_time_unix
            &&& block.header.target == genesis.initial_target
            &&& block.header.pow_nonce == 0
            &&& block.header.tx_root == merkle_root(ids(block.transactions))
            &&& ledger.heights.get(block.hash()) == Some(0u64)
            &&& block.transactions.len() == if genesis.premine.len() == 0 {
                0nat
            } else {
                1nat
            }
            &&& genesis.premine.len() > 0 && o.txid == block.transactions[0].id() && o.vout
                < genesis.premine.len() ==> ledger.utxos.get(o) == Some(
                TxOut {
                    amount: genesis.premine[o.vout as int].1,
                    pubkey_hash: genesis.premine[o.vout as int].0,
                },
            )
            &&& genesis.premine.len() == 0 || o.txid != block.transactions[0].id() || o.vout
                >= genesis.premine.len() ==> !ledger.utxos.contains_key(o)
        }),
{
    let ledger = bootstrapped(empty_ledger(), genesis);
    let zeros: [u8; 32] = [
        0, 0, 0, 0, 0, 0, 0, 0, 0, 0, 0, 0, 0, 0, 0, 0, 0, 0, 0, 0, 0, 0, 0, 0, 0, 0, 0, 0, 0, 0, 0,
        0,
    ];
    assert(zeros@ =~= Seq::new(32, |i: int| 0u8));
    if genesis.premine.len() > 0 {
        let tx = ledger.blocks[0].transactions[0];
        lemma_created_get(
            Map::<OutPoint, TxOut>::empty().remove_keys(Seq::<OutPoint>::empty().to_set()),
            tx,
            o,
        );
        assert(creates_output(tx, o) == (o.txid == tx.id() && o.vout < genesis.premine.len()));
    }
}

/// Transactions that are put back into a pool go through admission one after the other, each into
/// the pool that the ones before it have left; what is admitted waits behind what was there.
pub proof fn transactions_are_put_back_in_turn(
    pool: MempoolView,
    utxos: Map<OutPoint, TxOut>,
    txs: Seq<TransactionView>,
    i: int,
)
    requires
        0 <= i < txs.len(),
    ensures
        ({
            let before = requeued(pool, utxos, txs.take(i));
            let after = requeued(pool, utxos, txs.take(i + 1));
            &&& admission(before, utxos, txs[i]) is Ok ==> after.pending == before.pending.push(
                txs[i],
            )
            &&& admission(before, utxos, txs[i]) is Err ==> after.pending == before.pending
            &&& after.chain_id == pool.chain_id
            &&& after.max_size == pool.max_size
        }),
        requeued(pool, utxos, Seq::empty()) == pool,
    decreases i,
{
    assert(txs.take(i + 1).drop_last() =~= txs.take(i));
    assert(txs.take(i + 1).last() == txs[i]);
    if i > 0 {
        transactions_are_put_back_in_turn(pool, utxos, txs, i - 1);
    }
}

} // verus!
