//! Which blocks extend the chain, and which chain wins.
//!
//! A block is checked in full against the unspent outputs before anything is written. A chain
//! that competes with the local one replaces it if it has more work.

use vstd::prelude::*;

use crate::bytes::{be_at_most, be_value, lemma_be_value_bytes, same_array};
use crate::codec::{block_hash, ids, lemma_block_encodable, merkle_root, tx_root, CodecError};
use crate::collections::{distinct_keys, has_key, inserted, lemma_inserted_other};
use crate::consensus::{
    cumulative_work, has_work, lemma_target_from, lemma_value_of_target, retarget,
    retarget_is_bounded, retarget_is_proportional, retarget_keeps_a_target_on_time, retargeted,
    subsidy, subsidy_for_height, target_from, target_value, total_work, verify_pow, ConsensusError,
    MAX_TARGET,
};
use crate::genesis::{lemma_retargets_by, Genesis, GenesisView};
use crate::kv::KvStore;
use crate::state::{
    accepted_transaction_conserves_value, apply_coinbase, apply_transaction, changed,
    coinbase_outcome, consumed_outputs, created_outputs, layer_holds, lemma_changed_union,
    lemma_empty_layer_holds, lemma_layer_holds_more, lemma_layer_shows, outputs_total, pairs_add_up,
    pairs_total, seen_through, spent_outpoints, transaction_outcome, unspent_after, OverlayStore,
    StateError, StateErrorView, StateStore, StoreView,
};
use crate::storage::{
    creates, is_failure, lemma_block_at, Ledger, RocksStorage, StorageError, StorageErrorView,
};
use crate::types::{
    block_views, transaction_views, Block, BlockView, OutPoint, Transaction, TransactionView, TxOut,
};

verus! {

/// Why a block is refused.
#[derive(Debug, Clone, PartialEq, Eq)]
pub enum BlockError {
    UnexpectedHeight { local: u64, found: u64 },
    ParentMismatch,
    Pow(ConsensusError),
    UnexpectedTarget,
    BadTxRoot,
    MissingCoinbase,
    UnexpectedCoinbase,
    Transaction(StateError),
    Coinbase(StateError),
    Overflow,
    Storage(StorageError),
}

/// [`BlockError`] with its texts as character sequences.
#[verifier::ext_equal]
pub enum BlockErrorView {
    UnexpectedHeight { local: u64, found: u64 },
    ParentMismatch,
    Pow(ConsensusError),
    UnexpectedTarget,
    BadTxRoot,
    MissingCoinbase,
    UnexpectedCoinbase,
    Transaction(StateErrorView),
    Coinbase(StateErrorView),
    Overflow,
    Storage(StorageErrorView),
}

impl View for BlockError {
    type V = BlockErrorView;

    open spec fn view(&self) -> BlockErrorView {
        match self {
            BlockError::UnexpectedHeight { local, found } => BlockErrorView::UnexpectedHeight {
                local: *local,
                found: *found,
            },
            BlockError::ParentMismatch => BlockErrorView::ParentMismatch,
            BlockError::Pow(e) => BlockErrorView::Pow(*e),
            BlockError::UnexpectedTarget => BlockErrorView::UnexpectedTarget,
            BlockError::BadTxRoot => BlockErrorView::BadTxRoot,
            BlockError::MissingCoinbase => BlockErrorView::MissingCoinbase,
            BlockError::UnexpectedCoinbase => BlockErrorView::UnexpectedCoinbase,
            BlockError::Transaction(e) => BlockErrorView::Transaction(e@),
            BlockError::Coinbase(e) => BlockErrorView::Coinbase(e@),
            BlockError::Overflow => BlockErrorView::Overflow,
            BlockError::Storage(e) => BlockErrorView::Storage(e@),
        }
    }
}

/// How many inputs some transactions have.
pub open spec fn input_count(txs: Seq<TransactionView>) -> nat
    decreases txs.len(),
{
    if txs.len() == 0 {
        0
    } else {
        input_count(txs.drop_last()) + txs.last().inputs.len()
    }
}

impl Ledger {
    /// The blocks form a chain from height zero to the latest, and the indices lead to blocks of
    /// it.
    pub open spec fn chained(self) -> bool {
        &&& self.latest is Some
        &&& forall|h: u64| #[trigger] self.blocks.contains_key(h) <==> h <= self.latest->0
        &&& forall|h: u64| #[trigger]
            self.blocks.contains_key(h) ==> self.blocks[h].header.height == h
        &&& forall|x: [u8; 32]| #[trigger]
            self.heights.contains_key(x) ==> self.heights[x] <= self.latest->0
                && self.blocks[self.heights[x]].hash() == x
        &&& forall|x: [u8; 32]| #[trigger]
            self.tx_heights.contains_key(x) ==> self.tx_heights[x] <= self.latest->0 && ids(
                self.blocks[self.tx_heights[x]].transactions,
            ).contains(x)
        &&& forall|h: u64| #[trigger] self.undo.contains_key(h) ==> h <= self.latest->0
        &&& forall|h: u64| #[trigger]
            self.blocks.contains_key(h) ==> input_count(self.blocks[h].transactions) <= u32::MAX
    }

    /// The latest block.
    pub open spec fn tip(self) -> BlockView {
        self.blocks[self.latest->0]
    }
}

/// The time between two timestamps, at least one second.
pub open spec fn elapsed(from: u64, to: u64) -> nat {
    if to > from + 1 {
        (to - from) as nat
    } else {
        1
    }
}

/// The target that the block at a height must have: that of the block before, or at the end of
/// each retargeting period, that target scaled by how long the period took.
pub open spec fn required_target(ledger: Ledger, genesis: GenesisView, height: u64) -> [u8; 32] {
    let interval = genesis.difficulty_adjustment_interval_blocks;
    if height == 0 {
        genesis.initial_target
    } else {
        let parent = ledger.blocks[(height - 1) as u64];
        if interval == 0 || height % interval != 0 {
            parent.header.target
        } else {
            let first = ledger.blocks[(height - interval) as u64];
            target_from(
                retargeted(
                    target_value(parent.header.target),
                    elapsed(first.header.timestamp, parent.header.timestamp),
                    genesis.expected_timespan(),
                ),
            )
        }
    }
}

/// The target that the block at a height must have.
pub fn expected_target<D: KvStore>(
    storage: &RocksStorage<D>,
    genesis: &Genesis,
    height: u64,
) -> (r: Result<[u8; 32], StorageError>)
    requires
        storage.wf(),
        storage.ledger().chained(),
        genesis@.retargets_at(height as int),
        height <= storage.ledger().latest->0 + 1,
    ensures
        match r {
            Ok(target) => target == required_target(storage.ledger(), genesis@, height),
            Err(e) => is_failure(e@, storage.never_fails()),
        },
{
    if height == 0 {
        return Ok(genesis.initial_target);
    }
    let ghost ledger = storage.ledger();
    proof {
        lemma_block_at(storage.kv(), (height - 1) as u64);
        assert(ledger.blocks.contains_key((height - 1) as u64));
    }
    let parent = match storage.get_block(height - 1) {
        Ok(Some(parent)) => parent,
        Ok(None) => return Ok(genesis.initial_target),
        Err(e) => return Err(e),
    };
    let interval: u64 = genesis.difficulty_adjustment_interval_blocks;
    if interval == 0 || height % interval != 0 || height < interval {
        proof {
            if interval != 0 && height % interval == 0 {
                vstd::arithmetic::div_mod::lemma_small_mod(height as nat, interval as nat);
            }
        }
        return Ok(parent.header.target);
    }
    proof {
        lemma_block_at(storage.kv(), (height - interval) as u64);
        assert(ledger.blocks.contains_key((height - interval) as u64));
    }
    let boundary = match storage.get_block(height - interval) {
        Ok(Some(boundary)) => boundary,
        Ok(None) => return Ok(parent.header.target),
        Err(e) => return Err(e),
    };
    let from: u64 = boundary.header.timestamp;
    let to: u64 = parent.header.timestamp;
    let actual_timespan: u64 = if to > from && to - from > 1 {
        to - from
    } else {
        1
    };
    let expected_timespan: u64 = genesis.timespan();
    proof {
        assert(genesis@.target_block_time_secs * interval > 0) by (nonlinear_arith)
            requires
                genesis@.target_block_time_secs > 0,
                interval > 0,
        ;
    }
    let target = retarget(&parent.header.target, actual_timespan, expected_timespan);
    proof {
        lemma_target_from(target);
    }
    Ok(target)
}

/// Between the ends of the retargeting periods the target stays that of the block before, and the
/// first block has the one that the genesis gives.
pub proof fn target_stays_within_a_period(ledger: Ledger, genesis: GenesisView, height: u64)
    ensures
        height == 0 ==> required_target(ledger, genesis, height) == genesis.initial_target,
        height > 0 && (genesis.difficulty_adjustment_interval_blocks == 0 || height
            % genesis.difficulty_adjustment_interval_blocks != 0) ==> required_target(
            ledger,
            genesis,
            height,
        ) == ledger.blocks[(height - 1) as u64].header.target,
{
}

/// At the end of a retargeting period the new target follows from the target of the block before
/// and from the time between the period's first block and that block:
/// - a period that took exactly as long as it should leaves the target as it is, unless that
///   stands above the network's ceiling;
/// - the new target is never above the ceiling nor above four times the old one, and below a
///   fourth of the old one only where the ceiling is;
/// - within these bounds it is to the old target as the time taken, of at least one second, is to
///   the time that the period should have taken, of at most 2^64 - 1 seconds, rounded down.
pub proof fn target_follows_the_parent(ledger: Ledger, genesis: GenesisView, height: u64)
    requires
        height > 0,
        genesis.difficulty_adjustment_interval_blocks > 0,
        height % genesis.difficulty_adjustment_interval_blocks == 0,
        genesis.target_block_time_secs > 0,
    ensures
        ({
            let interval = genesis.difficulty_adjustment_interval_blocks;
            let parent = ledger.blocks[(height - 1) as u64].header;
            let first = ledger.blocks[(height - interval) as u64].header;
            let taken = parent.timestamp - first.timestamp;
            let spent: int = if taken > 1 {
                taken
            } else {
                1
            };
            let wanted = genesis.target_block_time_secs * interval;
            let due: int = if wanted <= u64::MAX {
                wanted
            } else {
                u64::MAX as int
            };
            let old_target = be_value(parent.target@);
            let ceiling = be_value(MAX_TARGET@);
            let new_target = be_value(required_target(ledger, genesis, height)@);
            &&& taken == wanted && old_target <= ceiling ==> required_target(
                ledger,
                genesis,
                height,
            ) == parent.target
            &&& new_target <= ceiling
            &&& new_target <= 4 * old_target
            &&& 4 * new_target + 4 > old_target || new_target == ceiling
            &&& 4 * new_target > old_target ==> new_target * due <= old_target * spent
            &&& new_target < 4 * old_target && new_target < ceiling ==> old_target * spent < (
            new_target + 1) * due
        }),
{
    let interval = genesis.difficulty_adjustment_interval_blocks;
    let parent = ledger.blocks[(height - 1) as u64].header;
    let first = ledger.blocks[(height - interval) as u64].header;
    let wanted = genesis.target_block_time_secs * interval;
    assert(wanted > 0) by (nonlinear_arith)
        requires
            genesis.target_block_time_secs > 0,
            interval > 0,
            wanted == genesis.target_block_time_secs * interval,
    ;
    let prev = target_value(parent.target);
    let actual = elapsed(first.timestamp, parent.timestamp);
    let expected = genesis.expected_timespan();
    let next = retargeted(prev, actual, expected);
    retarget_is_bounded(prev, actual, expected);
    retarget_is_proportional(prev, actual, expected);
    lemma_be_value_bytes(MAX_TARGET@);
    lemma_value_of_target(next);
    if actual == expected && prev <= target_value(MAX_TARGET) {
        retarget_keeps_a_target_on_time(prev, expected);
        lemma_target_from(parent.target);
    }
}

/// The changes of a block's regular transactions so far.
#[verifier::ext_equal]
pub struct Layer {
    pub spent: Set<OutPoint>,
    pub created: Map<OutPoint, TxOut>,
    pub fees: nat,
    pub undo: Seq<(OutPoint, TxOut)>,
}

impl Layer {
    /// No changes.
    pub open spec fn empty() -> Layer {
        Layer { spent: Set::empty(), created: Map::empty(), fees: 0, undo: Seq::empty() }
    }

    /// The unspent outputs seen through the changes.
    pub open spec fn over(self, base: Map<OutPoint, TxOut>) -> Map<OutPoint, TxOut> {
        seen_through(base, self.created, self.spent)
    }

    /// The changes with one more transaction.
    pub open spec fn with(self, base: Map<OutPoint, TxOut>, tx: TransactionView, fee: nat) -> Layer {
        Layer {
            spent: self.spent.union(spent_outpoints(tx).to_set()),
            created: changed(self.created, spent_outpoints(tx), created_outputs(tx)),
            fees: self.fees + fee,
            undo: self.undo + consumed_outputs(self.over(base), tx),
        }
    }
}

/// The changes of a sequence of regular transactions, each on top of those before it, or the
/// first thing wrong with them.
pub open spec fn layer_of(
    base: Map<OutPoint, TxOut>,
    chain_id: Seq<char>,
    txs: Seq<TransactionView>,
) -> Result<Layer, BlockErrorView>
    decreases txs.len(),
{
    if txs.len() == 0 {
        Ok(Layer::empty())
    } else {
        match layer_of(base, chain_id, txs.drop_last()) {
            Err(e) => Err(e),
            Ok(layer) => match transaction_outcome(layer.over(base), txs.last(), chain_id) {
                Err(e) => Err(BlockErrorView::Transaction(e)),
                Ok(applied) => if layer.fees + applied.fee > u128::MAX {
                    Err(BlockErrorView::Overflow)
                } else {
                    Ok(layer.with(base, txs.last(), applied.fee))
                },
            },
        }
    }
}

/// Regular transactions that apply one after the other show what is left after them, whatever
/// they spend of each other, and what they consumed is what they created plus the fees.
pub proof fn layer_shows_what_is_left(
    base: Map<OutPoint, TxOut>,
    chain_id: Seq<char>,
    txs: Seq<TransactionView>,
)
    requires
        layer_of(base, chain_id, txs) is Ok,
        forall|i: int| 0 <= i < txs.len() ==> (#[trigger] txs[i]).outputs.len() <= u32::MAX,
    ensures
        ({
            let layer = layer_of(base, chain_id, txs)->Ok_0;
            &&& layer_holds(layer.created, layer.spent, txs)
            &&& forall|o: OutPoint| #[trigger] layer.over(base).get(o) == unspent_after(base, txs, o)
            &&& pairs_total(layer.undo) == layer.fees + regular_outputs(txs)
        }),
    decreases txs.len(),
{
    let layer = layer_of(base, chain_id, txs)->Ok_0;
    if txs.len() == 0 {
        assert(txs =~= Seq::empty());
        lemma_empty_layer_holds();
    } else {
        let front = txs.drop_last();
        let tx = txs.last();
        assert forall|i: int| 0 <= i < front.len() implies (#[trigger] front[i]).outputs.len()
            <= u32::MAX by {
            assert(front[i] == txs[i]);
        }
        assert(txs[txs.len() - 1] == tx);
        layer_shows_what_is_left(base, chain_id, front);
        let before = layer_of(base, chain_id, front)->Ok_0;
        lemma_layer_holds_more(before.created, before.spent, front, tx);
        assert(front.push(tx) =~= txs);
        let seen = before.over(base);
        accepted_transaction_conserves_value(seen, tx, chain_id);
        pairs_add_up(before.undo, consumed_outputs(seen, tx), consumed_outputs(seen, tx)[0]);
    }
    lemma_layer_shows(base, layer.created, layer.spent, txs);
}

/// What some transactions pay out, all together.
pub open spec fn regular_outputs(txs: Seq<TransactionView>) -> nat
    decreases txs.len(),
{
    if txs.len() == 0 {
        0
    } else {
        regular_outputs(txs.drop_last()) + outputs_total(txs.last().outputs)
    }
}

/// What a valid block changes.
#[verifier::ext_equal]
pub struct BlockDiffView {
    pub spent: Set<OutPoint>,
    pub created: Map<OutPoint, TxOut>,
    pub undo: Seq<(OutPoint, TxOut)>,
}

/// What a block's coinbase makes of the changes of its other transactions.
pub open spec fn with_coinbase(
    genesis: GenesisView,
    block: BlockView,
    rest: Result<Layer, BlockErrorView>,
) -> Result<BlockDiffView, BlockErrorView> {
    match rest {
        Err(e) => Err(e),
        Ok(layer) => {
            let height = block.header.height;
            let coinbase = block.transactions[0];
            let allowed = subsidy(
                height as nat,
                genesis.subsidy_schedule,
                genesis.subsidy_period_blocks as nat,
            ) + layer.fees;
            if allowed > u128::MAX {
                Err(BlockErrorView::Overflow)
            } else {
                match coinbase_outcome(coinbase, height, allowed as u128) {
                    Err(e) => Err(BlockErrorView::Coinbase(e)),
                    Ok(_) => Ok(
                        BlockDiffView {
                            spent: layer.spent,
                            created: inserted(layer.created, created_outputs(coinbase)),
                            undo: layer.undo,
                        },
                    ),
                }
            }
        },
    }
}

/// One of the transactions is a coinbase.
pub open spec fn has_coinbase(txs: Seq<TransactionView>) -> bool {
    exists|i: int| 0 <= i < txs.len() && (#[trigger] txs[i]).is_coinbase()
}

/// Whether a block is valid on top of a set of unspent outputs, and what it changes. Judged in
/// this order: its hash meets its target; the target is the required one; the Merkle root is that
/// of its transactions; the first transaction is a coinbase and no other is; each regular
/// transaction applies on top of the ones before it; the coinbase claims no more than the subsidy
/// and the fees.
pub open spec fn block_outcome(
    utxos: Map<OutPoint, TxOut>,
    genesis: GenesisView,
    block: BlockView,
    target: [u8; 32],
) -> Result<BlockDiffView, BlockErrorView> {
    if !has_work(block.header) {
        Err(BlockErrorView::Pow(ConsensusError::InsufficientWork))
    } else if block.header.target != target {
        Err(BlockErrorView::UnexpectedTarget)
    } else if merkle_root(ids(block.transactions)) != block.header.tx_root {
        Err(BlockErrorView::BadTxRoot)
    } else if block.transactions.len() == 0 || !block.transactions[0].is_coinbase() {
        Err(BlockErrorView::MissingCoinbase)
    } else if has_coinbase(block.transactions.skip(1)) {
        Err(BlockErrorView::UnexpectedCoinbase)
    } else {
        with_coinbase(
            genesis,
            block,
            layer_of(utxos, genesis.chain_id, block.transactions.skip(1)),
        )
    }
}

/// What a valid block changes: the outputs it spends, those it creates, and what it takes to undo
/// it.
pub type BlockDiff = (Vec<OutPoint>, Vec<(OutPoint, TxOut)>, Vec<(OutPoint, TxOut)>);

/// `diff` says what `view` says.
pub open spec fn diff_is(diff: BlockDiff, view: BlockDiffView) -> bool {
    &&& diff.0@.no_duplicates()
    &&& diff.0@.to_set() == view.spent
    &&& distinct_keys(diff.1@)
    &&& inserted(Map::<OutPoint, TxOut>::empty(), diff.1@) == view.created
    &&& diff.2@ == view.undo
}

/// The first transactions that fail make the whole fail as they do.
proof fn lemma_layer_of_err(
    base: Map<OutPoint, TxOut>,
    chain_id: Seq<char>,
    txs: Seq<TransactionView>,
    n: int,
)
    requires
        0 <= n <= txs.len(),
        layer_of(base, chain_id, txs.take(n)) is Err,
    ensures
        layer_of(base, chain_id, txs) == layer_of(base, chain_id, txs.take(n)),
    decreases txs.len() - n,
{
    if n == txs.len() {
        assert(txs.take(n) =~= txs);
    } else {
        assert(txs.take(n + 1).drop_last() =~= txs.take(n));
        lemma_layer_of_err(base, chain_id, txs, n + 1);
    }
}

/// Whether a transaction after the first is a coinbase.
fn coinbase_after_first(txs: &Vec<Transaction>) -> (r: bool)
    requires
        txs@.len() > 0,
    ensures
        r == has_coinbase(transaction_views(txs@).skip(1)),
{
    let ghost rest = transaction_views(txs@).skip(1);
    let mut i: usize = 1;
    while i < txs.len()
        invariant
            1 <= i <= txs@.len(),
            rest == transaction_views(txs@).skip(1),
            forall|j: int| 0 <= j < i - 1 ==> !(#[trigger] rest[j]).is_coinbase(),
        decreases txs.len() - i,
    {
        assert(rest[i - 1] == txs@[i as int]@);
        if txs[i].is_coinbase() {
            return true;
        }
        i += 1;
    }
    false
}

/// Checks a block in full against a store, without changing it, and gives what it changes. Height
/// and parent are for the caller to check.
pub fn validate_full_block<S: StateStore>(
    base: &S,
    genesis: &Genesis,
    block: &Block,
    expected_target: [u8; 32],
) -> (r: Result<BlockDiff, BlockError>)
    requires
        base.wf(),
        genesis@.emits(),
        block@.encodable(),
    ensures
        match block_outcome(base.contents().utxos(), genesis@, block@, expected_target) {
            Ok(view) => r is Ok && diff_is(r->Ok_0, view),
            Err(e) => r is Err && r->Err_0@ == e,
        },
{
    let ghost utxos = base.contents().utxos();
    let ghost views = block@.transactions;
    proof {
        lemma_block_encodable(block@);
        assert(views == transaction_views(block.transactions@));
        assert forall|i: int| 0 <= i < block.transactions@.len() implies (
        #[trigger] block.transactions@[i])@.encodable() by {
            assert(views[i] == block.transactions@[i]@);
        }
    }
    if let Err(e) = verify_pow(&block.header) {
        return Err(BlockError::Pow(e));
    }
    if !same_array(&block.header.target, &expected_target) {
        return Err(BlockError::UnexpectedTarget);
    }
    let root = tx_root(block.transactions.as_slice());
    if !same_array(&root, &block.header.tx_root) {
        return Err(BlockError::BadTxRoot);
    }
    if block.transactions.len() == 0 {
        return Err(BlockError::MissingCoinbase);
    }
    assert(views[0] == block.transactions@[0]@);
    if !block.transactions[0].is_coinbase() {
        return Err(BlockError::MissingCoinbase);
    }
    if coinbase_after_first(&block.transactions) {
        return Err(BlockError::UnexpectedCoinbase);
    }
    let ghost rest = views.skip(1);
    let mut overlay = OverlayStore::new(base);
    let mut undo: Vec<(OutPoint, TxOut)> = Vec::new();
    let mut total_fees: u128 = 0;
    let mut i: usize = 1;
    let ghost mut layer = Layer::empty();
    assert(rest.take(0) =~= Seq::<TransactionView>::empty());
    while i < block.transactions.len()
        invariant
            1 <= i <= block.transactions@.len(),
            utxos == base.contents().utxos(),
            views == transaction_views(block.transactions@),
            rest == views.skip(1),
            forall|k: int|
                0 <= k < block.transactions@.len() ==> (
                #[trigger] block.transactions@[k])@.encodable(),
            block_outcome(utxos, genesis@, block@, expected_target) == with_coinbase(
                genesis@,
                block@,
                layer_of(utxos, genesis@.chain_id, rest),
            ),
            overlay.wf(),
            layer_of(utxos, genesis@.chain_id, rest.take(i - 1)) == Ok::<Layer, BlockErrorView>(
                layer,
            ),
            overlay.contents() == (StoreView {
                base: utxos,
                created: layer.created,
                spent: layer.spent,
                layered: true,
                reliable: true,
            }),
            total_fees as nat == layer.fees,
            undo@ == layer.undo,
        decreases block.transactions.len() - i,
    {
        let tx = &block.transactions[i];
        proof {
            let next = rest.take(i as int);
            assert(next.drop_last() =~= rest.take(i - 1));
            assert(rest[i - 1] == tx@);
            assert(next.last() == tx@);
            if layer_of(utxos, genesis@.chain_id, next) is Err {
                lemma_layer_of_err(utxos, genesis@.chain_id, rest, i as int);
            }
        }
        let applied = match apply_transaction(&mut overlay, tx, genesis.chain_id.as_str()) {
            Ok(applied) => applied,
            Err(e) => return Err(BlockError::Transaction(e)),
        };
        let ghost before = layer;
        match total_fees.checked_add(applied.fee) {
            Some(sum) => {
                total_fees = sum;
            },
            None => return Err(BlockError::Overflow),
        }
        let mut consumed = applied.consumed;
        undo.append(&mut consumed);
        proof {
            layer = before.with(utxos, tx@, applied.fee as nat);
        }
        i += 1;
    }
    assert(rest.take(rest.len() as int) =~= rest);
    let subsidy: u128 = subsidy_for_height(
        block.header.height,
        genesis.subsidy_schedule.as_slice(),
        genesis.subsidy_period_blocks,
    );
    let expected_total: u128 = match subsidy.checked_add(total_fees) {
        Some(total) => total,
        None => return Err(BlockError::Overflow),
    };
    match apply_coinbase(
        &mut overlay,
        &block.transactions[0],
        block.header.height,
        expected_total,
    ) {
        Ok(_) => {},
        Err(e) => return Err(BlockError::Coinbase(e)),
    }
    proof {
        let coinbase = views[0];
        let none = Seq::<OutPoint>::empty();
        assert(none.to_set() =~= Set::<OutPoint>::empty());
        assert(layer.created.remove_keys(none.to_set()) =~= layer.created);
        assert(layer.spent.union(none.to_set()) =~= layer.spent);
    }
    let (spent, created) = overlay.into_diff();
    Ok((spent, created, undo))
}

/// The changes of some transactions record one spent output per input.
proof fn lemma_undo_len(base: Map<OutPoint, TxOut>, chain_id: Seq<char>, txs: Seq<TransactionView>)
    requires
        layer_of(base, chain_id, txs) is Ok,
    ensures
        layer_of(base, chain_id, txs)->Ok_0.undo.len() == input_count(txs),
    decreases txs.len(),
{
    if txs.len() > 0 {
        lemma_undo_len(base, chain_id, txs.drop_last());
    }
}

pub(crate) proof fn lemma_input_count_skip(txs: Seq<TransactionView>)
    requires
        txs.len() > 0,
    ensures
        input_count(txs) == txs[0].inputs.len() + input_count(txs.skip(1)),
    decreases txs.len(),
{
    if txs.len() == 1 {
        assert(txs.drop_last() =~= Seq::<TransactionView>::empty());
        assert(txs.skip(1) =~= Seq::<TransactionView>::empty());
    } else {
        lemma_input_count_skip(txs.drop_last());
        assert(txs.drop_last().skip(1) =~= txs.skip(1).drop_last());
    }
}

impl Ledger {
    /// The ledger with a valid block on top.
    pub open spec fn extended(self, block: BlockView, diff: BlockDiffView) -> Ledger {
        let height = block.header.height;
        Ledger {
            utxos: self.utxos.remove_keys(diff.spent).union_prefer_right(diff.created),
            blocks: self.blocks.insert(height, block),
            heights: self.heights.insert(block.hash(), height),
            latest: Some(height),
            undo: self.undo.insert(height, diff.undo),
            tx_heights: inserted(
                self.tx_heights,
                crate::storage::at_height(ids(block.transactions), height),
            ),
        }
    }
}

/// Whether a block extends the chain, and what it changes: it must be the next in height, name
/// the latest block as its parent, and be valid with the target that its height requires.
pub open spec fn tip_outcome(ledger: Ledger, genesis: GenesisView, block: BlockView) -> Result<
    BlockDiffView,
    BlockErrorView,
> {
    let local = ledger.latest->0;
    if block.header.height != local + 1 {
        Err(BlockErrorView::UnexpectedHeight { local, found: block.header.height })
    } else if block.header.parent_hash != ledger.tip().hash() {
        Err(BlockErrorView::ParentMismatch)
    } else {
        block_outcome(
            ledger.utxos,
            genesis,
            block,
            required_target(ledger, genesis, block.header.height),
        )
    }
}

/// A valid block on top of a chain makes a chain.
pub proof fn lemma_extended_is_chained(ledger: Ledger, block: BlockView, diff: BlockDiffView)
    requires
        ledger.chained(),
        block.header.height == ledger.latest->0 + 1,
        input_count(block.transactions) <= u32::MAX,
    ensures
        ledger.extended(block, diff).chained(),
{
    let next = ledger.extended(block, diff);
    let height = block.header.height;
    let list = ids(block.transactions);
    let pairs = crate::storage::at_height(list, height);
    assert forall|x: [u8; 32]| #[trigger] next.tx_heights.contains_key(x) implies next.tx_heights[x]
        <= height && ids(next.blocks[next.tx_heights[x]].transactions).contains(x) by {
        if has_key(pairs, x) {
            let i = choose|i: int| 0 <= i < pairs.len() && (#[trigger] pairs[i]).0 == x;
            assert(list[i] == x);
            lemma_indexed_height(ledger.tx_heights, list, height, x);
        } else {
            lemma_inserted_other(ledger.tx_heights, pairs, x);
            assert(next.tx_heights.get(x) == ledger.tx_heights.get(x));
            assert(ledger.tx_heights.contains_key(x));
        }
    }
    assert forall|x: [u8; 32]| #[trigger] next.heights.contains_key(x) implies next.heights[x]
        <= height && next.blocks[next.heights[x]].hash() == x by {
        if x != block.hash() {
            assert(ledger.heights.contains_key(x));
        }
    }
}

/// An id that has just been indexed is indexed under the new height.
pub(crate) proof fn lemma_indexed_height(
    m: Map<[u8; 32], u64>,
    list: Seq<[u8; 32]>,
    height: u64,
    x: [u8; 32],
)
    requires
        has_key(crate::storage::at_height(list, height), x),
    ensures
        inserted(m, crate::storage::at_height(list, height)).contains_key(x),
        inserted(m, crate::storage::at_height(list, height))[x] == height,
    decreases list.len(),
{
    let pairs = crate::storage::at_height(list, height);
    let i = choose|i: int| 0 <= i < pairs.len() && (#[trigger] pairs[i]).0 == x;
    if list.last() != x {
        let front = list.drop_last();
        assert(pairs.drop_last() =~= crate::storage::at_height(front, height));
        assert(pairs.drop_last()[i].0 == x);
        lemma_indexed_height(m, front, height, x);
    }
}

/// Undoing the latest block of a chain, not the first, leaves a chain.
pub proof fn lemma_undone_is_chained(ledger: Ledger)
    requires
        ledger.chained(),
        ledger.latest->0 > 0,
    ensures
        ledger.undone().chained(),
        ledger.undone().latest == Some((ledger.latest->0 - 1) as u64),
        forall|h: u64|
            h < ledger.latest->0 ==> #[trigger] ledger.undone().blocks[h] == ledger.blocks[h],
{
    let height = ledger.latest->0;
    let block = ledger.blocks[height];
    let prev = ledger.undone();
    assert(ledger.blocks.contains_key(height));
    assert forall|x: [u8; 32]| #[trigger] prev.heights.contains_key(x) implies prev.heights[x]
        <= height - 1 && prev.blocks[prev.heights[x]].hash() == x by {
        assert(ledger.heights.contains_key(x));
    }
    assert forall|x: [u8; 32]| #[trigger] prev.tx_heights.contains_key(x) implies prev.tx_heights[x]
        <= height - 1 && ids(prev.blocks[prev.tx_heights[x]].transactions).contains(x) by {
        assert(ledger.tx_heights.contains_key(x));
        if ledger.tx_heights[x] == height {
            assert(ids(block.transactions).to_set().contains(x));
        }
    }
}

/// Extends the chain with a block, if the block is the very next one. Competing chains are
/// another function's concern.
pub fn commit_new_tip<D: KvStore>(
    storage: &mut RocksStorage<D>,
    genesis: &Genesis,
    block: &Block,
) -> (r: Result<(), BlockError>)
    requires
        old(storage).wf(),
        old(storage).ledger().chained(),
        old(storage).ledger().latest->0 < u64::MAX,
        genesis@.emits(),
        genesis@.retargets_at(old(storage).ledger().latest->0 + 1),
        block@.encodable(),
        input_count(block@.transactions) <= u32::MAX,
    ensures
        final(storage).wf(),
        final(storage).never_fails() == old(storage).never_fails(),
        final(storage).ledger().chained(),
        ({
            let outcome = tip_outcome(old(storage).ledger(), genesis@, block@);
            match r {
                Ok(_) => outcome is Ok && final(storage).ledger() == old(storage).ledger().extended(
                    block@,
                    outcome->Ok_0,
                ),
                Err(e) => {
                    &&& final(storage).kv() == old(storage).kv()
                    &&& outcome == Err::<BlockDiffView, BlockErrorView>(e@) || (
                    e@ matches BlockErrorView::Storage(f) && is_failure(
                        f,
                        old(storage).never_fails(),
                    ))
                },
            }
        }),
{
    let ghost ledger = storage.ledger();
    let local_height: u64 = match storage.latest_height() {
        Ok(Some(height)) => height,
        Ok(None) => 0,
        Err(e) => return Err(BlockError::Storage(e)),
    };
    if block.header.height != local_height + 1 {
        return Err(
            BlockError::UnexpectedHeight { local: local_height, found: block.header.height },
        );
    }
    proof {
        assert(ledger.blocks.contains_key(local_height));
        lemma_block_at(storage.kv(), local_height);
    }
    let local_tip = match storage.get_block(local_height) {
        Ok(Some(tip)) => tip,
        Ok(None) => return Err(BlockError::ParentMismatch),
        Err(e) => return Err(BlockError::Storage(e)),
    };
    let tip_hash = block_hash(&local_tip);
    if !same_array(&block.header.parent_hash, &tip_hash) {
        return Err(BlockError::ParentMismatch);
    }
    let target = match expected_target(storage, genesis, block.header.height) {
        Ok(target) => target,
        Err(e) => return Err(BlockError::Storage(e)),
    };
    let (spent, created, undo) = match validate_full_block(storage, genesis, block, target) {
        Ok(diff) => diff,
        Err(e) => return Err(e),
    };
    proof {
        let outcome = tip_outcome(ledger, genesis@, block@);
        let diff = outcome->Ok_0;
        let rest = block@.transactions.skip(1);
        lemma_undo_len(ledger.utxos, genesis@.chain_id, rest);
        lemma_input_count_skip(block@.transactions);
        lemma_changed_union(ledger.utxos, spent@, created@);
        assert(ledger.committed(block@, spent@, created@, undo@) =~= ledger.extended(block@, diff));
        lemma_extended_is_chained(ledger, block@, diff);
    }
    match storage.commit_block(block, spent, created, undo) {
        Ok(_) => Ok(()),
        Err(e) => Err(BlockError::Storage(e)),
    }
}

/// A ledger with its latest `n` blocks undone, one after the other.
pub open spec fn undone_by(ledger: Ledger, n: nat) -> Ledger
    decreases n,
{
    if n == 0 {
        ledger
    } else {
        undone_by(ledger, (n - 1) as nat).undone()
    }
}

/// A ledger with every block above a height undone.
pub open spec fn undone_to(ledger: Ledger, height: u64) -> Ledger {
    undone_by(ledger, (ledger.latest->0 - height) as nat)
}

/// What extending a chain with blocks, one after the other, gives: the ledger reached, and the
/// error that stopped it, if any.
pub open spec fn extended_by(ledger: Ledger, genesis: GenesisView, blocks: Seq<BlockView>) -> (
    Ledger,
    Option<BlockErrorView>,
)
    decreases blocks.len(),
{
    if blocks.len() == 0 {
        (ledger, None)
    } else {
        let (reached, error) = extended_by(ledger, genesis, blocks.drop_last());
        if error is Some {
            (reached, error)
        } else {
            match tip_outcome(reached, genesis, blocks.last()) {
                Err(e) => (reached, Some(e)),
                Ok(diff) => (reached.extended(blocks.last(), diff), None),
            }
        }
    }
}

/// The blocks of a ledger above a height.
pub open spec fn blocks_above(ledger: Ledger, height: u64) -> Seq<BlockView> {
    Seq::new(
        (ledger.latest->0 - height) as nat,
        |i: int| ledger.blocks[(height + 1 + i) as u64],
    )
}

/// The targets of some blocks.
pub open spec fn targets_of(blocks: Seq<BlockView>) -> Seq<[u8; 32]> {
    blocks.map_values(|b: BlockView| b.header.target)
}

/// Whether a candidate beats the local chain above a height: more work wins; with equal work, the
/// smaller hash of the last block wins.
pub open spec fn candidate_wins(ledger: Ledger, height: u64, candidate: Seq<BlockView>) -> bool {
    let local = total_work(targets_of(blocks_above(ledger, height)));
    let other = total_work(targets_of(candidate));
    other > local || (other == local && be_value(candidate.last().hash()@) < be_value(
        ledger.tip().hash()@,
    ))
}

/// What trying to replace the chain above a height by a candidate gives.
pub open spec fn reorg_outcome(
    ledger: Ledger,
    genesis: GenesisView,
    height: u64,
    candidate: Seq<BlockView>,
) -> (Ledger, Result<bool, BlockErrorView>) {
    if !candidate_wins(ledger, height, candidate) {
        (ledger, Ok(false))
    } else {
        let (reached, error) = extended_by(undone_to(ledger, height), genesis, candidate);
        match error {
            None => (reached, Ok(true)),
            Some(e) => {
                let (restored, _) = extended_by(
                    undone_to(reached, height),
                    genesis,
                    blocks_above(ledger, height),
                );
                (restored, Err(e))
            },
        }
    }
}

/// Undoing some of a chain's latest blocks leaves a chain with the blocks below.
pub proof fn lemma_undone_by(ledger: Ledger, n: nat)
    requires
        ledger.chained(),
        n <= ledger.latest->0,
    ensures
        undone_by(ledger, n).chained(),
        undone_by(ledger, n).latest == Some((ledger.latest->0 - n) as u64),
        forall|h: u64|
            h <= ledger.latest->0 - n ==> #[trigger] undone_by(ledger, n).blocks[h]
                == ledger.blocks[h],
    decreases n,
{
    if n > 0 {
        lemma_undone_by(ledger, (n - 1) as nat);
        let mid = undone_by(ledger, (n - 1) as nat);
        lemma_undone_is_chained(mid);
        assert forall|h: u64| h <= ledger.latest->0 - n implies #[trigger] undone_by(
            ledger,
            n,
        ).blocks[h] == ledger.blocks[h] by {
            assert(mid.undone().blocks[h] == mid.blocks[h]);
        }
    }
}

/// Extending a chain gives a chain, longer by the blocks that were taken.
pub proof fn lemma_extended_by(ledger: Ledger, genesis: GenesisView, blocks: Seq<BlockView>)
    requires
        ledger.chained(),
        forall|i: int|
            0 <= i < blocks.len() ==> input_count((#[trigger] blocks[i]).transactions) <= u32::MAX,
    ensures
        extended_by(ledger, genesis, blocks).0.chained(),
        extended_by(ledger, genesis, blocks).0.latest->0 >= ledger.latest->0,
        extended_by(ledger, genesis, blocks).0.latest->0 <= ledger.latest->0 + blocks.len(),
        extended_by(ledger, genesis, blocks).1 is None ==> extended_by(
            ledger,
            genesis,
            blocks,
        ).0.latest->0 == ledger.latest->0 + blocks.len(),
    decreases blocks.len(),
{
    if blocks.len() > 0 {
        let front = blocks.drop_last();
        assert forall|i: int| 0 <= i < front.len() implies input_count(
            (#[trigger] front[i]).transactions,
        ) <= u32::MAX by {
            assert(front[i] == blocks[i]);
        }
        lemma_extended_by(ledger, genesis, front);
        let (reached, error) = extended_by(ledger, genesis, front);
        if error is None {
            assert(input_count(blocks[blocks.len() - 1].transactions) <= u32::MAX);
            match tip_outcome(reached, genesis, blocks.last()) {
                Err(_) => {},
                Ok(diff) => {
                    lemma_extended_is_chained(reached, blocks.last(), diff);
                },
            }
        }
    }
}

/// An error stops a chain from growing: blocks after it change nothing.
proof fn lemma_extended_by_stops(
    ledger: Ledger,
    genesis: GenesisView,
    blocks: Seq<BlockView>,
    n: int,
)
    requires
        0 <= n <= blocks.len(),
        extended_by(ledger, genesis, blocks.take(n)).1 is Some,
    ensures
        extended_by(ledger, genesis, blocks) == extended_by(ledger, genesis, blocks.take(n)),
    decreases blocks.len() - n,
{
    if n == blocks.len() {
        assert(blocks.take(n) =~= blocks);
    } else {
        assert(blocks.take(n + 1).drop_last() =~= blocks.take(n));
        lemma_extended_by_stops(ledger, genesis, blocks, n + 1);
    }
}

/// The targets of the blocks above a height.
fn local_targets<D: KvStore>(storage: &RocksStorage<D>, fork_height: u64, local_height: u64) -> (r:
    Result<Vec<[u8; 32]>, StorageError>)
    requires
        storage.wf(),
        storage.ledger().chained(),
        storage.ledger().latest == Some(local_height),
        fork_height <= local_height,
    ensures
        match r {
            Ok(list) => list@ == targets_of(blocks_above(storage.ledger(), fork_height)),
            Err(e) => is_failure(e@, storage.never_fails()),
        },
{
    let ghost blocks = blocks_above(storage.ledger(), fork_height);
    let mut list: Vec<[u8; 32]> = Vec::new();
    let mut height: u64 = fork_height;
    while height < local_height
        invariant
            storage.wf(),
            storage.ledger().chained(),
            storage.ledger().latest == Some(local_height),
            fork_height <= height <= local_height,
            blocks == blocks_above(storage.ledger(), fork_height),
            list@.len() == height - fork_height,
            forall|i: int| 0 <= i < list@.len() ==> list@[i] == blocks[i].header.target,
        decreases local_height - height,
    {
        height += 1;
        proof {
            assert(storage.ledger().blocks.contains_key(height));
            lemma_block_at(storage.kv(), height);
            assert(blocks[height - fork_height - 1] == storage.ledger().blocks[height]);
        }
        match storage.get_block(height) {
            Ok(Some(block)) => {
                list.push(block.header.target);
            },
            Ok(None) => {
                let missing = StorageError::Codec(CodecError::Borsh(String::new()));
                return Err(missing);
            },
            Err(e) => return Err(e),
        }
    }
    assert(list@ =~= targets_of(blocks));
    Ok(list)
}

/// Undoes the latest blocks down to a height; gives them back, the latest first.
fn undo_down_to<D: KvStore>(storage: &mut RocksStorage<D>, fork_height: u64) -> (r: Result<
    Vec<Block>,
    StorageError,
>)
    requires
        old(storage).wf(),
        old(storage).ledger().chained(),
        fork_height <= old(storage).ledger().latest->0,
    ensures
        final(storage).wf(),
        final(storage).never_fails() == old(storage).never_fails(),
        final(storage).ledger().chained(),
        match r {
            Ok(list) => {
                let above = blocks_above(old(storage).ledger(), fork_height);
                &&& final(storage).ledger() == undone_to(old(storage).ledger(), fork_height)
                &&& final(storage).ledger().latest == Some(fork_height)
                &&& list@.len() == above.len()
                &&& forall|i: int|
                    0 <= i < list@.len() ==> (#[trigger] list@[i])@ == above[above.len() - 1 - i]
                        && list@[i]@.encodable()
            },
            Err(e) => is_failure(e@, old(storage).never_fails()),
        },
{
    let ghost start = storage.ledger();
    let ghost above = blocks_above(start, fork_height);
    let mut list: Vec<Block> = Vec::new();
    let mut height: u64 = match storage.latest_height() {
        Ok(Some(height)) => height,
        Ok(None) => 0,
        Err(e) => return Err(e),
    };
    let ghost top = height;
    assert(undone_by(start, 0) == start);
    while height > fork_height
        invariant
            fork_height <= height <= top,
            start.chained(),
            start.latest == Some(top),
            above == blocks_above(start, fork_height),
            storage.wf(),
            storage.never_fails() == old(storage).never_fails(),
            storage.ledger() == undone_by(start, (top - height) as nat),
            list@.len() == top - height,
            forall|i: int|
                0 <= i < list@.len() ==> (#[trigger] list@[i])@ == above[above.len() - 1 - i]
                    && list@[i]@.encodable(),
        decreases height - fork_height,
    {
        let ghost n = (top - height) as nat;
        proof {
            lemma_undone_by(start, n);
            lemma_undone_by(start, n + 1);
            lemma_block_at(storage.kv(), height);
            crate::storage::lemma_undo_list_at(storage.kv(), height);
            assert(undone_by(start, n).blocks[height] == start.blocks[height]);
            assert(storage.ledger().blocks.contains_key(height));
            assert(above[above.len() - 1 - n] == start.blocks[height]);
        }
        match storage.undo_latest_block() {
            Ok(block) => {
                list.push(block);
            },
            Err(e) => {
                return Err(e);
            },
        }
        height -= 1;
    }
    proof {
        lemma_undone_by(start, (top - height) as nat);
    }
    Ok(list)
}

/// Extends the chain with blocks in order, stopping at the first that does not apply.
fn commit_chain<D: KvStore>(
    storage: &mut RocksStorage<D>,
    genesis: &Genesis,
    blocks: &Vec<Block>,
) -> (r: Result<(), BlockError>)
    requires
        old(storage).wf(),
        old(storage).ledger().chained(),
        old(storage).ledger().latest->0 + blocks@.len() <= u64::MAX,
        genesis@.emits(),
        genesis@.retargets_by(old(storage).ledger().latest->0 + blocks@.len()),
        forall|i: int|
            0 <= i < blocks@.len() ==> (#[trigger] blocks@[i])@.encodable() && input_count(
                blocks@[i]@.transactions,
            ) <= u32::MAX,
    ensures
        final(storage).wf(),
        final(storage).never_fails() == old(storage).never_fails(),
        final(storage).ledger().chained(),
        final(storage).ledger().latest->0 >= old(storage).ledger().latest->0,
        ({
            let (reached, error) = extended_by(
                old(storage).ledger(),
                genesis@,
                block_views(blocks@),
            );
            match r {
                Ok(_) => final(storage).ledger() == reached && error is None,
                Err(e) => (final(storage).ledger() == reached && error == Some(e@)) || (
                e@ matches BlockErrorView::Storage(f) && is_failure(f, old(storage).never_fails())),
            }
        }),
{
    let ghost start = storage.ledger();
    let ghost views = block_views(blocks@);
    let mut i: usize = 0;
    assert(views.take(0) =~= Seq::<BlockView>::empty());
    while i < blocks.len()
        invariant
            i <= blocks@.len(),
            views == block_views(blocks@),
            start == old(storage).ledger(),
            start.chained(),
            start.latest->0 + blocks@.len() <= u64::MAX,
            genesis@.emits(),
            genesis@.retargets_by(start.latest->0 + blocks@.len()),
            storage.wf(),
            storage.never_fails() == old(storage).never_fails(),
            storage.ledger().chained(),
            storage.ledger().latest->0 >= start.latest->0,
            extended_by(start, genesis@, views.take(i as int)) == (
                storage.ledger(),
                None::<BlockErrorView>,
            ),
            forall|k: int|
                0 <= k < blocks@.len() ==> (#[trigger] blocks@[k])@.encodable() && input_count(
                    blocks@[k]@.transactions,
                ) <= u32::MAX,
        decreases blocks.len() - i,
    {
        proof {
            let done = views.take(i as int);
            let next = views.take(i + 1);
            assert(next.drop_last() =~= done);
            assert(next.last() == blocks@[i as int]@);
            assert forall|k: int| 0 <= k < done.len() implies input_count(
                (#[trigger] done[k]).transactions,
            ) <= u32::MAX by {
                assert(done[k] == blocks@[k]@);
            }
            lemma_extended_by(start, genesis@, done);
            lemma_retargets_by(
                genesis@,
                start.latest->0 + blocks@.len(),
                storage.ledger().latest->0 + 1,
            );
            if extended_by(start, genesis@, next).1 is Some {
                lemma_extended_by_stops(start, genesis@, views, i + 1);
            }
        }
        match commit_new_tip(storage, genesis, &blocks[i]) {
            Ok(_) => {},
            Err(e) => return Err(e),
        }
        i += 1;
    }
    assert(views.take(views.len() as int) =~= views);
    Ok(())
}

/// Whether a candidate beats the local chain above a height.
pub fn candidate_beats_local<D: KvStore>(
    storage: &RocksStorage<D>,
    fork_height: u64,
    candidate_chain: &Vec<Block>,
) -> (r: Result<bool, StorageError>)
    requires
        storage.wf(),
        storage.ledger().chained(),
        fork_height <= storage.ledger().latest->0,
        candidate_chain@.len() > 0,
    ensures
        match r {
            Ok(b) => b == candidate_wins(
                storage.ledger(),
                fork_height,
                block_views(candidate_chain@),
            ),
            Err(e) => is_failure(e@, storage.never_fails()),
        },
{
    let ghost candidate = block_views(candidate_chain@);
    let local_height: u64 = match storage.latest_height() {
        Ok(Some(height)) => height,
        Ok(None) => 0,
        Err(e) => return Err(e),
    };
    let local_list = match local_targets(storage, fork_height, local_height) {
        Ok(list) => list,
        Err(e) => return Err(e),
    };
    let mut candidate_list: Vec<[u8; 32]> = Vec::new();
    let mut i: usize = 0;
    while i < candidate_chain.len()
        invariant
            i <= candidate_chain@.len(),
            candidate_list@.len() == i,
            forall|k: int|
                0 <= k < i ==> candidate_list@[k] == candidate_chain@[k].header.target,
        decreases candidate_chain.len() - i,
    {
        candidate_list.push(candidate_chain[i].header.target);
        i += 1;
    }
    assert(candidate_list@ =~= targets_of(candidate));
    let local_work = cumulative_work(local_list.as_slice());
    let candidate_work = cumulative_work(candidate_list.as_slice());
    if local_work.less_than(&candidate_work) {
        return Ok(true);
    }
    if candidate_work.less_than(&local_work) {
        return Ok(false);
    }
    proof {
        assert(storage.ledger().blocks.contains_key(local_height));
        lemma_block_at(storage.kv(), local_height);
    }
    let local_tip = match storage.get_block(local_height) {
        Ok(Some(tip)) => tip,
        Ok(None) => return Ok(false),
        Err(e) => return Err(e),
    };
    let local_hash = block_hash(&local_tip);
    let candidate_hash = block_hash(&candidate_chain[candidate_chain.len() - 1]);
    assert(candidate.last() == candidate_chain@[candidate_chain@.len() - 1]@);
    Ok(!be_at_most(local_hash.as_slice(), candidate_hash.as_slice()))
}

/// Replaces the local chain above `fork_height`, the height of a block that both chains share, by
/// a candidate chain, if the candidate wins. A candidate that wins but turns out invalid is taken
/// back again and the local chain put back before the error is returned.
pub fn try_reorg_to_chain<D: KvStore>(
    storage: &mut RocksStorage<D>,
    genesis: &Genesis,
    fork_height: u64,
    candidate_chain: Vec<Block>,
) -> (r: Result<bool, BlockError>)
    requires
        old(storage).wf(),
        old(storage).ledger().chained(),
        genesis@.emits(),
        genesis@.retargets_by(old(storage).ledger().latest->0 as int),
        genesis@.retargets_by(fork_height + candidate_chain@.len()),
        fork_height <= old(storage).ledger().latest->0,
        old(storage).ledger().latest->0 + candidate_chain@.len() <= u64::MAX,
        candidate_chain@.len() > 0,
        forall|i: int|
            0 <= i < candidate_chain@.len() ==> (#[trigger] candidate_chain@[i])@.encodable()
                && input_count(candidate_chain@[i]@.transactions) <= u32::MAX,
    ensures
        final(storage).wf(),
        final(storage).never_fails() == old(storage).never_fails(),
        final(storage).ledger().chained(),
        ({
            let (reached, outcome) = reorg_outcome(
                old(storage).ledger(),
                genesis@,
                fork_height,
                block_views(candidate_chain@),
            );
            match r {
                Ok(b) => final(storage).ledger() == reached && outcome == Ok::<
                    bool,
                    BlockErrorView,
                >(b),
                Err(e) => (final(storage).ledger() == reached && outcome == Err::<
                    bool,
                    BlockErrorView,
                >(e@)) || (e@ matches BlockErrorView::Storage(f) && is_failure(
                    f,
                    old(storage).never_fails(),
                )),
            }
        }),
{
    match candidate_beats_local(storage, fork_height, &candidate_chain) {
        Ok(true) => {},
        Ok(false) => return Ok(false),
        Err(e) => return Err(BlockError::Storage(e)),
    }
    let ghost start = storage.ledger();
    let ghost above = blocks_above(start, fork_height);
    let undone = match undo_down_to(storage, fork_height) {
        Ok(list) => list,
        Err(e) => return Err(BlockError::Storage(e)),
    };
    let ghost bottom = storage.ledger();
    proof {
        lemma_countable(candidate_chain@);
        lemma_extended_by(bottom, genesis@, block_views(candidate_chain@));
    }
    let e = match commit_chain(storage, genesis, &candidate_chain) {
        Ok(_) => return Ok(true),
        Err(e) => e,
    };
    let ghost reached = storage.ledger();
    match undo_down_to(storage, fork_height) {
        Ok(_) => {},
        Err(f) => return Err(BlockError::Storage(f)),
    }
    let originals = in_order(undone);
    proof {
        assert(block_views(originals@) =~= above);
        lemma_originals(start, fork_height, originals@);
    }
    match commit_chain(storage, genesis, &originals) {
        Err(BlockError::Storage(f)) => {
            proof {
                lemma_no_storage_error(
                    undone_to(reached, fork_height),
                    genesis@,
                    block_views(originals@),
                );
            }
            Err(BlockError::Storage(f))
        },
        _ => Err(e),
    }
}

/// The views of blocks that fit fit.
proof fn lemma_countable(blocks: Seq<Block>)
    requires
        forall|i: int|
            0 <= i < blocks.len() ==> (#[trigger] blocks[i])@.encodable() && input_count(
                blocks[i]@.transactions,
            ) <= u32::MAX,
    ensures
        forall|i: int|
            0 <= i < block_views(blocks).len() ==> input_count(
                (#[trigger] block_views(blocks)[i]).transactions,
            ) <= u32::MAX,
{
    assert forall|i: int| 0 <= i < block_views(blocks).len() implies input_count(
        (#[trigger] block_views(blocks)[i]).transactions,
    ) <= u32::MAX by {
        assert(block_views(blocks)[i] == blocks[i]@);
    }
}

/// The blocks of a chain can be put back into it.
proof fn lemma_originals(ledger: Ledger, height: u64, originals: Seq<Block>)
    requires
        ledger.chained(),
        height <= ledger.latest->0,
        block_views(originals) == blocks_above(ledger, height),
        forall|i: int| 0 <= i < originals.len() ==> (#[trigger] originals[i])@.encodable(),
    ensures
        forall|i: int|
            0 <= i < originals.len() ==> (#[trigger] originals[i])@.encodable() && input_count(
                originals[i]@.transactions,
            ) <= u32::MAX,
{
    assert(block_views(originals).len() == originals.len());
    assert(originals.len() == ledger.latest->0 - height);
    assert forall|i: int| 0 <= i < originals.len() implies (
    #[trigger] originals[i])@.encodable() && input_count(originals[i]@.transactions)
        <= u32::MAX by {
        assert(originals[i]@ == block_views(originals)[i]);
        assert(blocks_above(ledger, height)[i] == ledger.blocks[(height + 1 + i) as u64]);
        assert(ledger.blocks.contains_key((height + 1 + i) as u64));
    }
}

/// Whether a block is valid has nothing to do with the store failing.
proof fn lemma_no_storage_error(ledger: Ledger, genesis: GenesisView, blocks: Seq<BlockView>)
    ensures
        !(extended_by(ledger, genesis, blocks).1 matches Some(BlockErrorView::Storage(_))),
    decreases blocks.len(),
{
    if blocks.len() > 0 {
        lemma_no_storage_error(ledger, genesis, blocks.drop_last());
        let reached = extended_by(ledger, genesis, blocks.drop_last()).0;
        lemma_layer_of_is_no_storage_error(
            reached.utxos,
            genesis.chain_id,
            blocks.last().transactions.skip(1),
        );
    }
}

proof fn lemma_layer_of_is_no_storage_error(
    base: Map<OutPoint, TxOut>,
    chain_id: Seq<char>,
    txs: Seq<TransactionView>,
)
    ensures
        !(layer_of(base, chain_id, txs) matches Err(BlockErrorView::Storage(_))),
    decreases txs.len(),
{
    if txs.len() > 0 {
        lemma_layer_of_is_no_storage_error(base, chain_id, txs.drop_last());
    }
}

/// A list the other way round.
fn in_order(list: Vec<Block>) -> (r: Vec<Block>)
    ensures
        r@.len() == list@.len(),
        forall|i: int|
            0 <= i < r@.len() ==> (#[trigger] r@[i]) == list@[list@.len() - 1 - i],
{
    let mut rest = list;
    let ghost all = rest@;
    let mut r: Vec<Block> = Vec::new();
    while rest.len() > 0
        invariant
            r@.len() + rest@.len() == all.len(),
            rest@ == all.take(rest@.len() as int),
            forall|i: int|
                0 <= i < r@.len() ==> (#[trigger] r@[i]) == all[all.len() - 1 - i],
        decreases rest.len(),
    {
        let ghost n = rest@.len() as int;
        if let Some(block) = rest.pop() {
            assert(block == all[n - 1]);
            r.push(block);
        }
        assert(rest@ =~= all.take(n - 1));
    }
    r
}

} // verus!
