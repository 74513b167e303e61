//! The rules that a block must keep to become part of the chain, what it does to the ledger, and
//! when a stretch of chain gives way to another.

use vstd::prelude::*;

use crate::bytes::{be_value, le_bytes};
use crate::chain::{
    blocks_above, candidate_wins, extended_by, input_count, layer_of, layer_shows_what_is_left,
    reorg_outcome, required_target, targets_of, tip_outcome, undone_to, BlockErrorView,
};
use crate::codec::{ids, merkle_root};
use crate::consensus::{subsidy, total_work, ConsensusError};
use crate::genesis::GenesisView;
use crate::history::{accepted_transactions_are_indexed, outputs_fit};
use crate::state::{
    any_spends, coinbase_is_accepted_where_it_belongs, coinbase_outcome, creates_output,
    last_created, lemma_created_get, lemma_same_gets, outputs_total, transaction_outcome, unspent_after,
};
use crate::storage::Ledger;
use crate::types::{BlockView, OutPoint, TransactionView, TxOut, COINBASE_PREV_TXID};

verus! {

/// A single input that names no output marks a coinbase.
pub proof fn coinbase_is_marked_by_its_input(tx: TransactionView)
    ensures
        tx.is_coinbase() <==> {
            &&& tx.inputs.len() == 1
            &&& tx.inputs[0].prev_out.txid == COINBASE_PREV_TXID
            &&& tx.inputs[0].prev_out.vout == u32::MAX
        },
{
}

/// Regular transactions apply one after the other exactly if each of them applies on top of what
/// those before it have left, as long as the fees fit into an amount: all of a run that applies
/// do, and a run that applies still does with one more that applies.
pub proof fn regular_transactions_apply_in_turn(
    base: Map<OutPoint, TxOut>,
    chain_id: Seq<char>,
    txs: Seq<TransactionView>,
    i: int,
    left: Map<OutPoint, TxOut>,
)
    requires
        0 <= i < txs.len(),
        outputs_fit(txs),
        layer_of(base, chain_id, txs.take(i)) is Ok,
        forall|o: OutPoint| #[trigger] left.get(o) == unspent_after(base, txs.take(i), o),
    ensures
        layer_of(base, chain_id, Seq::empty()) is Ok,
        layer_of(base, chain_id, Seq::empty())->Ok_0.fees == 0,
        layer_of(base, chain_id, txs.take(i + 1)) is Ok <==> {
            &&& transaction_outcome(left, txs[i], chain_id) is Ok
            &&& layer_of(base, chain_id, txs.take(i))->Ok_0.fees + transaction_outcome(
                left,
                txs[i],
                chain_id,
            )->Ok_0.fee <= u128::MAX
        },
        layer_of(base, chain_id, txs.take(i + 1)) is Ok ==> layer_of(
            base,
            chain_id,
            txs.take(i + 1),
        )->Ok_0.fees == layer_of(base, chain_id, txs.take(i))->Ok_0.fees + transaction_outcome(
            left,
            txs[i],
            chain_id,
        )->Ok_0.fee,
        transaction_outcome(left, txs[i], chain_id) matches Err(e) ==> layer_of(
            base,
            chain_id,
            txs.take(i + 1),
        ) == Err::<crate::chain::Layer, _>(BlockErrorView::Transaction(e)),
{
    let shorter = txs.take(i);
    let longer = txs.take(i + 1);
    assert(longer.drop_last() =~= shorter);
    assert(longer.last() == txs[i]);
    assert forall|k: int| 0 <= k < shorter.len() implies (#[trigger] shorter[k]).outputs.len()
        <= u32::MAX by {
        assert(shorter[k] == txs[k]);
    }
    layer_shows_what_is_left(base, chain_id, shorter);
    let seen = layer_of(base, chain_id, shorter)->Ok_0.over(base);
    assert forall|o: OutPoint| #[trigger] seen.get(o) == left.get(o) by {}
    lemma_same_gets(seen, left);
}

/// A block extends the chain exactly if it keeps all of these rules: it has the next height and
/// names the latest block as its parent; its hash is no higher than its target, and that is the
/// target which its height requires; its header commits to its transactions; the first of them is
/// a coinbase for this height and no other is a coinbase; the others apply, one after the other;
/// and the coinbase pays out no more than the subsidy of the height and the fees.
pub proof fn block_is_accepted_by_the_rules(ledger: Ledger, genesis: GenesisView, block: BlockView)
    requires
        ledger.latest is Some,
    ensures
        tip_outcome(ledger, genesis, block) is Ok <==> {
            let header = block.header;
            let txs = block.transactions;
            let rest = layer_of(ledger.utxos, genesis.chain_id, txs.skip(1));
            let allowed = subsidy(
                header.height as nat,
                genesis.subsidy_schedule,
                genesis.subsidy_period_blocks as nat,
            ) + rest->Ok_0.fees;
            &&& header.height == ledger.latest->0 + 1
            &&& header.parent_hash == ledger.blocks[ledger.latest->0].hash()
            &&& be_value(block.hash()@) <= be_value(header.target@)
            &&& header.target == required_target(ledger, genesis, header.height)
            &&& header.tx_root == merkle_root(ids(txs))
            &&& txs.len() > 0
            &&& txs[0].is_coinbase()
            &&& forall|i: int| 1 <= i < txs.len() ==> !(#[trigger] txs[i]).is_coinbase()
            &&& rest is Ok
            &&& txs[0].inputs[0].signature@.take(8) == le_bytes(header.height as nat, 8)
            &&& allowed <= u128::MAX
            &&& outputs_total(txs[0].outputs) <= allowed
        },
{
    let txs = block.transactions;
    let rest = layer_of(ledger.utxos, genesis.chain_id, txs.skip(1));
    let allowed = subsidy(
        block.header.height as nat,
        genesis.subsidy_schedule,
        genesis.subsidy_period_blocks as nat,
    ) + rest->Ok_0.fees;
    if txs.len() > 0 {
        coinbase_is_accepted_where_it_belongs(txs[0], block.header.height, allowed as u128);
        lemma_only_the_first_is_a_coinbase(txs);
    }
}

/// None but the first of some transactions is a coinbase.
proof fn lemma_only_the_first_is_a_coinbase(txs: Seq<TransactionView>)
    requires
        txs.len() > 0,
    ensures
        crate::chain::has_coinbase(txs.skip(1)) <==> !(forall|i: int|
            1 <= i < txs.len() ==> !(#[trigger] txs[i]).is_coinbase()),
{
    let rest = txs.skip(1);
    if crate::chain::has_coinbase(rest) {
        let i = choose|i: int| 0 <= i < rest.len() && (#[trigger] rest[i]).is_coinbase();
        assert(txs[i + 1].is_coinbase());
    } else {
        assert forall|i: int| 1 <= i < txs.len() implies !(#[trigger] txs[i]).is_coinbase() by {
            assert(rest[i - 1] == txs[i]);
        }
    }
}

/// What is found wrong with a block first, in the order in which it is judged.
pub proof fn first_broken_rule_is_named(ledger: Ledger, genesis: GenesisView, block: BlockView)
    requires
        ledger.latest is Some,
    ensures
        ({
            let header = block.header;
            let txs = block.transactions;
            let outcome = tip_outcome(ledger, genesis, block);
            let placed = header.height == ledger.latest->0 + 1;
            let linked = placed && header.parent_hash == ledger.blocks[ledger.latest->0].hash();
            let worked = linked && be_value(block.hash()@) <= be_value(header.target@);
            let targeted = worked && header.target == required_target(
                ledger,
                genesis,
                header.height,
            );
            let rooted = targeted && header.tx_root == merkle_root(ids(txs));
            let paid = rooted && txs.len() > 0 && txs[0].is_coinbase();
            &&& !placed ==> outcome == Err::<crate::chain::BlockDiffView, _>(
                BlockErrorView::UnexpectedHeight { local: ledger.latest->0, found: header.height },
            )
            &&& placed && !linked ==> outcome == Err::<crate::chain::BlockDiffView, _>(
                BlockErrorView::ParentMismatch,
            )
            &&& linked && !worked ==> outcome == Err::<crate::chain::BlockDiffView, _>(
                BlockErrorView::Pow(ConsensusError::InsufficientWork),
            )
            &&& worked && !targeted ==> outcome == Err::<crate::chain::BlockDiffView, _>(
                BlockErrorView::UnexpectedTarget,
            )
            &&& targeted && !rooted ==> outcome == Err::<crate::chain::BlockDiffView, _>(
                BlockErrorView::BadTxRoot,
            )
            &&& rooted && !paid ==> outcome == Err::<crate::chain::BlockDiffView, _>(
                BlockErrorView::MissingCoinbase,
            )
            &&& paid && (exists|i: int| 1 <= i < txs.len() && (#[trigger] txs[i]).is_coinbase())
                ==> outcome == Err::<crate::chain::BlockDiffView, _>(
                BlockErrorView::UnexpectedCoinbase,
            )
            &&& paid && (forall|i: int| 1 <= i < txs.len() ==> !(#[trigger] txs[i]).is_coinbase())
                ==> match layer_of(ledger.utxos, genesis.chain_id, txs.skip(1)) {
                Err(e) => outcome == Err::<crate::chain::BlockDiffView, _>(e),
                Ok(rest) => {
                    let allowed = rest.fees + subsidy(
                        header.height as nat,
                        genesis.subsidy_schedule,
                        genesis.subsidy_period_blocks as nat,
                    );
                    &&& allowed > u128::MAX ==> outcome == Err::<crate::chain::BlockDiffView, _>(
                        BlockErrorView::Overflow,
                    )
                    &&& allowed <= u128::MAX ==> (coinbase_outcome(
                        txs[0],
                        header.height,
                        allowed as u128,
                    ) matches Err(e) ==> outcome == Err::<crate::chain::BlockDiffView, _>(
                        BlockErrorView::Coinbase(e),
                    ))
                },
            }
        }),
{
    if block.transactions.len() > 0 {
        lemma_only_the_first_is_a_coinbase(block.transactions);
    }
}

/// What the last of some transactions created, where only one of them creates it.
proof fn lemma_only_creator(txs: Seq<TransactionView>, o: OutPoint, i: int)
    requires
        0 <= i < txs.len(),
        creates_output(txs[i], o),
        forall|k: int| 0 <= k < txs.len() && k != i ==> !creates_output(#[trigger] txs[k], o),
    ensures
        last_created(txs, o) == Some(txs[i].outputs[o.vout as int]),
    decreases txs.len(),
{
    if i < txs.len() - 1 {
        let front = txs.drop_last();
        assert(!creates_output(txs[txs.len() - 1], o));
        assert forall|k: int| 0 <= k < front.len() && k != i implies !creates_output(
            #[trigger] front[k],
            o,
        ) by {
            assert(front[k] == txs[k]);
        }
        lemma_only_creator(front, o, i);
    }
}

/// Where none of some transactions creates an outpoint, nothing is created there.
proof fn lemma_no_creator(txs: Seq<TransactionView>, o: OutPoint)
    requires
        forall|k: int| 0 <= k < txs.len() ==> !creates_output(#[trigger] txs[k], o),
    ensures
        last_created(txs, o) is None,
    decreases txs.len(),
{
    if txs.len() > 0 {
        let front = txs.drop_last();
        assert(!creates_output(txs[txs.len() - 1], o));
        assert forall|k: int| 0 <= k < front.len() implies !creates_output(
            #[trigger] front[k],
            o,
        ) by {
            assert(front[k] == txs[k]);
        }
        lemma_no_creator(front, o);
    }
}

/// An accepted block becomes the latest of the chain, on record under its height, its hash and
/// the ids of its transactions; every other block stays. An output that one of its transactions
/// creates and none spends can be spent afterwards; one that is spent and not created in it
/// cannot; every other output is as it was.
pub proof fn accepted_block_moves_the_ledger(
    ledger: Ledger,
    genesis: GenesisView,
    block: BlockView,
    o: OutPoint,
)
    requires
        tip_outcome(ledger, genesis, block) is Ok,
        outputs_fit(block.transactions),
    ensures
        ({
            let next = ledger.extended(block, tip_outcome(ledger, genesis, block)->Ok_0);
            let txs = block.transactions;
            let height = block.header.height;
            &&& next.latest == Some(height)
            &&& next.blocks.get(height) == Some(block)
            &&& forall|h: u64| h != height ==> #[trigger] next.blocks.get(h) == ledger.blocks.get(h)
            &&& next.heights.get(block.hash()) == Some(height)
            &&& forall|x: [u8; 32]|
                x != block.hash() ==> #[trigger] next.heights.get(x) == ledger.heights.get(x)
            &&& forall|i: int|
                0 <= i < txs.len() ==> next.tx_heights.get((#[trigger] txs[i]).id()) == Some(height)
            &&& forall|i: int|
                0 <= i < txs.len() && creates_output(#[trigger] txs[i], o) && !any_spends(
                    txs.skip(1),
                    o,
                ) && (forall|k: int|
                    0 <= k < txs.len() && k != i ==> !creates_output(#[trigger] txs[k], o))
                    ==> next.utxos.get(o) == Some(txs[i].outputs[o.vout as int])
            &&& (forall|k: int| 0 <= k < txs.len() ==> !creates_output(#[trigger] txs[k], o)) ==> {
                &&& any_spends(txs.skip(1), o) ==> !next.utxos.contains_key(o)
                &&& !any_spends(txs.skip(1), o) ==> next.utxos.get(o) == ledger.utxos.get(o)
            }
        }),
{
    let diff = tip_outcome(ledger, genesis, block)->Ok_0;
    let next = ledger.extended(block, diff);
    let txs = block.transactions;
    let rest = txs.skip(1);
    assert forall|k: int| 0 <= k < rest.len() implies (#[trigger] rest[k]).outputs.len()
        <= u32::MAX by {
        assert(rest[k] == txs[k + 1]);
    }
    layer_shows_what_is_left(ledger.utxos, genesis.chain_id, rest);
    let layer = layer_of(ledger.utxos, genesis.chain_id, rest)->Ok_0;
    assert(txs[0].outputs.len() <= u32::MAX);
    lemma_created_get(layer.created, txs[0], o);
    assert(layer.spent.contains(o) == any_spends(rest, o));
    if !any_spends(rest, o) {
        assert(layer.created.get(o) == last_created(rest, o));
    }
    assert forall|i: int|
        0 <= i < txs.len() && creates_output(#[trigger] txs[i], o) && !any_spends(rest, o) && (forall|
            k: int,
        |
            0 <= k < txs.len() && k != i ==> !creates_output(#[trigger] txs[k], o)) implies next.utxos.get(
        o,
    ) == Some(txs[i].outputs[o.vout as int]) by {
        if i > 0 {
            assert(rest[i - 1] == txs[i]);
            assert forall|k: int| 0 <= k < rest.len() && k != i - 1 implies !creates_output(
                #[trigger] rest[k],
                o,
            ) by {
                assert(rest[k] == txs[k + 1]);
            }
            lemma_only_creator(rest, o, i - 1);
            assert(!creates_output(txs[0], o));
        }
    }
    if forall|k: int| 0 <= k < txs.len() ==> !creates_output(#[trigger] txs[k], o) {
        assert(!creates_output(txs[0], o));
        assert forall|k: int| 0 <= k < rest.len() implies !creates_output(#[trigger] rest[k], o) by {
            assert(rest[k] == txs[k + 1]);
        }
        lemma_no_creator(rest, o);
        lemma_not_created(ledger.utxos, genesis.chain_id, rest, o);
    }
    assert forall|i: int| 0 <= i < txs.len() implies next.tx_heights.get((#[trigger] txs[i]).id())
        == Some(block.header.height) by {
        accepted_transactions_are_indexed(ledger, block, diff, i);
    }
}

/// A layer does not create what none of its transactions creates.
proof fn lemma_not_created(
    base: Map<OutPoint, TxOut>,
    chain_id: Seq<char>,
    txs: Seq<TransactionView>,
    o: OutPoint,
)
    requires
        layer_of(base, chain_id, txs) is Ok,
        outputs_fit(txs),
        forall|k: int| 0 <= k < txs.len() ==> !creates_output(#[trigger] txs[k], o),
    ensures
        !layer_of(base, chain_id, txs)->Ok_0.created.contains_key(o),
    decreases txs.len(),
{
    if txs.len() > 0 {
        let front = txs.drop_last();
        let tx = txs.last();
        assert(txs[txs.len() - 1] == tx);
        assert forall|k: int| 0 <= k < front.len() implies !creates_output(#[trigger] front[k], o)
            && front[k].outputs.len() <= u32::MAX by {
            assert(front[k] == txs[k]);
        }
        lemma_not_created(base, chain_id, front, o);
        let before = layer_of(base, chain_id, front)->Ok_0;
        let kept = before.created.remove_keys(crate::state::spent_outpoints(tx).to_set());
        lemma_created_get(kept, tx, o);
        assert(layer_of(base, chain_id, txs)->Ok_0.created.get(o) == kept.get(o));
    }
}

/// Of two stretches of chain above the same block the one with more work wins, whichever is
/// longer. With as much work, the candidate wins if the hash of its last block is smaller than
/// that of the local tip, read as a number. The work of a stretch is that of the targets that its
/// blocks declare.
pub proof fn more_work_wins(
    ledger: Ledger,
    height: u64,
    candidate: Seq<BlockView>,
    own: Seq<[u8; 32]>,
    other: Seq<[u8; 32]>,
)
    requires
        ledger.latest is Some,
        height <= ledger.latest->0,
        own.len() == ledger.latest->0 - height,
        forall|i: int|
            0 <= i < own.len() ==> #[trigger] own[i] == ledger.blocks[(height + 1
                + i) as u64].header.target,
        other.len() == candidate.len(),
        forall|i: int|
            0 <= i < other.len() ==> #[trigger] other[i] == candidate[i].header.target,
    ensures
        total_work(other) > total_work(own) ==> candidate_wins(ledger, height, candidate),
        total_work(other) < total_work(own) ==> !candidate_wins(ledger, height, candidate),
        total_work(other) == total_work(own) ==> candidate_wins(ledger, height, candidate) == (
        be_value(candidate.last().hash()@) < be_value(ledger.blocks[ledger.latest->0].hash()@)),
{
    assert(targets_of(blocks_above(ledger, height)) =~= own);
    assert(targets_of(candidate) =~= other);
}

/// A candidate is adopted exactly if it wins and each of its blocks extends the chain below it,
/// from the block that it forks off on. One that wins and is not valid is refused for its first
/// block that does not extend the chain.
pub proof fn winning_chain_is_adopted(
    ledger: Ledger,
    genesis: GenesisView,
    height: u64,
    candidate: Seq<BlockView>,
)
    ensures
        ({
            let (after, outcome) = reorg_outcome(ledger, genesis, height, candidate);
            let (reached, error) = extended_by(undone_to(ledger, height), genesis, candidate);
            &&& outcome == Ok::<bool, BlockErrorView>(true) <==> candidate_wins(
                ledger,
                height,
                candidate,
            ) && error is None
            &&& outcome == Ok::<bool, BlockErrorView>(true) ==> after == reached
            &&& candidate_wins(ledger, height, candidate) && error is Some ==> outcome == Err::<
                bool,
                _,
            >(error->0)
        }),
{
}

/// Extending a chain by a run of blocks takes them one by one, each on top of the one before, up
/// to the first that is refused.
pub proof fn run_is_taken_block_by_block(
    ledger: Ledger,
    genesis: GenesisView,
    blocks: Seq<BlockView>,
    i: int,
)
    requires
        0 <= i < blocks.len(),
    ensures
        ({
            let (before, failed) = extended_by(ledger, genesis, blocks.take(i));
            let (after, error) = extended_by(ledger, genesis, blocks.take(i + 1));
            &&& failed is Some ==> after == before && error == failed
            &&& failed is None ==> match tip_outcome(before, genesis, blocks[i]) {
                Ok(diff) => after == before.extended(blocks[i], diff) && error is None,
                Err(e) => after == before && error == Some(e),
            }
        }),
        extended_by(ledger, genesis, Seq::empty()) == (ledger, None::<BlockErrorView>),
{
    assert(blocks.take(i + 1).drop_last() =~= blocks.take(i));
    assert(blocks.take(i + 1).last() == blocks[i]);
}

/// The inputs of some transactions are counted one by one: none for none, those of a single one,
/// and those of two parts together.
pub proof fn inputs_are_counted_one_by_one(
    a: Seq<TransactionView>,
    b: Seq<TransactionView>,
    one: TransactionView,
)
    ensures
        input_count(Seq::empty()) == 0,
        input_count(seq![one]) == one.inputs.len(),
        input_count(a + b) == input_count(a) + input_count(b),
    decreases b.len(),
{
    let none = Seq::<TransactionView>::empty();
    assert(seq![one].drop_last() =~= none);
    assert(input_count(none) == 0);
    if b.len() == 0 {
        assert(a + b =~= a);
    } else {
        inputs_are_counted_one_by_one(a, b.drop_last(), one);
        assert((a + b).drop_last() =~= a + b.drop_last());
        assert((a + b).last() == b.last());
    }
}

/// A chain has a block at every height up to the latest and none above, each under its own height
/// and with no more inputs than can be counted in four bytes; nothing above is on record for
/// undoing. What its indices name is there: a hash leads to the block that has it, and an id to a block that
/// holds a transaction with it.
pub proof fn chain_has_no_gaps(ledger: Ledger, h: u64, x: [u8; 32])
    requires
        ledger.chained(),
    ensures
        ledger.latest is Some,
        ledger.blocks.contains_key(h) <==> h <= ledger.latest->0,
        h <= ledger.latest->0 ==> ledger.blocks[h].header.height == h,
        h <= ledger.latest->0 ==> input_count(ledger.blocks[h].transactions) <= u32::MAX,
        ledger.undo.contains_key(h) ==> h <= ledger.latest->0,
        ledger.heights.get(x) matches Some(at) ==> ledger.blocks.contains_key(at)
            && ledger.blocks[at].hash() == x,
        ledger.tx_heights.get(x) matches Some(at) ==> ledger.blocks.contains_key(at) && exists|
            i: int,
        |
            0 <= i < ledger.blocks[at].transactions.len()
                && #[trigger] ledger.blocks[at].transactions[i].id() == x,
{
    assert(ledger.blocks.contains_key(h) <==> h <= ledger.latest->0);
    if ledger.heights.contains_key(x) {
        assert(ledger.blocks.contains_key(ledger.heights[x]));
    }
    if ledger.tx_heights.contains_key(x) {
        let at = ledger.tx_heights[x];
        assert(ledger.blocks.contains_key(at));
        let list = ids(ledger.blocks[at].transactions);
        let i = choose|i: int| 0 <= i < list.len() && list[i] == x;
        assert(ledger.blocks[at].transactions[i].id() == x);
    }
}

/// Undoing the latest block takes it off the chain and out of the indices, and makes the one below
/// the latest. What its transactions created is gone; of what they spent and did not create
/// themselves, each output is back with what is on record for it; every other output stays.
pub proof fn undone_block_is_taken_back(ledger: Ledger, o: OutPoint, i: int)
    requires
        ledger.latest is Some,
    ensures
        ({
            let height = ledger.latest->0;
            let block = ledger.blocks[height];
            let txs = block.transactions;
            let spent = ledger.undo_at(height);
            let after = ledger.undone();
            let created = exists|k: int| 0 <= k < txs.len() && creates_output(#[trigger] txs[k], o);
            &&& height > 0 ==> after.latest == Some((height - 1) as u64)
            &&& height == 0 ==> after.latest is None
            &&& !after.blocks.contains_key(height)
            &&& forall|h: u64| h != height ==> #[trigger] after.blocks.get(h) == ledger.blocks.get(h)
            &&& !after.heights.contains_key(block.hash())
            &&& forall|k: int|
                0 <= k < txs.len() ==> !after.tx_heights.contains_key((#[trigger] txs[k]).id())
            &&& created ==> !after.utxos.contains_key(o)
            &&& !created && 0 <= i < spent.len() && spent[i].0 == o && (forall|k: int|
                i < k < spent.len() ==> (#[trigger] spent[k]).0 != o) ==> after.utxos.get(o) == Some(
                spent[i].1,
            )
            &&& !created && (forall|k: int| 0 <= k < spent.len() ==> (#[trigger] spent[k]).0 != o)
                ==> after.utxos.get(o) == ledger.utxos.get(o)
        }),
{
    let height = ledger.latest->0;
    let txs = ledger.blocks[height].transactions;
    let spent = ledger.undo_at(height);
    let after = ledger.undone();
    assert(crate::storage::creates(txs, o) == exists|k: int|
        0 <= k < txs.len() && creates_output(#[trigger] txs[k], o)) by {
        if crate::storage::creates(txs, o) {
            let k = choose|k: int|
                0 <= k < txs.len() && (#[trigger] txs[k]).id() == o.txid && o.vout
                    < txs[k].outputs.len();
            assert(creates_output(txs[k], o));
        }
        if exists|k: int| 0 <= k < txs.len() && creates_output(#[trigger] txs[k], o) {
            let k = choose|k: int| 0 <= k < txs.len() && creates_output(#[trigger] txs[k], o);
            assert(txs[k].id() == o.txid);
        }
    }
    if 0 <= i < spent.len() && spent[i].0 == o && (forall|k: int|
        i < k < spent.len() ==> (#[trigger] spent[k]).0 != o) {
        lemma_last_pair_counts(ledger.utxos, spent, o, i);
    }
    if forall|k: int| 0 <= k < spent.len() ==> (#[trigger] spent[k]).0 != o {
        crate::collections::lemma_inserted_other(ledger.utxos, spent, o);
    }
    assert forall|k: int| 0 <= k < txs.len() implies !after.tx_heights.contains_key(
        (#[trigger] txs[k]).id(),
    ) by {
        assert(ids(txs)[k] == txs[k].id());
        assert(ids(txs).to_set().contains(txs[k].id()));
    }
}

/// Of several values for one key the last counts.
proof fn lemma_last_pair_counts(
    m: Map<OutPoint, TxOut>,
    pairs: Seq<(OutPoint, TxOut)>,
    o: OutPoint,
    i: int,
)
    requires
        0 <= i < pairs.len(),
        pairs[i].0 == o,
        forall|k: int| i < k < pairs.len() ==> (#[trigger] pairs[k]).0 != o,
    ensures
        crate::collections::inserted(m, pairs).get(o) == Some(pairs[i].1),
    decreases pairs.len(),
{
    if i < pairs.len() - 1 {
        let front = pairs.drop_last();
        assert(pairs[pairs.len() - 1].0 != o);
        assert forall|k: int| i < k < front.len() implies (#[trigger] front[k]).0 != o by {
            assert(front[k] == pairs[k]);
        }
        lemma_last_pair_counts(m, front, o, i);
    }
}

} // verus!
