//! What holds of a chain's history: blocks can be undone, a refused chain leaves no trace, every
//! state is the replay of its blocks, and nodes agree on which chain wins.

use vstd::prelude::*;

use crate::bytes::{be_value, lemma_array_ext, lemma_be_value_bytes};
use crate::chain::{
    block_outcome, blocks_above, candidate_wins, extended_by, input_count, layer_of,
    lemma_extended_by, lemma_extended_is_chained, lemma_indexed_height, lemma_undone_by,
    reorg_outcome, required_target, targets_of, tip_outcome, undone_by, undone_to, BlockDiffView, BlockErrorView,
};
use crate::codec::ids;
use crate::collections::{has_key, inserted, lemma_inserted_other};
use crate::consensus::total_work;
use crate::genesis::GenesisView;
use crate::state::{
    accepted_transaction_is_authorised, consumed_outputs, created_outputs, lemma_same_gets,
    spent_outpoints,
};
use crate::storage::{at_height, created_by, creates, Ledger};
use crate::types::{BlockView, OutPoint, TransactionView, TxOut};

verus! {

/// The outputs of each transaction can be numbered.
pub open spec fn outputs_fit(txs: Seq<TransactionView>) -> bool {
    forall|i: int| 0 <= i < txs.len() ==> (#[trigger] txs[i]).outputs.len() <= u32::MAX
}

/// What a block brings to a ledger is new: its outputs, its hash, and its transactions' ids.
pub open spec fn brings_only_new(ledger: Ledger, block: BlockView) -> bool {
    &&& outputs_fit(block.transactions)
    &&& forall|op: OutPoint| #[trigger]
        creates(block.transactions, op) ==> !ledger.utxos.contains_key(op)
    &&& !ledger.heights.contains_key(block.hash())
    &&& forall|id: [u8; 32]| #[trigger]
        ledger.tx_heights.contains_key(id) ==> !ids(block.transactions).contains(id)
}

/// The pairs of `txs`' outputs are under outpoints that `txs` creates.
proof fn lemma_created_key(tx: TransactionView, op: OutPoint)
    requires
        tx.outputs.len() <= u32::MAX,
    ensures
        has_key(created_outputs(tx), op) <==> (op.txid == tx.id() && op.vout < tx.outputs.len()),
{
    let pairs = created_outputs(tx);
    if op.txid == tx.id() && op.vout < tx.outputs.len() {
        assert(pairs[op.vout as int].0 == op);
    }
}

proof fn lemma_creates_drop_last(txs: Seq<TransactionView>, op: OutPoint)
    requires
        txs.len() > 0,
    ensures
        creates(txs, op) <==> (creates(txs.drop_last(), op) || (txs.last().id() == op.txid && op.vout
            < txs.last().outputs.len())),
{
    let front = txs.drop_last();
    if creates(front, op) {
        let i = choose|i: int|
            0 <= i < front.len() && (#[trigger] front[i]).id() == op.txid && op.vout
                < front[i].outputs.len();
        assert(txs[i].id() == op.txid);
    }
    if creates(txs, op) {
        let i = choose|i: int|
            0 <= i < txs.len() && (#[trigger] txs[i]).id() == op.txid && op.vout
                < txs[i].outputs.len();
        if i < front.len() {
            assert(front[i].id() == op.txid);
        }
    }
    if txs.last().id() == op.txid && op.vout < txs.last().outputs.len() {
        assert(txs[txs.len() - 1].id() == op.txid);
    }
}

/// What the changes of some transactions record: everything spent is recorded, with what it held
/// at the bottom unless the transactions created it themselves; and they create only their own
/// outputs.
proof fn lemma_layer_records(
    base: Map<OutPoint, TxOut>,
    chain_id: Seq<char>,
    txs: Seq<TransactionView>,
)
    requires
        layer_of(base, chain_id, txs) is Ok,
        outputs_fit(txs),
    ensures
        ({
            let layer = layer_of(base, chain_id, txs)->Ok_0;
            &&& forall|op: OutPoint| #[trigger]
                layer.spent.contains(op) <==> has_key(layer.undo, op)
            &&& forall|i: int|
                0 <= i < layer.undo.len() ==> {
                    let p = #[trigger] layer.undo[i];
                    creates(txs, p.0) || (base.contains_key(p.0) && base[p.0] == p.1)
                }
            &&& forall|op: OutPoint| #[trigger]
                layer.created.contains_key(op) ==> creates(txs, op)
        }),
    decreases txs.len(),
{
    let layer = layer_of(base, chain_id, txs)->Ok_0;
    if txs.len() > 0 {
        let front = txs.drop_last();
        let tx = txs.last();
        assert(outputs_fit(front)) by {
            assert forall|i: int| 0 <= i < front.len() implies (#[trigger] front[i]).outputs.len()
                <= u32::MAX by {
                assert(front[i] == txs[i]);
            }
        }
        assert(txs[txs.len() - 1] == tx);
        lemma_layer_records(base, chain_id, front);
        let before = layer_of(base, chain_id, front)->Ok_0;
        let over = before.over(base);
        let more = consumed_outputs(over, tx);
        let gone = spent_outpoints(tx);
        accepted_transaction_is_authorised(over, tx, chain_id);
        assert forall|op: OutPoint| #[trigger]
            layer.spent.contains(op) <==> has_key(layer.undo, op) by {
            if before.spent.contains(op) {
                let i = choose|i: int|
                    0 <= i < before.undo.len() && (#[trigger] before.undo[i]).0 == op;
                assert(layer.undo[i].0 == op);
            }
            if gone.to_set().contains(op) {
                let j = choose|j: int| 0 <= j < gone.len() && gone[j] == op;
                assert(layer.undo[before.undo.len() + j] == more[j]);
                assert(layer.undo[before.undo.len() + j].0 == op);
            }
            if has_key(layer.undo, op) {
                let i = choose|i: int|
                    0 <= i < layer.undo.len() && (#[trigger] layer.undo[i]).0 == op;
                if i < before.undo.len() {
                    assert(before.undo[i].0 == op);
                } else {
                    let j = i - before.undo.len();
                    assert(layer.undo[i] == more[j]);
                    assert(gone[j] == op);
                }
            }
        }
        assert forall|i: int| 0 <= i < layer.undo.len() implies {
            let p = #[trigger] layer.undo[i];
            creates(txs, p.0) || (base.contains_key(p.0) && base[p.0] == p.1)
        } by {
            let p = layer.undo[i];
            lemma_creates_drop_last(txs, p.0);
            if i < before.undo.len() {
                assert(p == before.undo[i]);
            } else {
                let j = i - before.undo.len();
                assert(p == more[j]);
                let op = tx.inputs[j].prev_out;
                assert(over.contains_key(op));
                if !creates(txs, op) {
                    assert(!before.created.contains_key(op));
                }
            }
        }
        assert forall|op: OutPoint| #[trigger]
            layer.created.contains_key(op) implies creates(txs, op) by {
            lemma_creates_drop_last(txs, op);
            lemma_created_key(tx, op);
            let kept = before.created.remove_keys(gone.to_set());
            if !has_key(created_outputs(tx), op) {
                lemma_inserted_other(kept, created_outputs(tx), op);
                assert(layer.created.get(op) == kept.get(op));
                assert(before.created.contains_key(op));
            }
        }
    }
}

/// Inserting pairs whose values for a key are all the same gives that value.
proof fn lemma_inserted_value<K, V>(m: Map<K, V>, pairs: Seq<(K, V)>, k: K, v: V)
    requires
        has_key(pairs, k),
        forall|i: int| 0 <= i < pairs.len() && (#[trigger] pairs[i]).0 == k ==> pairs[i].1 == v,
    ensures
        inserted(m, pairs).get(k) == Some(v),
    decreases pairs.len(),
{
    let n = pairs.len() - 1;
    if pairs[n].0 != k {
        let front = pairs.drop_last();
        let i = choose|i: int| 0 <= i < pairs.len() && (#[trigger] pairs[i]).0 == k;
        assert(front[i].0 == k);
        assert forall|j: int| 0 <= j < front.len() && (#[trigger] front[j]).0 == k implies front[j].1
            == v by {
            assert(pairs[j].0 == k);
        }
        lemma_inserted_value(m, front, k, v);
    }
}

/// What a valid block records and creates.
proof fn lemma_block_records(
    utxos: Map<OutPoint, TxOut>,
    genesis: GenesisView,
    block: BlockView,
    target: [u8; 32],
)
    requires
        block_outcome(utxos, genesis, block, target) is Ok,
        outputs_fit(block.transactions),
    ensures
        ({
            let diff = block_outcome(utxos, genesis, block, target)->Ok_0;
            &&& forall|op: OutPoint| #[trigger] diff.spent.contains(op) <==> has_key(diff.undo, op)
            &&& forall|i: int|
                0 <= i < diff.undo.len() ==> {
                    let p = #[trigger] diff.undo[i];
                    creates(block.transactions, p.0) || (utxos.contains_key(p.0) && utxos[p.0]
                        == p.1)
                }
            &&& forall|op: OutPoint| #[trigger]
                diff.created.contains_key(op) ==> creates(block.transactions, op)
        }),
{
    let diff = block_outcome(utxos, genesis, block, target)->Ok_0;
    let txs = block.transactions;
    let rest = txs.skip(1);
    assert(outputs_fit(rest)) by {
        assert forall|i: int| 0 <= i < rest.len() implies (#[trigger] rest[i]).outputs.len()
            <= u32::MAX by {
            assert(rest[i] == txs[i + 1]);
        }
    }
    lemma_layer_records(utxos, genesis.chain_id, rest);
    let layer = layer_of(utxos, genesis.chain_id, rest)->Ok_0;
    assert forall|op: OutPoint| creates(rest, op) implies #[trigger] creates(txs, op) by {
        let i = choose|i: int|
            0 <= i < rest.len() && (#[trigger] rest[i]).id() == op.txid && op.vout
                < rest[i].outputs.len();
        assert(txs[i + 1].id() == op.txid);
    }
    assert forall|i: int| 0 <= i < diff.undo.len() implies {
        let p = #[trigger] diff.undo[i];
        creates(txs, p.0) || (utxos.contains_key(p.0) && utxos[p.0] == p.1)
    } by {
        let p = diff.undo[i];
        assert(p == layer.undo[i]);
        if creates(rest, p.0) {
            assert(creates(txs, p.0));
        }
    }
    assert forall|op: OutPoint| #[trigger]
        diff.created.contains_key(op) implies creates(txs, op) by {
        let coinbase = txs[0];
        lemma_created_key(coinbase, op);
        if has_key(created_outputs(coinbase), op) {
            assert(txs[0].id() == op.txid);
        } else {
            lemma_inserted_other(layer.created, created_outputs(coinbase), op);
            assert(diff.created.get(op) == layer.created.get(op));
            assert(layer.created.contains_key(op));
        }
    }
}

/// Every transaction of an accepted block is found at the block's height, and is not found any more
/// once the block is undone.
pub proof fn accepted_transactions_are_indexed(
    ledger: Ledger,
    block: BlockView,
    diff: BlockDiffView,
    i: int,
)
    requires
        0 <= i < block.transactions.len(),
    ensures
        ledger.extended(block, diff).tx_heights.get(block.transactions[i].id()) == Some(
            block.header.height,
        ),
        ledger.extended(block, diff).undone().tx_heights.get(block.transactions[i].id()) is None,
{
    let list = ids(block.transactions);
    let id = block.transactions[i].id();
    assert(at_height(list, block.header.height)[i].0 == id);
    lemma_indexed_height(ledger.tx_heights, list, block.header.height, id);
    assert(list.to_set().contains(id));
}

/// Undoing a block gives the ledger from before it, for a block that brings only new things.
pub proof fn undoing_a_block_restores_the_ledger(
    ledger: Ledger,
    genesis: GenesisView,
    block: BlockView,
)
    requires
        ledger.chained(),
        tip_outcome(ledger, genesis, block) is Ok,
        brings_only_new(ledger, block),
    ensures
        ledger.extended(block, tip_outcome(ledger, genesis, block)->Ok_0).undone() == ledger,
{
    let diff = tip_outcome(ledger, genesis, block)->Ok_0;
    let target = required_target(ledger, genesis, block.header.height);
    let height = block.header.height;
    let txs = block.transactions;
    let next = ledger.extended(block, diff);
    let back = next.undone();
    lemma_block_records(ledger.utxos, genesis, block, target);
    assert forall|k: OutPoint| #[trigger] back.utxos.get(k) == ledger.utxos.get(k) by {
        if creates(txs, k) {
            assert(created_by(txs).contains(k));
            assert(!ledger.utxos.contains_key(k));
        } else {
            assert(!diff.created.contains_key(k));
            if diff.spent.contains(k) {
                let v = ledger.utxos[k];
                let i = choose|i: int| 0 <= i < diff.undo.len() && (#[trigger] diff.undo[i]).0 == k;
                assert(ledger.utxos.contains_key(k));
                assert forall|j: int|
                    0 <= j < diff.undo.len() && (#[trigger] diff.undo[j]).0 == k implies diff.undo[j].1
                    == v by {}
                lemma_inserted_value(next.utxos, diff.undo, k, v);
            } else {
                lemma_inserted_other(next.utxos, diff.undo, k);
                assert(next.utxos.get(k) == ledger.utxos.get(k));
            }
        }
    }
    lemma_same_gets(back.utxos, ledger.utxos);
    assert(back.blocks =~= ledger.blocks);
    assert(back.heights =~= ledger.heights);
    assert(back.undo =~= ledger.undo);
    let list = ids(txs);
    let pairs = at_height(list, height);
    assert forall|id: [u8; 32]| #[trigger] back.tx_heights.get(id) == ledger.tx_heights.get(id) by {
        if list.to_set().contains(id) {
            assert(!ledger.tx_heights.contains_key(id));
        } else {
            if has_key(pairs, id) {
                let i = choose|i: int| 0 <= i < pairs.len() && (#[trigger] pairs[i]).0 == id;
                assert(list[i] == id);
            }
            lemma_inserted_other(ledger.tx_heights, pairs, id);
            assert(next.tx_heights.get(id) == ledger.tx_heights.get(id));
        }
    }
    lemma_same_gets(back.tx_heights, ledger.tx_heights);
    assert(back =~= ledger);
}

/// Every block of a run brings only new things, as far as the run goes.
pub open spec fn clean_run(ledger: Ledger, genesis: GenesisView, blocks: Seq<BlockView>) -> bool {
    forall|i: int|
        0 <= i < blocks.len() ==> {
            let (reached, error) = #[trigger] extended_by(ledger, genesis, blocks.take(i));
            let outcome = tip_outcome(reached, genesis, blocks[i]);
            error is None && outcome is Ok ==> brings_only_new(reached, blocks[i])
        }
}

/// Every block's inputs can be counted.
pub open spec fn countable(blocks: Seq<BlockView>) -> bool {
    forall|i: int|
        0 <= i < blocks.len() ==> input_count((#[trigger] blocks[i]).transactions) <= u32::MAX
}

proof fn lemma_countable_front(blocks: Seq<BlockView>)
    requires
        countable(blocks),
        blocks.len() > 0,
    ensures
        countable(blocks.drop_last()),
{
    let front = blocks.drop_last();
    assert forall|i: int| 0 <= i < front.len() implies input_count(
        (#[trigger] front[i]).transactions,
    ) <= u32::MAX by {
        assert(front[i] == blocks[i]);
    }
}

#[verifier::rlimit(30)]
#[verifier::spinoff_prover]
proof fn lemma_clean_front(ledger: Ledger, genesis: GenesisView, blocks: Seq<BlockView>)
    requires
        clean_run(ledger, genesis, blocks),
        blocks.len() > 0,
    ensures
        clean_run(ledger, genesis, blocks.drop_last()),
{
    let front = blocks.drop_last();
    assert forall|i: int| 0 <= i < front.len() implies {
        let (reached, error) = #[trigger] extended_by(ledger, genesis, front.take(i));
        let outcome = tip_outcome(reached, genesis, front[i]);
        error is None && outcome is Ok ==> brings_only_new(reached, front[i])
    } by {
        assert(front.take(i) =~= blocks.take(i));
        assert(front[i] == blocks[i]);
    }
}

/// Undoing `n` blocks and then one more is undoing `n + 1`; undoing first one and then `n` as
/// well.
proof fn lemma_undone_first(ledger: Ledger, n: nat)
    ensures
        undone_by(ledger, n + 1) == undone_by(ledger.undone(), n),
    decreases n,
{
    if n == 0 {
        assert(undone_by(ledger, 1) == undone_by(ledger, 0).undone());
    } else {
        lemma_undone_first(ledger, (n - 1) as nat);
    }
}

/// Undoing every block that a run added gives the ledger from before the run.
pub proof fn undoing_a_run_restores_the_ledger(
    ledger: Ledger,
    genesis: GenesisView,
    blocks: Seq<BlockView>,
)
    requires
        ledger.chained(),
        countable(blocks),
        clean_run(ledger, genesis, blocks),
    ensures
        undone_to(extended_by(ledger, genesis, blocks).0, ledger.latest->0) == ledger,
    decreases blocks.len(),
{
    if blocks.len() == 0 {
    } else {
        let front = blocks.drop_last();
        let last = blocks.last();
        lemma_countable_front(blocks);
        lemma_clean_front(ledger, genesis, blocks);
        undoing_a_run_restores_the_ledger(ledger, genesis, front);
        lemma_extended_by(ledger, genesis, front);
        let (reached, error) = extended_by(ledger, genesis, front);
        if error is None {
            match tip_outcome(reached, genesis, last) {
                Err(_) => {},
                Ok(diff) => {
                    let n = blocks.len() - 1;
                    assert(blocks.take(n) =~= front);
                    assert(extended_by(ledger, genesis, blocks.take(n)) == (reached, error));
                    assert(brings_only_new(reached, last));
                    undoing_a_block_restores_the_ledger(reached, genesis, last);
                    let next = reached.extended(last, diff);
                    let count = (reached.latest->0 - ledger.latest->0) as nat;
                    lemma_undone_first(next, count);
                    assert(next.latest->0 == reached.latest->0 + 1);
                },
            }
        }
    }
}

/// A ledger is what its own blocks above `origin` make of `origin`.
pub open spec fn replays(origin: Ledger, genesis: GenesisView, ledger: Ledger) -> bool {
    &&& origin.chained()
    &&& ledger.chained()
    &&& origin.latest->0 <= ledger.latest->0
    &&& extended_by(origin, genesis, blocks_above(ledger, origin.latest->0)) == (
        ledger,
        None::<BlockErrorView>,
    )
}

/// Extending keeps the blocks that were there and puts the new ones on top.
#[verifier::spinoff_prover]
proof fn lemma_extended_blocks(ledger: Ledger, genesis: GenesisView, blocks: Seq<BlockView>)
    requires
        ledger.chained(),
        countable(blocks),
        extended_by(ledger, genesis, blocks).1 is None,
    ensures
        ({
            let reached = extended_by(ledger, genesis, blocks).0;
            &&& reached.latest->0 == ledger.latest->0 + blocks.len()
            &&& forall|h: u64|
                h <= ledger.latest->0 ==> #[trigger] reached.blocks[h] == ledger.blocks[h]
            &&& forall|i: int|
                0 <= i < blocks.len() ==> reached.blocks[(ledger.latest->0 + 1 + i) as u64]
                    == #[trigger] blocks[i]
        }),
    decreases blocks.len(),
{
    lemma_extended_by(ledger, genesis, blocks);
    if blocks.len() > 0 {
        let front = blocks.drop_last();
        lemma_countable_front(blocks);
        lemma_extended_blocks(ledger, genesis, front);
        let mid = extended_by(ledger, genesis, front).0;
        let reached = extended_by(ledger, genesis, blocks).0;
        assert forall|i: int| 0 <= i < blocks.len() implies reached.blocks[(ledger.latest->0 + 1
            + i) as u64] == #[trigger] blocks[i] by {
            if i < front.len() {
                assert(front[i] == blocks[i]);
            }
        }
    }
}

/// Extending with one run and then another is extending with both.
#[verifier::rlimit(30)]
#[verifier::spinoff_prover]
proof fn lemma_extended_concat(
    ledger: Ledger,
    genesis: GenesisView,
    a: Seq<BlockView>,
    b: Seq<BlockView>,
)
    requires
        extended_by(ledger, genesis, a).1 is None,
    ensures
        extended_by(ledger, genesis, a + b) == extended_by(
            extended_by(ledger, genesis, a).0,
            genesis,
            b,
        ),
    decreases b.len(),
{
    if b.len() == 0 {
        assert(a + b =~= a);
    } else {
        lemma_extended_concat(ledger, genesis, a, b.drop_last());
        assert((a + b).drop_last() =~= a + b.drop_last());
        assert((a + b).last() == b.last());
    }
}

/// A run that succeeds succeeds up to every point of it.
#[verifier::spinoff_prover]
proof fn lemma_extended_prefix(
    ledger: Ledger,
    genesis: GenesisView,
    blocks: Seq<BlockView>,
    n: int,
)
    requires
        0 <= n <= blocks.len(),
        extended_by(ledger, genesis, blocks).1 is None,
    ensures
        extended_by(ledger, genesis, blocks.take(n)).1 is None,
    decreases blocks.len() - n,
{
    if n == blocks.len() {
        assert(blocks.take(n) =~= blocks);
    } else {
        lemma_extended_prefix(ledger, genesis, blocks, n + 1);
        assert(blocks.take(n + 1).drop_last() =~= blocks.take(n));
    }
}

/// A ledger that replays from `origin` still does after one more block: every state that
/// accepting blocks leads to is the replay of its blocks.
pub proof fn accepted_block_keeps_the_replay(
    origin: Ledger,
    genesis: GenesisView,
    ledger: Ledger,
    block: BlockView,
)
    requires
        replays(origin, genesis, ledger),
        tip_outcome(ledger, genesis, block) is Ok,
        input_count(block.transactions) <= u32::MAX,
    ensures
        replays(
            origin,
            genesis,
            ledger.extended(block, tip_outcome(ledger, genesis, block)->Ok_0),
        ),
{
    let diff = tip_outcome(ledger, genesis, block)->Ok_0;
    let next = ledger.extended(block, diff);
    lemma_extended_is_chained(ledger, block, diff);
    let o = origin.latest->0;
    let before = blocks_above(ledger, o);
    let after = blocks_above(next, o);
    assert(after =~= before.push(block)) by {
        assert forall|i: int| 0 <= i < before.len() implies after[i] == before[i] by {
            assert((o + 1 + i) as u64 != block.header.height);
        }
    }
    assert(after.drop_last() =~= before);
}

/// The blocks of a ledger below and above a height.
proof fn lemma_blocks_split(ledger: Ledger, low: u64, height: u64)
    requires
        ledger.chained(),
        low <= height <= ledger.latest->0,
    ensures
        blocks_above(ledger, low) == blocks_above(ledger, low).take(height - low) + blocks_above(
            ledger,
            height,
        ),
        countable(blocks_above(ledger, low)),
{
    let all = blocks_above(ledger, low);
    let top = blocks_above(ledger, height);
    assert(all =~= all.take(height - low) + top) by {
        assert forall|i: int| height - low <= i < all.len() implies all[i] == top[i - (height
            - low)] by {
            assert(low + 1 + i == height + 1 + (i - (height - low)));
        }
    }
    assert forall|i: int| 0 <= i < all.len() implies input_count((#[trigger] all[i]).transactions)
        <= u32::MAX by {
        assert(all[i] == ledger.blocks[(low + 1 + i) as u64]);
        assert(ledger.blocks.contains_key((low + 1 + i) as u64));
    }
}

/// The second part of a clean run is clean from where the first part leads.
#[verifier::rlimit(30)]
#[verifier::spinoff_prover]
proof fn lemma_clean_suffix(
    origin: Ledger,
    genesis: GenesisView,
    low: Seq<BlockView>,
    top: Seq<BlockView>,
)
    requires
        clean_run(origin, genesis, low + top),
        extended_by(origin, genesis, low).1 is None,
    ensures
        clean_run(extended_by(origin, genesis, low).0, genesis, top),
{
    let base = extended_by(origin, genesis, low).0;
    let all = low + top;
    let n = low.len() as int;
    assert forall|i: int| 0 <= i < top.len() implies {
        let (reached, error) = #[trigger] extended_by(base, genesis, top.take(i));
        let outcome = tip_outcome(reached, genesis, top[i]);
        error is None && outcome is Ok ==> brings_only_new(reached, top[i])
    } by {
        lemma_extended_concat(origin, genesis, low, top.take(i));
        assert(all.take(n + i) =~= low + top.take(i));
        assert(all[n + i] == top[i]);
        assert(extended_by(origin, genesis, all.take(n + i)) == extended_by(
            base,
            genesis,
            top.take(i),
        ));
    }
}

proof fn lemma_countable_parts(a: Seq<BlockView>, b: Seq<BlockView>)
    requires
        countable(a + b),
    ensures
        countable(a),
        countable(b),
{
    assert forall|i: int| 0 <= i < a.len() implies input_count((#[trigger] a[i]).transactions)
        <= u32::MAX by {
        assert((a + b)[i] == a[i]);
    }
    assert forall|i: int| 0 <= i < b.len() implies input_count((#[trigger] b[i]).transactions)
        <= u32::MAX by {
        assert((a + b)[a.len() + i] == b[i]);
    }
}

/// Undoing a replayed ledger down to a height gives the replay up to that height, and putting the
/// blocks back gives the ledger again.
pub proof fn undoing_and_replaying_restores_the_ledger(
    origin: Ledger,
    genesis: GenesisView,
    ledger: Ledger,
    height: u64,
)
    requires
        replays(origin, genesis, ledger),
        clean_run(origin, genesis, blocks_above(ledger, origin.latest->0)),
        origin.latest->0 <= height <= ledger.latest->0,
    ensures
        undone_to(ledger, height).latest == Some(height),
        extended_by(undone_to(ledger, height), genesis, blocks_above(ledger, height)) == (
            ledger,
            None::<BlockErrorView>,
        ),
{
    let o = origin.latest->0;
    let all = blocks_above(ledger, o);
    let n = height - o;
    let low = all.take(n);
    let top = blocks_above(ledger, height);
    lemma_blocks_split(ledger, o, height);
    lemma_extended_prefix(origin, genesis, all, n);
    lemma_countable_parts(low, top);
    lemma_extended_by(origin, genesis, low);
    lemma_extended_concat(origin, genesis, low, top);
    lemma_clean_suffix(origin, genesis, low, top);
    let base = extended_by(origin, genesis, low).0;
    undoing_a_run_restores_the_ledger(base, genesis, top);
}

/// A ledger that is the replay of its blocks still is after undoing some of them.
pub proof fn undone_ledger_keeps_the_replay(
    origin: Ledger,
    genesis: GenesisView,
    ledger: Ledger,
    height: u64,
)
    requires
        replays(origin, genesis, ledger),
        clean_run(origin, genesis, blocks_above(ledger, origin.latest->0)),
        origin.latest->0 <= height <= ledger.latest->0,
    ensures
        replays(origin, genesis, undone_to(ledger, height)),
{
    let o = origin.latest->0;
    let n = height - o;
    let all = blocks_above(ledger, o);
    let low = all.take(n);
    let top = blocks_above(ledger, height);
    lemma_blocks_split(ledger, o, height);
    lemma_extended_prefix(origin, genesis, all, n);
    lemma_countable_parts(low, top);
    lemma_extended_by(origin, genesis, low);
    lemma_extended_concat(origin, genesis, low, top);
    lemma_clean_suffix(origin, genesis, low, top);
    let base = extended_by(origin, genesis, low).0;
    undoing_a_run_restores_the_ledger(base, genesis, top);
    assert(undone_to(ledger, height) == base);
    lemma_undone_by(ledger, (ledger.latest->0 - height) as nat);
    assert(blocks_above(base, o) =~= low) by {
        assert forall|i: int| 0 <= i < n implies blocks_above(base, o)[i] == all[i] by {
            let h = (o + 1 + i) as u64;
            assert(base.blocks[h] == ledger.blocks[h]);
        }
    }
}

/// A candidate chain that is refused leaves no trace: the ledger afterwards is the one from
/// before. This is for a ledger that is the replay of its blocks, where neither its blocks nor
/// the candidate's repeat what is there.
pub proof fn refused_chain_leaves_no_trace(
    origin: Ledger,
    genesis: GenesisView,
    ledger: Ledger,
    height: u64,
    candidate: Seq<BlockView>,
)
    requires
        replays(origin, genesis, ledger),
        clean_run(origin, genesis, blocks_above(ledger, origin.latest->0)),
        origin.latest->0 <= height <= ledger.latest->0,
        countable(candidate),
        clean_run(undone_to(ledger, height), genesis, candidate),
        reorg_outcome(ledger, genesis, height, candidate).1 is Err,
    ensures
        reorg_outcome(ledger, genesis, height, candidate).0 == ledger,
{
    let base = undone_to(ledger, height);
    undoing_and_replaying_restores_the_ledger(origin, genesis, ledger, height);
    lemma_undone_by(ledger, (ledger.latest->0 - height) as nat);
    undoing_a_run_restores_the_ledger(base, genesis, candidate);
}

/// A candidate that does not win changes nothing.
pub proof fn losing_chain_changes_nothing(
    ledger: Ledger,
    genesis: GenesisView,
    height: u64,
    candidate: Seq<BlockView>,
)
    requires
        !candidate_wins(ledger, height, candidate),
    ensures
        reorg_outcome(ledger, genesis, height, candidate) == (
            ledger,
            Ok::<bool, BlockErrorView>(false),
        ),
{
}

/// A candidate that is adopted becomes the chain above the height where it forks off; below, the
/// chain stays.
pub proof fn adopted_chain_is_the_candidate(
    ledger: Ledger,
    genesis: GenesisView,
    height: u64,
    candidate: Seq<BlockView>,
)
    requires
        ledger.chained(),
        height <= ledger.latest->0,
        countable(candidate),
        reorg_outcome(ledger, genesis, height, candidate).1 == Ok::<bool, BlockErrorView>(true),
    ensures
        ({
            let after = reorg_outcome(ledger, genesis, height, candidate).0;
            &&& after.chained()
            &&& after.latest->0 == height + candidate.len()
            &&& blocks_above(after, height) == candidate
            &&& forall|h: u64| h <= height ==> #[trigger] after.blocks[h] == ledger.blocks[h]
        }),
{
    let n = (ledger.latest->0 - height) as nat;
    lemma_undone_by(ledger, n);
    let base = undone_to(ledger, height);
    lemma_extended_by(base, genesis, candidate);
    lemma_extended_blocks(base, genesis, candidate);
    let after = extended_by(base, genesis, candidate).0;
    assert(blocks_above(after, height) =~= candidate);
    assert forall|h: u64| h <= height implies #[trigger] after.blocks[h] == ledger.blocks[h] by {
        assert(base.blocks[h] == ledger.blocks[h]);
    }
}

/// A ledger that is the replay of its blocks still is after adopting another chain.
pub proof fn adopted_chain_keeps_the_replay(
    origin: Ledger,
    genesis: GenesisView,
    ledger: Ledger,
    height: u64,
    candidate: Seq<BlockView>,
)
    requires
        replays(origin, genesis, ledger),
        clean_run(origin, genesis, blocks_above(ledger, origin.latest->0)),
        origin.latest->0 <= height <= ledger.latest->0,
        countable(candidate),
        reorg_outcome(ledger, genesis, height, candidate).1 == Ok::<bool, BlockErrorView>(true),
    ensures
        replays(origin, genesis, reorg_outcome(ledger, genesis, height, candidate).0),
{
    let o = origin.latest->0;
    let n = height - o;
    let all = blocks_above(ledger, o);
    let low = all.take(n);
    let top = blocks_above(ledger, height);
    let after = reorg_outcome(ledger, genesis, height, candidate).0;
    adopted_chain_is_the_candidate(ledger, genesis, height, candidate);
    lemma_blocks_split(ledger, o, height);
    lemma_extended_prefix(origin, genesis, all, n);
    lemma_countable_parts(low, top);
    lemma_extended_by(origin, genesis, low);
    lemma_extended_concat(origin, genesis, low, top);
    lemma_clean_suffix(origin, genesis, low, top);
    let base = extended_by(origin, genesis, low).0;
    undoing_a_run_restores_the_ledger(base, genesis, top);
    assert(undone_to(ledger, height) == base);
    lemma_extended_concat(origin, genesis, low, candidate);
    lemma_blocks_split(after, o, height);
    assert(blocks_above(after, o).take(n) =~= low) by {
        assert forall|i: int| 0 <= i < n implies blocks_above(after, o)[i] == all[i] by {
            let h = (o + 1 + i) as u64;
            assert(after.blocks[h] == ledger.blocks[h]);
        }
    }
}

/// One stretch of chain beats another: it has more work, or as much and a smaller hash of its
/// last block.
pub open spec fn beats(a: Seq<BlockView>, b: Seq<BlockView>) -> bool {
    let x = total_work(targets_of(a));
    let y = total_work(targets_of(b));
    x > y || (x == y && be_value(a.last().hash()@) < be_value(b.last().hash()@))
}

/// A candidate wins exactly if it beats the local chain above the fork.
pub proof fn winning_is_beating_the_local_chain(
    ledger: Ledger,
    height: u64,
    candidate: Seq<BlockView>,
)
    requires
        ledger.chained(),
        height < ledger.latest->0,
    ensures
        candidate_wins(ledger, height, candidate) == beats(
            candidate,
            blocks_above(ledger, height),
        ),
{
    let local = blocks_above(ledger, height);
    assert(local.last() == ledger.tip()) by {
        assert(height + 1 + (local.len() - 1) == ledger.latest->0);
    }
}

/// Nodes that see two chains agree on which wins: of two chains that end in different hashes,
/// exactly one beats the other.
pub proof fn nodes_agree_on_the_winner(a: Seq<BlockView>, b: Seq<BlockView>)
    requires
        a.last().hash() != b.last().hash(),
    ensures
        beats(a, b) != beats(b, a),
{
    let x = a.last().hash();
    let y = b.last().hash();
    if be_value(x@) == be_value(y@) {
        lemma_be_value_bytes(x@);
        lemma_be_value_bytes(y@);
        lemma_array_ext(x, y);
    }
}

/// The winner among several chains does not depend on the order in which they arrive.
pub proof fn beating_is_transitive(a: Seq<BlockView>, b: Seq<BlockView>, c: Seq<BlockView>)
    requires
        beats(a, b),
        beats(b, c),
    ensures
        beats(a, c),
{
}

} // verus!
