//! How much there is: transactions create no value, and blocks add no more than the emission
//! schedule allows.

use vstd::prelude::*;

use crate::chain::{
    blocks_above, extended_by, layer_of, reorg_outcome, tip_outcome, undone_to, Layer,
};
use crate::collections::{has_key, inserted, lemma_inserted_key, lemma_inserted_other};
use crate::consensus::subsidy;
use crate::genesis::GenesisView;
use crate::history::{
    adopted_chain_keeps_the_replay, clean_run, countable, refused_chain_leaves_no_trace, replays,
    undone_ledger_keeps_the_replay,
};
use crate::state::{
    accepted_transaction_conserves_value, accepted_transaction_is_authorised, changed,
    consumed_outputs, created_outputs, lemma_same_gets, outputs_total, pairs_total, spent_outpoints,
    transaction_outcome,
};
use crate::storage::Ledger;
use crate::types::{BlockView, OutPoint, TransactionView, TxOut};

verus! {

/// The sum of what a set of outputs holds.
pub open spec fn total_value(m: Map<OutPoint, TxOut>) -> nat
    decreases m.dom().len(),
    when m.dom().finite()
{
    if m.dom().len() == 0 {
        0
    } else {
        let k = m.dom().choose();
        m[k].amount as nat + total_value(m.remove(k))
    }
}

/// Any output can be counted first.
proof fn lemma_total_remove(m: Map<OutPoint, TxOut>, k: OutPoint)
    requires
        m.dom().finite(),
        m.contains_key(k),
    ensures
        m.remove(k).dom().finite(),
        total_value(m) == m[k].amount as nat + total_value(m.remove(k)),
    decreases m.dom().len(),
{
    let c = m.dom().choose();
    assert(m.dom().len() > 0) by {
        if m.dom().len() == 0 {
            m.dom().lemma_len0_is_empty();
        }
    }
    assert(m.dom().contains(c));
    if c != k {
        lemma_total_remove(m.remove(c), k);
        lemma_total_remove(m.remove(k), c);
        assert(m.remove(c).remove(k) =~= m.remove(k).remove(c));
    }
}

/// Putting an output in adds at most what it holds.
proof fn lemma_total_insert(m: Map<OutPoint, TxOut>, k: OutPoint, v: TxOut)
    requires
        m.dom().finite(),
    ensures
        m.insert(k, v).dom().finite(),
        total_value(m.insert(k, v)) <= total_value(m) + v.amount as nat,
{
    let after = m.insert(k, v);
    lemma_total_remove(after, k);
    if m.contains_key(k) {
        lemma_total_remove(m, k);
        assert(after.remove(k) =~= m.remove(k));
    } else {
        assert(after.remove(k) =~= m);
    }
}

proof fn lemma_total_inserted(m: Map<OutPoint, TxOut>, pairs: Seq<(OutPoint, TxOut)>)
    requires
        m.dom().finite(),
    ensures
        inserted(m, pairs).dom().finite(),
        total_value(inserted(m, pairs)) <= total_value(m) + pairs_total(pairs),
    decreases pairs.len(),
{
    if pairs.len() > 0 {
        lemma_total_inserted(m, pairs.drop_last());
        lemma_total_insert(inserted(m, pairs.drop_last()), pairs.last().0, pairs.last().1);
    }
}

/// Taking different outputs out takes away what they hold.
proof fn lemma_total_removed(
    m: Map<OutPoint, TxOut>,
    keys: Seq<OutPoint>,
    pairs: Seq<(OutPoint, TxOut)>,
)
    requires
        m.dom().finite(),
        keys.no_duplicates(),
        pairs.len() == keys.len(),
        forall|i: int|
            0 <= i < keys.len() ==> m.contains_key(#[trigger] keys[i]) && pairs[i] == (
                keys[i],
                m[keys[i]],
            ),
    ensures
        m.remove_keys(keys.to_set()).dom().finite(),
        total_value(m.remove_keys(keys.to_set())) + pairs_total(pairs) == total_value(m),
    decreases keys.len(),
{
    if keys.len() == 0 {
        assert(m.remove_keys(keys.to_set()) =~= m);
    } else {
        let front = keys.drop_last();
        let k = keys.last();
        let n = keys.len() - 1;
        assert forall|i: int| 0 <= i < front.len() implies m.contains_key(#[trigger] front[i])
            && pairs.drop_last()[i] == (front[i], m[front[i]]) by {
            assert(front[i] == keys[i]);
        }
        lemma_total_removed(m, front, pairs.drop_last());
        let rest = m.remove_keys(front.to_set());
        assert(keys[n] == k);
        assert(!front.to_set().contains(k)) by {
            if front.contains(k) {
                let i = choose|i: int| 0 <= i < front.len() && front[i] == k;
                assert(keys[i] == keys[n]);
            }
        }
        lemma_total_remove(rest, k);
        assert forall|x: OutPoint| #[trigger]
            keys.to_set().contains(x) == (front.to_set().contains(x) || x == k) by {
            if front.contains(x) {
                let i = choose|i: int| 0 <= i < front.len() && front[i] == x;
                assert(keys[i] == x);
            }
            if keys.contains(x) {
                let i = choose|i: int| 0 <= i < keys.len() && keys[i] == x;
                if i < n {
                    assert(front[i] == x);
                }
            }
        }
        assert(rest.remove(k) =~= m.remove_keys(keys.to_set()));
        assert(pairs.last() == pairs[n]);
    }
}

/// What a transaction creates sums to its outputs.
proof fn lemma_created_total(tx: TransactionView, n: int)
    requires
        0 <= n <= tx.outputs.len(),
    ensures
        pairs_total(created_outputs(tx).take(n)) == outputs_total(tx.outputs.take(n)),
    decreases n,
{
    let pairs = created_outputs(tx);
    if n == 0 {
        assert(pairs.take(0) =~= Seq::<(OutPoint, TxOut)>::empty());
        assert(tx.outputs.take(0) =~= Seq::<TxOut>::empty());
    } else {
        lemma_created_total(tx, n - 1);
        assert(pairs.take(n).drop_last() =~= pairs.take(n - 1));
        assert(tx.outputs.take(n).drop_last() =~= tx.outputs.take(n - 1));
        assert(pairs.take(n).last() == pairs[n - 1]);
    }
}

/// Applying a transaction creates no value: what is there afterwards, with the fee, is no more
/// than what was there before.
proof fn lemma_transaction_total(
    seen: Map<OutPoint, TxOut>,
    all: Map<OutPoint, TxOut>,
    tx: TransactionView,
    chain_id: Seq<char>,
)
    requires
        all.dom().finite(),
        seen.submap_of(all),
        transaction_outcome(seen, tx, chain_id) is Ok,
    ensures
        changed(all, spent_outpoints(tx), created_outputs(tx)).dom().finite(),
        total_value(changed(all, spent_outpoints(tx), created_outputs(tx)))
            + transaction_outcome(seen, tx, chain_id)->Ok_0.fee <= total_value(all),
{
    let keys = spent_outpoints(tx);
    let pairs = consumed_outputs(seen, tx);
    accepted_transaction_is_authorised(seen, tx, chain_id);
    accepted_transaction_conserves_value(seen, tx, chain_id);
    assert forall|i: int, j: int| 0 <= i < keys.len() && 0 <= j < keys.len() && i != j implies keys[i]
        != keys[j] by {
        if i < j {
            assert(tx.inputs[i].prev_out != tx.inputs[j].prev_out);
        } else {
            assert(tx.inputs[j].prev_out != tx.inputs[i].prev_out);
        }
    }
    assert forall|i: int| 0 <= i < keys.len() implies all.contains_key(#[trigger] keys[i])
        && pairs[i] == (keys[i], all[keys[i]]) by {
        let op = tx.inputs[i].prev_out;
        assert(keys[i] == op);
        assert(seen.contains_key(op));
        assert(seen.dom().contains(op));
    }
    lemma_total_removed(all, keys, pairs);
    let kept = all.remove_keys(keys.to_set());
    lemma_total_inserted(kept, created_outputs(tx));
    lemma_created_total(tx, tx.outputs.len() as int);
    assert(created_outputs(tx).take(tx.outputs.len() as int) =~= created_outputs(tx));
    assert(tx.outputs.take(tx.outputs.len() as int) =~= tx.outputs);
}

/// Applying a regular transaction creates no value: the unspent outputs afterwards, together with
/// the fee, hold no more than those before.
pub proof fn transaction_creates_no_value(
    utxos: Map<OutPoint, TxOut>,
    tx: TransactionView,
    chain_id: Seq<char>,
)
    requires
        utxos.dom().finite(),
        transaction_outcome(utxos, tx, chain_id) is Ok,
    ensures
        total_value(changed(utxos, spent_outpoints(tx), created_outputs(tx)))
            + transaction_outcome(utxos, tx, chain_id)->Ok_0.fee <= total_value(utxos),
{
    lemma_transaction_total(utxos, utxos, tx, chain_id);
}

/// The outputs with the changes of a layer written to them.
pub open spec fn written(base: Map<OutPoint, TxOut>, layer: Layer) -> Map<OutPoint, TxOut> {
    base.remove_keys(layer.spent).union_prefer_right(layer.created)
}

proof fn lemma_layer_total(
    base: Map<OutPoint, TxOut>,
    chain_id: Seq<char>,
    txs: Seq<TransactionView>,
)
    requires
        base.dom().finite(),
        layer_of(base, chain_id, txs) is Ok,
    ensures
        ({
            let layer = layer_of(base, chain_id, txs)->Ok_0;
            &&& written(base, layer).dom().finite()
            &&& total_value(written(base, layer)) + layer.fees <= total_value(base)
        }),
    decreases txs.len(),
{
    let layer = layer_of(base, chain_id, txs)->Ok_0;
    if txs.len() == 0 {
        assert(written(base, layer) =~= base);
    } else {
        let front = txs.drop_last();
        let tx = txs.last();
        lemma_layer_total(base, chain_id, front);
        let before = layer_of(base, chain_id, front)->Ok_0;
        let all = written(base, before);
        let seen = before.over(base);
        assert(seen.submap_of(all)) by {
            assert forall|k: OutPoint| #[trigger] seen.dom().contains(k) implies all.dom().contains(
                k,
            ) && all[k] == seen[k] by {}
        }
        lemma_transaction_total(seen, all, tx, chain_id);
        let keys = spent_outpoints(tx);
        let new = created_outputs(tx);
        let lhs = changed(all, keys, new);
        let rhs = written(base, layer);
        assert forall|k: OutPoint| #[trigger] lhs.get(k) == rhs.get(k) by {
            let kept = all.remove_keys(keys.to_set());
            let own = before.created.remove_keys(keys.to_set());
            if has_key(new, k) {
                lemma_inserted_key(kept, own, new, k);
                assert(layer.created.contains_key(k));
            } else {
                lemma_inserted_other(kept, new, k);
                lemma_inserted_other(own, new, k);
                assert(layer.created.get(k) == own.get(k));
            }
        }
        lemma_same_gets(lhs, rhs);
    }
}

/// A valid block adds no more than the subsidy of its height: what is unspent after it holds at
/// most what was unspent before, plus the subsidy.
pub proof fn block_adds_at_most_the_subsidy(
    ledger: Ledger,
    genesis: GenesisView,
    block: BlockView,
)
    requires
        ledger.utxos.dom().finite(),
        tip_outcome(ledger, genesis, block) is Ok,
    ensures
        ({
            let next = ledger.extended(block, tip_outcome(ledger, genesis, block)->Ok_0);
            &&& next.utxos.dom().finite()
            &&& total_value(next.utxos) <= total_value(ledger.utxos) + subsidy(
                block.header.height as nat,
                genesis.subsidy_schedule,
                genesis.subsidy_period_blocks as nat,
            )
        }),
{
    let diff = tip_outcome(ledger, genesis, block)->Ok_0;
    let rest = block.transactions.skip(1);
    let coinbase = block.transactions[0];
    lemma_layer_total(ledger.utxos, genesis.chain_id, rest);
    let layer = layer_of(ledger.utxos, genesis.chain_id, rest)->Ok_0;
    let all = written(ledger.utxos, layer);
    let new = created_outputs(coinbase);
    let next = ledger.extended(block, diff);
    lemma_total_inserted(all, new);
    lemma_created_total(coinbase, coinbase.outputs.len() as int);
    assert(new.take(coinbase.outputs.len() as int) =~= new);
    assert(coinbase.outputs.take(coinbase.outputs.len() as int) =~= coinbase.outputs);
    let lhs = inserted(all, new);
    let rhs = next.utxos;
    assert forall|k: OutPoint| #[trigger] lhs.get(k) == rhs.get(k) by {
        if has_key(new, k) {
            lemma_inserted_key(all, layer.created, new, k);
            assert(diff.created.contains_key(k));
        } else {
            lemma_inserted_other(all, new, k);
            lemma_inserted_other(layer.created, new, k);
            assert(diff.created.get(k) == layer.created.get(k));
        }
    }
    lemma_same_gets(lhs, rhs);
}

/// The subsidies of `count` blocks from height `from` on.
pub open spec fn emission(genesis: GenesisView, from: nat, count: nat) -> nat
    decreases count,
{
    if count == 0 {
        0
    } else {
        emission(genesis, from, (count - 1) as nat) + subsidy(
            (from + count - 1) as nat,
            genesis.subsidy_schedule,
            genesis.subsidy_period_blocks as nat,
        )
    }
}

/// The supply keeps to the emission schedule: extending a chain adds at most the subsidies of the
/// heights it gains.
pub proof fn supply_keeps_to_the_emission(
    ledger: Ledger,
    genesis: GenesisView,
    blocks: Seq<BlockView>,
)
    requires
        ledger.utxos.dom().finite(),
        ledger.latest is Some,
    ensures
        ({
            let reached = extended_by(ledger, genesis, blocks).0;
            &&& reached.utxos.dom().finite()
            &&& reached.latest is Some
            &&& reached.latest->0 >= ledger.latest->0
            &&& total_value(reached.utxos) <= total_value(ledger.utxos) + emission(
                genesis,
                (ledger.latest->0 + 1) as nat,
                (reached.latest->0 - ledger.latest->0) as nat,
            )
        }),
    decreases blocks.len(),
{
    if blocks.len() > 0 {
        supply_keeps_to_the_emission(ledger, genesis, blocks.drop_last());
        let (reached, error) = extended_by(ledger, genesis, blocks.drop_last());
        if error is None && tip_outcome(reached, genesis, blocks.last()) is Ok {
            block_adds_at_most_the_subsidy(reached, genesis, blocks.last());
        }
    }
}

/// What is unspent in a ledger holds no more than what was unspent at `origin` plus the subsidies
/// of the heights above it.
pub open spec fn keeps_to_the_emission(
    origin: Ledger,
    genesis: GenesisView,
    ledger: Ledger,
) -> bool {
    &&& ledger.utxos.dom().finite()
    &&& ledger.latest->0 >= origin.latest->0
    &&& total_value(ledger.utxos) <= total_value(origin.utxos) + emission(
        genesis,
        (origin.latest->0 + 1) as nat,
        (ledger.latest->0 - origin.latest->0) as nat,
    )
}

/// The supply of a ledger that is the replay of its blocks keeps to the emission schedule.
pub proof fn replayed_supply_keeps_to_the_emission(
    origin: Ledger,
    genesis: GenesisView,
    ledger: Ledger,
)
    requires
        origin.utxos.dom().finite(),
        replays(origin, genesis, ledger),
    ensures
        keeps_to_the_emission(origin, genesis, ledger),
{
    supply_keeps_to_the_emission(
        origin,
        genesis,
        blocks_above(ledger, origin.latest->0),
    );
}

/// Undoing blocks takes the supply back with them: it keeps to the emission of the heights that
/// are left.
pub proof fn undoing_keeps_to_the_emission(
    origin: Ledger,
    genesis: GenesisView,
    ledger: Ledger,
    height: u64,
)
    requires
        origin.utxos.dom().finite(),
        replays(origin, genesis, ledger),
        clean_run(origin, genesis, blocks_above(ledger, origin.latest->0)),
        origin.latest->0 <= height <= ledger.latest->0,
    ensures
        keeps_to_the_emission(origin, genesis, undone_to(ledger, height)),
{
    undone_ledger_keeps_the_replay(origin, genesis, ledger, height);
    replayed_supply_keeps_to_the_emission(origin, genesis, undone_to(ledger, height));
}

/// Trying to replace the chain above a height by another keeps the supply to the emission
/// schedule, whether the candidate loses, is adopted or is refused.
pub proof fn reorganising_keeps_to_the_emission(
    origin: Ledger,
    genesis: GenesisView,
    ledger: Ledger,
    height: u64,
    candidate: Seq<BlockView>,
)
    requires
        origin.utxos.dom().finite(),
        replays(origin, genesis, ledger),
        clean_run(origin, genesis, blocks_above(ledger, origin.latest->0)),
        origin.latest->0 <= height <= ledger.latest->0,
        countable(candidate),
        clean_run(undone_to(ledger, height), genesis, candidate),
    ensures
        keeps_to_the_emission(
            origin,
            genesis,
            reorg_outcome(ledger, genesis, height, candidate).0,
        ),
{
    let (after, outcome) = reorg_outcome(ledger, genesis, height, candidate);
    match outcome {
        Err(_) => {
            refused_chain_leaves_no_trace(origin, genesis, ledger, height, candidate);
        },
        Ok(true) => {
            adopted_chain_keeps_the_replay(origin, genesis, ledger, height, candidate);
        },
        Ok(false) => {},
    }
    replayed_supply_keeps_to_the_emission(origin, genesis, after);
}

} // verus!
