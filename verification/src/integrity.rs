//! Whether what is stored is a chain: the blocks from height zero to the latest, and indices that
//! lead to them. A storage that nothing else has written to always holds one.

use vstd::prelude::*;

use crate::bytes::same_array;
use crate::chain::input_count;
use crate::codec::{block_hash, ids, lemma_block_encodable, txid};
use crate::kv::{Column, KvStore};
use crate::state::StateStore;
use crate::storage::{
    index_holds, is_failure, lemma_block_at, lemma_index_holds, RocksStorage, StorageError,
};
use crate::types::{transaction_views, Block, TransactionView};

verus! {

proof fn lemma_input_count_take(txs: Seq<TransactionView>, n: int)
    requires
        0 <= n <= txs.len(),
    ensures
        input_count(txs.take(n)) <= input_count(txs),
    decreases txs.len() - n,
{
    if n == txs.len() {
        assert(txs.take(n) =~= txs);
    } else {
        lemma_input_count_take(txs, n + 1);
        assert(txs.take(n + 1).drop_last() =~= txs.take(n));
    }
}

/// Whether the number of a block's inputs fits in 32 bits.
pub fn inputs_fit(block: &Block) -> (r: bool)
    ensures
        r == (input_count(block@.transactions) <= u32::MAX),
{
    let ghost txs = block@.transactions;
    let mut total: u32 = 0;
    let mut i: usize = 0;
    assert(txs.take(0) =~= Seq::<TransactionView>::empty());
    while i < block.transactions.len()
        invariant
            i <= block.transactions@.len(),
            txs == transaction_views(block.transactions@),
            total == input_count(txs.take(i as int)),
        decreases block.transactions.len() - i,
    {
        proof {
            assert(txs.take(i + 1).drop_last() =~= txs.take(i as int));
            assert(txs.take(i + 1).last() == block.transactions@[i as int]@);
            lemma_input_count_take(txs, i + 1);
        }
        let count: usize = block.transactions[i].inputs.len();
        if count > (u32::MAX - total) as usize {
            return false;
        }
        total += count as u32;
        i += 1;
    }
    assert(txs.take(txs.len() as int) =~= txs);
    true
}

/// Whether a block holds a transaction with an id.
pub fn holds_transaction(block: &Block, id: &[u8; 32]) -> (r: bool)
    requires
        block@.encodable(),
    ensures
        r == ids(block@.transactions).contains(*id),
{
    let ghost list = ids(block@.transactions);
    let mut i: usize = 0;
    while i < block.transactions.len()
        invariant
            i <= block.transactions@.len(),
            block@.encodable(),
            list == ids(block@.transactions),
            block@.transactions == transaction_views(block.transactions@),
            forall|j: int| 0 <= j < i ==> #[trigger] list[j] != *id,
        decreases block.transactions.len() - i,
    {
        proof {
            lemma_block_encodable(block@);
            assert(block@.transactions[i as int] == block.transactions@[i as int]@);
        }
        let this = txid(&block.transactions[i]);
        assert(list[i as int] == this);
        if same_array(&this, id) {
            return true;
        }
        i += 1;
    }
    false
}

fn none_above(heights: &Vec<u64>, top: u64) -> (r: bool)
    ensures
        r == forall|h: u64| #[trigger] heights@.contains(h) ==> h <= top,
{
    let mut i: usize = 0;
    while i < heights.len()
        invariant
            i <= heights@.len(),
            forall|j: int| 0 <= j < i ==> #[trigger] heights@[j] <= top,
        decreases heights.len() - i,
    {
        if heights[i] > top {
            assert(heights@.contains(heights@[i as int]));
            return false;
        }
        i += 1;
    }
    true
}

/// Whether what is stored is a chain whose indices lead to its blocks.
pub fn is_chained<D: KvStore>(storage: &RocksStorage<D>) -> (r: Result<bool, StorageError>)
    requires
        storage.wf(),
    ensures
        match r {
            Ok(good) => good == storage.ledger().chained(),
            Err(e) => is_failure(e@, storage.never_fails()),
        },
{
    let ghost ledger = storage.ledger();
    let latest: u64 = match storage.latest_height() {
        Ok(Some(latest)) => latest,
        Ok(None) => return Ok(false),
        Err(e) => return Err(e),
    };
    let stored = match storage.heights_in(Column::Blocks) {
        Ok(stored) => stored,
        Err(e) => return Err(e),
    };
    if !none_above(&stored, latest) {
        proof {
            let h = choose|h: u64| #[trigger] stored@.contains(h) && h > latest;
            assert(ledger.blocks.contains_key(h));
        }
        return Ok(false);
    }
    let undo = match storage.heights_in(Column::Undo) {
        Ok(undo) => undo,
        Err(e) => return Err(e),
    };
    if !none_above(&undo, latest) {
        proof {
            let h = choose|h: u64| #[trigger] undo@.contains(h) && h > latest;
            assert(ledger.undo.contains_key(h));
        }
        return Ok(false);
    }
    match blocks_stand(storage, latest) {
        Ok(true) => {},
        Ok(false) => return Ok(false),
        Err(e) => return Err(e),
    }
    assert forall|h: u64| #[trigger] ledger.blocks.contains_key(h) implies h <= latest by {
        assert(stored@.contains(h));
    }
    match hashes_lead(storage, latest) {
        Ok(true) => {},
        Ok(false) => return Ok(false),
        Err(e) => return Err(e),
    }
    match transactions_lead(storage, latest) {
        Ok(true) => {},
        Ok(false) => return Ok(false),
        Err(e) => return Err(e),
    }
    assert forall|h: u64| #[trigger] ledger.undo.contains_key(h) implies h <= latest by {
        assert(undo@.contains(h));
    }
    assert(ledger.chained());
    Ok(true)
}

/// Whether every height up to a latest one has a block that states it.
fn blocks_stand<D: KvStore>(storage: &RocksStorage<D>, latest: u64) -> (r: Result<
    bool,
    StorageError,
>)
    requires
        storage.wf(),
    ensures
        match r {
            Ok(good) => good == forall|h: u64|
                h <= latest ==> #[trigger] storage.ledger().blocks.contains_key(h)
                    && storage.ledger().blocks[h].header.height == h && input_count(
                    storage.ledger().blocks[h].transactions,
                ) <= u32::MAX,
            Err(e) => is_failure(e@, storage.never_fails()),
        },
{
    let ghost ledger = storage.ledger();
    let mut next: u64 = 0;
    loop
        invariant
            next <= latest,
            storage.wf(),
            ledger == storage.ledger(),
            forall|h: u64|
                h < next ==> #[trigger] ledger.blocks.contains_key(h)
                    && ledger.blocks[h].header.height == h && input_count(
                    ledger.blocks[h].transactions,
                ) <= u32::MAX,
        decreases latest - next,
    {
        proof {
            lemma_block_at(storage.kv(), next);
        }
        let block = match storage.get_block(next) {
            Ok(Some(block)) => block,
            Ok(None) => {
                assert(!ledger.blocks.contains_key(next));
                return Ok(false);
            },
            Err(e) => return Err(e),
        };
        if block.header.height != next || !inputs_fit(&block) {
            assert(ledger.blocks.contains_key(next));
            return Ok(false);
        }
        if next == latest {
            return Ok(true);
        }
        next += 1;
    }
}

/// Whether the entries of the index by hash lead to blocks with those hashes.
fn hashes_lead<D: KvStore>(storage: &RocksStorage<D>, latest: u64) -> (r: Result<
    bool,
    StorageError,
>)
    requires
        storage.wf(),
        forall|h: u64| h <= latest ==> #[trigger] storage.ledger().blocks.contains_key(h),
    ensures
        match r {
            Ok(good) => good == forall|x: [u8; 32]| #[trigger]
                storage.ledger().heights.contains_key(x) ==> storage.ledger().heights[x] <= latest
                    && storage.ledger().blocks[storage.ledger().heights[x]].hash() == x,
            Err(e) => is_failure(e@, storage.never_fails()),
        },
{
    let ghost ledger = storage.ledger();
    let entries = match storage.index_in(Column::BlockHashIndex) {
        Ok(entries) => entries,
        Err(e) => return Err(e),
    };
    let mut i: usize = 0;
    while i < entries.len()
        invariant
            i <= entries@.len(),
            storage.wf(),
            ledger == storage.ledger(),
            forall|h: u64| h <= latest ==> #[trigger] ledger.blocks.contains_key(h),
            forall|x: [u8; 32], h: u64| #[trigger]
                entries@.contains((x, h)) <==> ledger.heights.get(x) == Some(h),
            forall|j: int|
                0 <= j < i ==> (#[trigger] entries@[j]).1 <= latest
                    && ledger.blocks[entries@[j].1].hash() == entries@[j].0,
        decreases entries.len() - i,
    {
        let (hash, height) = entries[i];
        proof {
            assert(entries@.contains((hash, height)));
            assert(ledger.heights.contains_key(hash));
            assert(ledger.heights[hash] == height);
            lemma_block_at(storage.kv(), height);
        }
        if height > latest {
            return Ok(false);
        }
        assert(ledger.blocks.contains_key(height));
        match storage.get_block(height) {
            Ok(Some(block)) => {
                if !same_array(&block_hash(&block), &hash) {
                    return Ok(false);
                }
            },
            Ok(None) => return Ok(false),
            Err(e) => return Err(e),
        }
        i += 1;
    }
    proof {
        assert forall|x: [u8; 32]| #[trigger]
            ledger.heights.contains_key(x) implies ledger.heights[x] <= latest
            && ledger.blocks[ledger.heights[x]].hash() == x by {
            assert(entries@.contains((x, ledger.heights[x])));
            let j = choose|j: int|
                0 <= j < entries@.len() && entries@[j] == (x, ledger.heights[x]);
            assert(entries@[j].1 <= latest);
        }
    }
    Ok(true)
}

/// Whether the entries of the index by transaction id lead to blocks that hold the transactions.
fn transactions_lead<D: KvStore>(storage: &RocksStorage<D>, latest: u64) -> (r: Result<
    bool,
    StorageError,
>)
    requires
        storage.wf(),
        forall|h: u64| h <= latest ==> #[trigger] storage.ledger().blocks.contains_key(h),
    ensures
        match r {
            Ok(good) => good == forall|x: [u8; 32]| #[trigger]
                storage.ledger().tx_heights.contains_key(x) ==> storage.ledger().tx_heights[x]
                    <= latest && ids(
                    storage.ledger().blocks[storage.ledger().tx_heights[x]].transactions,
                ).contains(x),
            Err(e) => is_failure(e@, storage.never_fails()),
        },
{
    let ghost ledger = storage.ledger();
    let entries = match storage.index_in(Column::TxIndex) {
        Ok(entries) => entries,
        Err(e) => return Err(e),
    };
    let mut i: usize = 0;
    while i < entries.len()
        invariant
            i <= entries@.len(),
            storage.wf(),
            ledger == storage.ledger(),
            forall|h: u64| h <= latest ==> #[trigger] ledger.blocks.contains_key(h),
            forall|x: [u8; 32], h: u64| #[trigger]
                entries@.contains((x, h)) <==> ledger.tx_heights.get(x) == Some(h),
            forall|j: int|
                0 <= j < i ==> (#[trigger] entries@[j]).1 <= latest && ids(
                    ledger.blocks[entries@[j].1].transactions,
                ).contains(entries@[j].0),
        decreases entries.len() - i,
    {
        let (id, height) = entries[i];
        proof {
            assert(entries@.contains((id, height)));
            assert(ledger.tx_heights.contains_key(id));
            assert(ledger.tx_heights[id] == height);
            lemma_block_at(storage.kv(), height);
        }
        if height > latest {
            return Ok(false);
        }
        assert(ledger.blocks.contains_key(height));
        match storage.get_block(height) {
            Ok(Some(block)) => {
                if !holds_transaction(&block, &id) {
                    return Ok(false);
                }
            },
            Ok(None) => return Ok(false),
            Err(e) => return Err(e),
        }
        i += 1;
    }
    proof {
        assert forall|x: [u8; 32]| #[trigger]
            ledger.tx_heights.contains_key(x) implies ledger.tx_heights[x] <= latest && ids(
            ledger.blocks[ledger.tx_heights[x]].transactions,
        ).contains(x) by {
            assert(entries@.contains((x, ledger.tx_heights[x])));
            let j = choose|j: int|
                0 <= j < entries@.len() && entries@[j] == (x, ledger.tx_heights[x]);
            assert(entries@[j].1 <= latest);
        }
    }
    Ok(true)
}

/// In a chain the index leads from every transaction to the block that holds it, so that any
/// transaction may be asked for.
pub proof fn chained_index_holds<D: KvStore>(storage: &RocksStorage<D>, id: [u8; 32])
    requires
        storage.wf(),
        storage.ledger().chained(),
    ensures
        index_holds(storage.kv(), id),
{
    lemma_index_holds(storage.kv(), id);
}

} // verus!
