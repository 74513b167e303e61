//! What a node does with what its peers send: transactions, blocks, the ancestors of a block that
//! it does not know, and the blocks it is missing.
//!
//! Sending and receiving are left to the caller. Each function takes what came in, changes the
//! ledger or the pool as it should, and says what is to be done next.

use vstd::prelude::*;

use crate::bytes::same_array;
use crate::chain::{
    blocks_above, candidate_wins, commit_new_tip, extended_by, input_count, layer_of,
    lemma_input_count_skip, reorg_outcome, tip_outcome, try_reorg_to_chain, undone_to,
    BlockDiffView, BlockError, BlockErrorView,
};
use crate::codec::{block_hash, decode, decoded, encode};
use crate::encoding::{all_bytes, Canonical};
use crate::genesis::{lemma_retargets_by, Genesis, GenesisView};
use crate::history::adopted_chain_is_the_candidate;
use crate::kv::KvStore;
use crate::mempool::{admission, Mempool, MempoolError, MempoolView};
use crate::rules::winning_chain_is_adopted;
use crate::state::StateStore;
use crate::storage::{
    is_failure, lemma_block_at, lemma_block_with_hash, Ledger, RocksStorage, StorageError,
};
use crate::types::{
    block_views, Block, BlockView, OutPoint, Transaction, TransactionView, TxIn, TxOut,
};

verus! {

/// How many ancestors of a block a peer is asked for.
pub const MAX_BACKFILL_DEPTH: u32 = 20;

/// How many blocks one synchronisation takes from a peer at most.
pub const MAX_IBD_BLOCKS_PER_SYNC: u64 = 1_000_000;

/// How many blocks are asked for at a time during synchronisation.
pub const IBD_PIPELINE_WINDOW: u64 = 16;

/// An encoding has at least a byte for each input.
proof fn lemma_inputs_take_bytes(inputs: Seq<TxIn>)
    ensures
        all_bytes::<TxIn>(inputs).len() >= inputs.len(),
    decreases inputs.len(),
{
    if inputs.len() > 0 {
        lemma_inputs_take_bytes(inputs.skip(1));
        let i = inputs[0];
        assert(<TxIn as Canonical>::bytes(i).len() >= 64);
    }
}

proof fn lemma_transactions_take_bytes(txs: Seq<TransactionView>)
    ensures
        all_bytes::<Transaction>(txs).len() >= input_count(txs),
    decreases txs.len(),
{
    if txs.len() > 0 {
        let rest = txs.skip(1);
        lemma_transactions_take_bytes(rest);
        lemma_inputs_take_bytes(txs[0].inputs);
        lemma_input_count_skip(txs);
        assert(<Transaction as Canonical>::bytes(txs[0]).len() >= txs[0].inputs.len());
    }
}

/// A block has no more inputs than its encoding has bytes.
proof fn lemma_block_inputs(block: BlockView)
    ensures
        input_count(block.transactions) <= <Block as Canonical>::bytes(block).len(),
{
    lemma_transactions_take_bytes(block.transactions);
}

/// What came of a transaction from a peer.
#[derive(Debug, Clone, PartialEq, Eq)]
pub enum TxVerdict {
    /// The bytes are no transaction.
    Undecodable,
    /// It waits in the pool now.
    Admitted,
    /// The pool did not take it.
    NotAdmitted(MempoolError),
}

impl TxVerdict {
    /// Whether the message counts as valid for the peer that sent it. What the pool does not take
    /// may be a duplicate or just late; only bytes that are no transaction are held against the
    /// peer.
    pub fn counts_as_valid(&self) -> (r: bool)
        ensures
            r == !(self is Undecodable),
    {
        match self {
            TxVerdict::Undecodable => false,
            _ => true,
        }
    }
}

/// Decodes a transaction from a peer and puts it into the pool.
pub fn handle_inbound_transaction<S: StateStore>(
    store: &S,
    mempool: &mut Mempool,
    bytes: &[u8],
) -> (r: TxVerdict)
    requires
        store.wf(),
        old(mempool).wf(),
    ensures
        final(mempool).wf(),
        match decoded::<Transaction>(bytes@) {
            None => r is Undecodable && final(mempool)@ == old(mempool)@,
            Some(tx) => match admission(old(mempool)@, store.contents().utxos(), tx) {
                Ok(_) => r is Admitted && final(mempool)@ == (MempoolView {
                    pending: old(mempool)@.pending.push(tx),
                    ..old(mempool)@
                }),
                Err(e) => r is NotAdmitted && r->NotAdmitted_0@ == e && final(mempool)@ == old(
                    mempool)@,
            },
        },
{
    let tx = match decode::<Transaction>(bytes) {
        Ok(tx) => tx,
        Err(_) => return TxVerdict::Undecodable,
    };
    let ghost before = mempool@;
    match mempool.insert(store, tx) {
        Ok(_) => TxVerdict::Admitted,
        Err(e) => {
            assert(mempool@ =~= before);
            TxVerdict::NotAdmitted(e)
        },
    }
}

/// The answer to a peer that asks for the block at a height: its encoding, or nothing where there
/// is none or it cannot be read.
pub fn block_response<D: KvStore>(storage: &RocksStorage<D>, height: u64) -> (r: Option<Vec<u8>>)
    requires
        storage.wf(),
    ensures
        match r {
            Some(bytes) => storage.ledger().blocks.contains_key(height) && bytes@
                == <Block as Canonical>::bytes(storage.ledger().blocks[height]),
            None => !storage.ledger().blocks.contains_key(height) || !storage.never_fails(),
        },
{
    proof {
        lemma_block_at(storage.kv(), height);
    }
    match storage.get_block(height) {
        Ok(Some(block)) => Some(encode(&block)),
        _ => None,
    }
}

/// What came of a block from a peer.
#[derive(Debug)]
pub enum BlockVerdict {
    /// The bytes are no block.
    Undecodable,
    /// It extends the chain now.
    Accepted,
    /// It is the next block but not a valid one.
    Rejected(BlockError),
    /// The latest height or the block before it could not be read.
    NoTip,
    /// It replaced the latest block.
    SiblingAdopted,
    /// It competes with the latest block and does not win.
    SiblingIgnored,
    /// It competes with the latest block and would win, but is not valid.
    SiblingRejected(BlockError),
    /// It belongs to a chain whose ancestors have to be fetched.
    Orphan(Block),
}

impl BlockVerdict {
    /// Whether the message counts as valid for the peer that sent it. Where a block does not fit
    /// on the chain this is not known yet, and it does.
    pub fn counts_as_valid(&self) -> (r: bool)
        ensures
            r == !(self is Undecodable || self is Rejected),
    {
        match self {
            BlockVerdict::Undecodable => false,
            BlockVerdict::Rejected(_) => false,
            _ => true,
        }
    }

    /// Whether the peer that sent the block gets a strike for it.
    pub fn earns_a_strike(&self) -> (r: bool)
        ensures
            r == (self is Rejected || self is SiblingRejected),
    {
        match self {
            BlockVerdict::Rejected(_) => true,
            BlockVerdict::SiblingRejected(_) => true,
            _ => false,
        }
    }
}

/// The block does not fit directly on the chain.
pub open spec fn does_not_fit(e: BlockErrorView) -> bool {
    e is UnexpectedHeight || e is ParentMismatch
}

/// The height at which a competitor of the latest block forks off.
pub open spec fn below(height: u64) -> u64 {
    if height == 0 {
        0
    } else {
        (height - 1) as u64
    }
}

/// An error that a database gives when it fails, and nothing else does.
pub open spec fn is_database_error(e: BlockErrorView, reliable: bool) -> bool {
    e matches BlockErrorView::Storage(f) && is_failure(f, reliable)
}

/// A block competes with the latest one: it is at the same height and has the same parent.
pub open spec fn is_sibling(ledger: Ledger, block: BlockView) -> bool {
    &&& block.header.height == ledger.latest->0
    &&& block.header.parent_hash == ledger.blocks[below(ledger.latest->0)].hash()
}

/// What a block from a peer makes of the ledger, and what comes of it.
pub open spec fn inbound_outcome(ledger: Ledger, genesis: GenesisView, block: BlockView) -> (
    Ledger,
    BlockVerdictView,
) {
    let tip = ledger.latest->0;
    match tip_outcome(ledger, genesis, block) {
        Ok(diff) => (ledger.extended(block, diff), BlockVerdictView::Accepted),
        Err(e) => if !does_not_fit(e) {
            (ledger, BlockVerdictView::Rejected(e))
        } else if is_sibling(ledger, block) {
            let (reached, outcome) = reorg_outcome(ledger, genesis, below(tip), seq![block]);
            match outcome {
                Ok(true) => (reached, BlockVerdictView::SiblingAdopted),
                Ok(false) => (reached, BlockVerdictView::SiblingIgnored),
                Err(e) => (reached, BlockVerdictView::SiblingRejected(e)),
            }
        } else {
            (ledger, BlockVerdictView::Orphan(block))
        },
    }
}

/// [`BlockVerdict`] with its parts as models.
#[verifier::ext_equal]
pub enum BlockVerdictView {
    Undecodable,
    Accepted,
    Rejected(BlockErrorView),
    NoTip,
    SiblingAdopted,
    SiblingIgnored,
    SiblingRejected(BlockErrorView),
    Orphan(BlockView),
}

impl View for BlockVerdict {
    type V = BlockVerdictView;

    open spec fn view(&self) -> BlockVerdictView {
        match self {
            BlockVerdict::Undecodable => BlockVerdictView::Undecodable,
            BlockVerdict::Accepted => BlockVerdictView::Accepted,
            BlockVerdict::Rejected(e) => BlockVerdictView::Rejected(e@),
            BlockVerdict::NoTip => BlockVerdictView::NoTip,
            BlockVerdict::SiblingAdopted => BlockVerdictView::SiblingAdopted,
            BlockVerdict::SiblingIgnored => BlockVerdictView::SiblingIgnored,
            BlockVerdict::SiblingRejected(e) => BlockVerdictView::SiblingRejected(e@),
            BlockVerdict::Orphan(b) => BlockVerdictView::Orphan(b@),
        }
    }
}

/// Decodes a block from a peer and extends the chain with it, or replaces the latest block by it
/// if it is a child of the same parent and wins. Any other block is handed back as an orphan, for
/// its ancestors to be fetched. Where the database fails, the verdict says so: the block is
/// rejected with the database's own error, or the chain could not be read.
#[verifier::rlimit(60)]
#[verifier::spinoff_prover]
pub fn handle_inbound_block<D: KvStore>(
    storage: &mut RocksStorage<D>,
    genesis: &Genesis,
    bytes: &[u8],
) -> (r: BlockVerdict)
    requires
        old(storage).wf(),
        old(storage).ledger().chained(),
        old(storage).ledger().latest->0 < u64::MAX,
        genesis@.emits(),
        genesis@.retargets_by(old(storage).ledger().latest->0 + 1),
        bytes@.len() <= u32::MAX,
    ensures
        final(storage).wf(),
        final(storage).never_fails() == old(storage).never_fails(),
        final(storage).ledger().chained(),
        match decoded::<Block>(bytes@) {
            None => r is Undecodable && final(storage).kv() == old(storage).kv(),
            Some(block) => {
                let before = old(storage).ledger();
                let outcome = tip_outcome(before, genesis@, block);
                let as_judged = (final(storage).ledger(), r@) == inbound_outcome(
                    before,
                    genesis@,
                    block,
                );
                let reliable = old(storage).never_fails();
                match r {
                    BlockVerdict::Undecodable => false,
                    BlockVerdict::Rejected(e) => as_judged || (is_database_error(e@, reliable)
                        && final(storage).kv() == old(storage).kv()),
                    BlockVerdict::NoTip => {
                        &&& !reliable
                        &&& final(storage).kv() == old(storage).kv()
                        &&& outcome matches Err(e) && does_not_fit(e)
                    },
                    BlockVerdict::SiblingRejected(e) => as_judged || {
                        &&& is_database_error(e@, reliable)
                        &&& is_sibling(before, block)
                        &&& outcome matches Err(f) && does_not_fit(f)
                    },
                    _ => as_judged,
                }
            },
        },
        r matches BlockVerdict::Orphan(b) ==> b@.encodable() && input_count(b@.transactions)
            <= u32::MAX,
{
    let block = match decode::<Block>(bytes) {
        Ok(block) => block,
        Err(_) => return BlockVerdict::Undecodable,
    };
    proof {
        lemma_block_inputs(block@);
        let top = storage.ledger().latest->0 + 1;
        lemma_retargets_by(genesis@, top, top);
    }
    let height: u64 = block.header.height;
    match commit_new_tip(storage, genesis, &block) {
        Ok(_) => return BlockVerdict::Accepted,
        Err(BlockError::UnexpectedHeight { local: _, found: _ }) => {},
        Err(BlockError::ParentMismatch) => {},
        Err(e) => return BlockVerdict::Rejected(e),
    }
    let local_height: u64 = match storage.latest_height() {
        Ok(Some(h)) => h,
        _ => return BlockVerdict::NoTip,
    };
    if height == local_height {
        let fork_height: u64 = if local_height == 0 {
            0
        } else {
            local_height - 1
        };
        proof {
            lemma_block_at(storage.kv(), fork_height);
            assert(storage.ledger().blocks.contains_key(fork_height));
        }
        let parent_hash = match storage.get_block(fork_height) {
            Ok(Some(parent)) => block_hash(&parent),
            _ => return BlockVerdict::NoTip,
        };
        if !same_array(&block.header.parent_hash, &parent_hash) {
            return BlockVerdict::Orphan(block);
        }
        let mut candidate: Vec<Block> = Vec::new();
        candidate.push(block);
        assert(block_views(candidate@) =~= seq![block@]);
        return match try_reorg_to_chain(storage, genesis, fork_height, candidate) {
            Ok(true) => BlockVerdict::SiblingAdopted,
            Ok(false) => BlockVerdict::SiblingIgnored,
            Err(e) => BlockVerdict::SiblingRejected(e),
        };
    }
    BlockVerdict::Orphan(block)
}

/// A chain that is being put together backwards from a block whose parent is not known.
#[derive(Debug)]
pub struct Backfill {
    chain: Vec<Block>,
    lookups: u32,
}

/// What to do next for a chain that is being put together.
#[derive(Debug)]
pub enum BackfillStep {
    /// Ask the peer for the block at this height.
    Request(u64),
    /// The chain joins the local one: whether it replaced what was there.
    Joined(Result<bool, BlockError>),
    /// The store could not be read.
    StorageFailed(StorageError),
    /// The chain goes down to the first block without joining the local one.
    NoCommonAncestor,
    /// The chain goes further back than is followed.
    TooDeep,
}

/// What a peer's answer did for a chain that is being put together.
#[derive(Debug, Clone, Copy, PartialEq, Eq, Structural)]
pub enum BackfillReply {
    /// The chain is longer by the block.
    Extended,
    /// The peer does not have the block.
    Missing,
    /// The answer is no block.
    Undecodable,
}

impl BackfillReply {
    /// Whether the peer gets a strike for its answer.
    pub fn earns_a_strike(&self) -> (r: bool)
        ensures
            r == (*self == BackfillReply::Undecodable),
    {
        match self {
            BackfillReply::Undecodable => true,
            _ => false,
        }
    }
}

impl Backfill {
    /// The chain so far, the earliest block first.
    pub closed spec fn blocks(&self) -> Seq<BlockView> {
        block_views(self.chain@)
    }

    /// How many times an ancestor has been looked for.
    pub closed spec fn tries(&self) -> nat {
        self.lookups as nat
    }

    /// The chain has a block, and no more than were looked for.
    pub closed spec fn wf(&self) -> bool {
        &&& 1 <= self.chain@.len() <= self.lookups + 1
        &&& self.lookups <= MAX_BACKFILL_DEPTH
        &&& forall|i: int|
            0 <= i < self.chain@.len() ==> (#[trigger] self.chain@[i])@.encodable() && input_count(
                self.chain@[i]@.transactions,
            ) <= u32::MAX
    }

    /// Starts from a block whose parent is not known.
    pub fn start(block: Block) -> (r: Backfill)
        requires
            block@.encodable(),
            input_count(block@.transactions) <= u32::MAX,
        ensures
            r.wf(),
            r.blocks() == seq![block@],
            r.tries() == 0,
    {
        let mut chain: Vec<Block> = Vec::new();
        chain.push(block);
        let r = Backfill { chain, lookups: 0 };
        assert(r.blocks() =~= seq![block@]);
        r
    }

    /// Looks for the parent of the earliest block in the local chain. If it is there, the chain
    /// is tried against the local one from that parent on; if not, the next thing to ask for is
    /// the block at the height below.
    pub fn advance<D: KvStore>(&mut self, storage: &mut RocksStorage<D>, genesis: &Genesis) -> (r:
        BackfillStep)
        requires
            old(self).wf(),
            old(storage).wf(),
            old(storage).ledger().chained(),
            old(storage).ledger().latest->0 <= u64::MAX - MAX_BACKFILL_DEPTH - 1,
            genesis@.emits(),
            genesis@.retargets_by(old(storage).ledger().latest->0 + old(self).blocks().len()),
        ensures
            final(self).wf() || r is Joined,
            final(self).blocks() == if r is Joined {
                Seq::<BlockView>::empty()
            } else {
                old(self).blocks()
            },
            final(storage).wf(),
            final(storage).never_fails() == old(storage).never_fails(),
            final(storage).ledger().chained(),
            final(self).tries() == if old(self).tries() >= MAX_BACKFILL_DEPTH {
                old(self).tries()
            } else {
                old(self).tries() + 1
            },
            ({
                let before = old(storage).ledger();
                let earliest = old(self).blocks()[0];
                let parent = earliest.header.parent_hash;
                if old(self).tries() >= MAX_BACKFILL_DEPTH {
                    r is TooDeep && final(storage).kv() == old(storage).kv()
                } else if r is StorageFailed {
                    is_failure(r->StorageFailed_0@, old(storage).never_fails()) && final(storage).kv()
                        == old(storage).kv()
                } else if before.heights.contains_key(parent) {
                    let (reached, outcome) = reorg_outcome(
                        before,
                        genesis@,
                        before.heights[parent],
                        old(self).blocks(),
                    );
                    match r {
                        BackfillStep::Joined(Ok(b)) => final(storage).ledger() == reached
                            && outcome == Ok::<bool, BlockErrorView>(b),
                        BackfillStep::Joined(Err(e)) => (final(storage).ledger() == reached
                            && outcome == Err::<bool, BlockErrorView>(e@)) || is_database_error(
                            e@,
                            old(storage).never_fails(),
                        ),
                        _ => false,
                    }
                } else {
                    &&& final(storage).kv() == old(storage).kv()
                    &&& match r {
                        BackfillStep::NoCommonAncestor => earliest.header.height == 0,
                        BackfillStep::Request(height) => earliest.header.height > 0 && height
                            == earliest.header.height - 1,
                        _ => false,
                    }
                }
            }),
    {
        if self.lookups >= MAX_BACKFILL_DEPTH {
            return BackfillStep::TooDeep;
        }
        self.lookups = self.lookups + 1;
        let parent_hash = self.chain[0].header.parent_hash;
        let earliest_height: u64 = self.chain[0].header.height;
        let ghost ledger = storage.ledger();
        proof {
            assert(self.blocks()[0] == self.chain@[0]@);
            lemma_block_with_hash(storage.kv(), parent_hash);
            if ledger.heights.contains_key(parent_hash) {
                assert(ledger.blocks.contains_key(ledger.heights[parent_hash]));
            }
        }
        let ancestor = match storage.get_block_by_hash(&parent_hash) {
            Ok(ancestor) => ancestor,
            Err(e) => return BackfillStep::StorageFailed(e),
        };
        match ancestor {
            Some(ancestor) => {
                let fork_height: u64 = ancestor.header.height;
                let mut chain: Vec<Block> = Vec::new();
                core::mem::swap(&mut chain, &mut self.chain);
                BackfillStep::Joined(try_reorg_to_chain(storage, genesis, fork_height, chain))
            },
            None => {
                if earliest_height == 0 {
                    BackfillStep::NoCommonAncestor
                } else {
                    BackfillStep::Request(earliest_height - 1)
                }
            },
        }
    }

    /// Takes a peer's answer: a block that decodes goes in front of the chain.
    pub fn receive(&mut self, reply: Option<Vec<u8>>) -> (r: BackfillReply)
        requires
            old(self).wf(),
            old(self).blocks().len() <= old(self).tries(),
            reply is Some ==> reply->0@.len() <= u32::MAX,
        ensures
            final(self).wf(),
            final(self).tries() == old(self).tries(),
            match reply {
                None => r == BackfillReply::Missing && final(self).blocks() == old(self).blocks(),
                Some(bytes) => match decoded::<Block>(bytes@) {
                    None => r == BackfillReply::Undecodable && final(self).blocks() == old(
                        self).blocks(),
                    Some(block) => r == BackfillReply::Extended && final(self).blocks()
                        == seq![block] + old(self).blocks(),
                },
            },
    {
        let bytes = match reply {
            Some(bytes) => bytes,
            None => return BackfillReply::Missing,
        };
        let block = match decode::<Block>(bytes.as_slice()) {
            Ok(block) => block,
            Err(_) => return BackfillReply::Undecodable,
        };
        let ghost before = self.chain@;
        proof {
            lemma_block_inputs(block@);
        }
        self.chain.insert(0, block);
        proof {
            assert(self.chain@ =~= seq![block] + before);
            assert(self.blocks() =~= seq![block@] + block_views(before));
            assert forall|i: int| 0 <= i < self.chain@.len() implies (
            #[trigger] self.chain@[i])@.encodable() && input_count(self.chain@[i]@.transactions)
                <= u32::MAX by {
                if i > 0 {
                    assert(self.chain@[i] == before[i - 1]);
                }
            }
        }
        BackfillReply::Extended
    }
}

/// What came of a peer's answer during synchronisation.
#[derive(Debug)]
pub enum IbdStep {
    /// The block extends the chain; go on.
    Synced,
    /// The peer has no more blocks.
    UpToDate,
    /// The answer is no block.
    Undecodable,
    /// The block does not extend the chain.
    Rejected(BlockError),
}

impl IbdStep {
    /// Whether the peer gets a strike for its answer.
    pub fn earns_a_strike(&self) -> (r: bool)
        ensures
            r == (self is Undecodable || self is Rejected),
    {
        match self {
            IbdStep::Undecodable => true,
            IbdStep::Rejected(_) => true,
            _ => false,
        }
    }
}

/// A synchronisation with one peer.
#[derive(Debug)]
pub struct IbdSync {
    synced: u64,
}

impl IbdSync {
    /// How many blocks the peer has given so far.
    pub closed spec fn count(&self) -> nat {
        self.synced as nat
    }

    /// A synchronisation at its start.
    pub fn start() -> (r: IbdSync)
        ensures
            r.count() == 0,
    {
        IbdSync { synced: 0 }
    }

    /// How many blocks the peer has given so far.
    pub fn synced(&self) -> (r: u64)
        ensures
            r as nat == self.count(),
    {
        self.synced
    }

    /// The heights to ask for next, all at once: those above the local chain. `None` once the
    /// peer has given its share, or where the local height cannot be read.
    pub fn next_heights<D: KvStore>(&self, storage: &RocksStorage<D>) -> (r: Option<Vec<u64>>)
        requires
            storage.wf(),
            storage.ledger().latest is Some ==> storage.ledger().latest->0 <= u64::MAX
                - IBD_PIPELINE_WINDOW,
        ensures
            match r {
                Some(heights) => {
                    &&& self.count() < MAX_IBD_BLOCKS_PER_SYNC
                    &&& storage.ledger().latest is Some
                    &&& heights@ == Seq::new(
                        IBD_PIPELINE_WINDOW as nat,
                        |i: int| (storage.ledger().latest->0 + 1 + i) as u64,
                    )
                },
                None => self.count() >= MAX_IBD_BLOCKS_PER_SYNC || storage.ledger().latest is None
                    || !storage.never_fails(),
            },
    {
        if self.synced >= MAX_IBD_BLOCKS_PER_SYNC {
            return None;
        }
        let local_height: u64 = match storage.latest_height() {
            Ok(Some(height)) => height,
            _ => return None,
        };
        let mut heights: Vec<u64> = Vec::new();
        let mut i: u64 = 0;
        while i < IBD_PIPELINE_WINDOW
            invariant
                i <= IBD_PIPELINE_WINDOW,
                local_height <= u64::MAX - IBD_PIPELINE_WINDOW,
                heights@.len() == i,
                forall|k: int| 0 <= k < i ==> heights@[k] == local_height + 1 + k,
            decreases IBD_PIPELINE_WINDOW - i,
        {
            heights.push(local_height + 1 + i);
            i += 1;
        }
        assert(heights@ =~= Seq::new(
            IBD_PIPELINE_WINDOW as nat,
            |i: int| (local_height + 1 + i) as u64,
        ));
        Some(heights)
    }

    /// Takes one answer, in the order in which the heights were asked for: a block must extend
    /// the chain. Anything else ends the synchronisation.
    pub fn receive<D: KvStore>(
        &mut self,
        storage: &mut RocksStorage<D>,
        genesis: &Genesis,
        reply: Option<Vec<u8>>,
    ) -> (r: IbdStep)
        requires
            old(self).count() < u64::MAX,
            old(storage).wf(),
            old(storage).ledger().chained(),
            old(storage).ledger().latest->0 < u64::MAX,
            genesis@.emits(),
            genesis@.retargets_at(old(storage).ledger().latest->0 + 1),
            reply is Some ==> reply->0@.len() <= u32::MAX,
        ensures
            final(storage).wf(),
            final(storage).never_fails() == old(storage).never_fails(),
            final(storage).ledger().chained(),
            final(self).count() == if r is Synced {
                old(self).count() + 1
            } else {
                old(self).count()
            },
            !(r is Synced) ==> final(storage).kv() == old(storage).kv(),
            match reply {
                None => r is UpToDate,
                Some(bytes) => match decoded::<Block>(bytes@) {
                    None => r is Undecodable,
                    Some(block) => {
                        let outcome = tip_outcome(old(storage).ledger(), genesis@, block);
                        match r {
                            IbdStep::Synced => outcome is Ok && final(storage).ledger() == old(
                                storage).ledger().extended(block, outcome->Ok_0),
                            IbdStep::Rejected(e) => outcome == Err::<
                                BlockDiffView,
                                BlockErrorView,
                            >(e@) || is_database_error(e@, old(storage).never_fails()),
                            _ => false,
                        }
                    },
                },
            },
    {
        let bytes = match reply {
            Some(bytes) => bytes,
            None => return IbdStep::UpToDate,
        };
        let block = match decode::<Block>(bytes.as_slice()) {
            Ok(block) => block,
            Err(_) => return IbdStep::Undecodable,
        };
        proof {
            lemma_block_inputs(block@);
        }
        match commit_new_tip(storage, genesis, &block) {
            Ok(_) => {
                self.synced = self.synced + 1;
                IbdStep::Synced
            },
            Err(e) => IbdStep::Rejected(e),
        }
    }
}

/// A run of regular transactions fails for one of them, or for its fees.
proof fn lemma_layer_fails_for_its_transactions(
    base: Map<OutPoint, TxOut>,
    chain_id: Seq<char>,
    txs: Seq<TransactionView>,
)
    ensures
        layer_of(base, chain_id, txs) matches Err(e) ==> e is Transaction || e is Overflow,
    decreases txs.len(),
{
    if txs.len() > 0 {
        lemma_layer_fails_for_its_transactions(base, chain_id, txs.drop_last());
    }
}

/// A block fits on the latest one exactly if it has the next height and names it as its parent.
proof fn lemma_fits(ledger: Ledger, genesis: GenesisView, block: BlockView)
    ensures
        ({
            let latest = ledger.latest->0;
            let next = block.header.height == latest + 1 && block.header.parent_hash
                == ledger.blocks[latest].hash();
            &&& next ==> (tip_outcome(ledger, genesis, block) matches Err(e) ==> !does_not_fit(e))
            &&& !next ==> tip_outcome(ledger, genesis, block) is Err && does_not_fit(
                tip_outcome(ledger, genesis, block)->Err_0,
            )
        }),
{
    lemma_layer_fails_for_its_transactions(
        ledger.utxos,
        genesis.chain_id,
        block.transactions.skip(1),
    );
}

/// The next block on the latest one is accepted if it is valid, and is the latest one then;
/// otherwise it is rejected, and nothing changes.
pub proof fn next_block_is_accepted_or_rejected(
    ledger: Ledger,
    genesis: GenesisView,
    block: BlockView,
)
    requires
        ledger.latest is Some,
        block.header.height == ledger.latest->0 + 1,
        block.header.parent_hash == ledger.blocks[ledger.latest->0].hash(),
    ensures
        ({
            let (after, verdict) = inbound_outcome(ledger, genesis, block);
            &&& tip_outcome(ledger, genesis, block) is Ok ==> {
                &&& verdict == BlockVerdictView::Accepted
                &&& after.latest == Some(block.header.height)
                &&& after.blocks[block.header.height] == block
            }
            &&& tip_outcome(ledger, genesis, block) is Err ==> {
                &&& verdict == BlockVerdictView::Rejected(
                    tip_outcome(ledger, genesis, block)->Err_0,
                )
                &&& after == ledger
            }
        }),
{
    lemma_fits(ledger, genesis, block);
}

/// A block that competes with the latest one for the same parent takes its place exactly if it
/// wins and is valid. One that does not win changes nothing.
pub proof fn winning_sibling_takes_the_place_of_the_tip(
    ledger: Ledger,
    genesis: GenesisView,
    block: BlockView,
)
    requires
        ledger.chained(),
        ledger.latest->0 > 0,
        input_count(block.transactions) <= u32::MAX,
        block.header.height == ledger.latest->0,
        block.header.parent_hash == ledger.blocks[(ledger.latest->0 - 1) as u64].hash(),
    ensures
        ({
            let latest = ledger.latest->0;
            let fork = (latest - 1) as u64;
            let (after, verdict) = inbound_outcome(ledger, genesis, block);
            let wins = candidate_wins(ledger, fork, seq![block]);
            let valid = extended_by(undone_to(ledger, fork), genesis, seq![block]).1 is None;
            &&& wins && valid ==> verdict == BlockVerdictView::SiblingAdopted
            &&& wins && !valid ==> verdict is SiblingRejected
            &&& !wins ==> verdict == BlockVerdictView::SiblingIgnored && after == ledger
            &&& verdict is SiblingAdopted ==> {
                &&& after.latest == Some(latest)
                &&& after.blocks[latest] == block
                &&& forall|h: u64| h < latest ==> #[trigger] after.blocks[h] == ledger.blocks[h]
            }
        }),
{
    lemma_fits(ledger, genesis, block);
    let fork = (ledger.latest->0 - 1) as u64;
    let one = seq![block];
    winning_chain_is_adopted(ledger, genesis, fork, one);
    if reorg_outcome(ledger, genesis, fork, one).1 == Ok::<bool, BlockErrorView>(true) {
        assert(one[0] == block);
        adopted_chain_is_the_candidate(ledger, genesis, fork, one);
        let reached = reorg_outcome(ledger, genesis, fork, one).0;
        assert(blocks_above(reached, fork)[0] == block);
    }
}

/// A block that is neither the next one nor a competitor of the latest one is handed back, for its
/// ancestors to be asked for, and nothing changes.
pub proof fn block_from_elsewhere_is_handed_back(
    ledger: Ledger,
    genesis: GenesisView,
    block: BlockView,
)
    requires
        ledger.latest is Some,
        ledger.latest->0 > 0,
        block.header.height != ledger.latest->0 + 1 || block.header.parent_hash
            != ledger.blocks[ledger.latest->0].hash(),
        block.header.height != ledger.latest->0 || block.header.parent_hash != ledger.blocks[(
        ledger.latest->0 - 1) as u64].hash(),
    ensures
        inbound_outcome(ledger, genesis, block) == (ledger, BlockVerdictView::Orphan(block)),
{
    lemma_fits(ledger, genesis, block);
}

} // verus!
