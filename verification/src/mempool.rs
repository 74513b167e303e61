//! Transactions waiting to be mined.
//!
//! A transaction is admitted if it could be applied to the current set of unspent outputs and no
//! other pending transaction spends one of its outputs. Admission is not the last word: the
//! miner applies what it takes, and drops what is no longer valid by then.

use std::collections::VecDeque;

use vstd::prelude::*;

use crate::codec::{signing_bytes, signing_preimage, txid};
use crate::collections::VecMap;
use crate::state::{
    check_inputs, consumed_outputs, first_fault, inputs_are_distinct, names_an_unknown,
    outputs_total, pairs_total, repeats_an_outpoint, spent_outpoints, sum_outputs, sum_pairs,
    transaction_outcome, SpendFault, StateErrorView, StateStore,
};
use crate::text::same_text;
use crate::types::{transaction_views, OutPoint, Transaction, TransactionView, TxIn, TxOut};

verus! {

/// Why a transaction is not admitted.
#[derive(Debug, Clone, PartialEq, Eq)]
pub enum MempoolError {
    InvalidPublicKey,
    AddressMismatch,
    InvalidSignature,
    WrongChainId { expected: String, found: String },
    NoInputs,
    CoinbaseNotAllowed,
    DuplicateInput,
    UnknownOutpoint,
    OutpointAlreadyClaimed,
    AlreadyInMempool,
    InsufficientInputs { available: u128, required: u128 },
    Overflow,
    Full,
}

/// [`MempoolError`] with its texts as character sequences.
#[verifier::ext_equal]
pub enum MempoolErrorView {
    InvalidPublicKey,
    AddressMismatch,
    InvalidSignature,
    WrongChainId { expected: Seq<char>, found: Seq<char> },
    NoInputs,
    CoinbaseNotAllowed,
    DuplicateInput,
    UnknownOutpoint,
    OutpointAlreadyClaimed,
    AlreadyInMempool,
    InsufficientInputs { available: u128, required: u128 },
    Overflow,
    Full,
}

impl View for MempoolError {
    type V = MempoolErrorView;

    open spec fn view(&self) -> MempoolErrorView {
        match self {
            MempoolError::InvalidPublicKey => MempoolErrorView::InvalidPublicKey,
            MempoolError::AddressMismatch => MempoolErrorView::AddressMismatch,
            MempoolError::InvalidSignature => MempoolErrorView::InvalidSignature,
            MempoolError::WrongChainId { expected, found } => MempoolErrorView::WrongChainId {
                expected: expected@,
                found: found@,
            },
            MempoolError::NoInputs => MempoolErrorView::NoInputs,
            MempoolError::CoinbaseNotAllowed => MempoolErrorView::CoinbaseNotAllowed,
            MempoolError::DuplicateInput => MempoolErrorView::DuplicateInput,
            MempoolError::UnknownOutpoint => MempoolErrorView::UnknownOutpoint,
            MempoolError::OutpointAlreadyClaimed => MempoolErrorView::OutpointAlreadyClaimed,
            MempoolError::AlreadyInMempool => MempoolErrorView::AlreadyInMempool,
            MempoolError::InsufficientInputs {
                available,
                required,
            } => MempoolErrorView::InsufficientInputs {
                available: *available,
                required: *required,
            },
            MempoolError::Overflow => MempoolErrorView::Overflow,
            MempoolError::Full => MempoolErrorView::Full,
        }
    }
}

/// A spending fault as an error of this module.
pub open spec fn mempool_fault(f: SpendFault) -> MempoolErrorView {
    match f {
        SpendFault::UnknownOutpoint => MempoolErrorView::UnknownOutpoint,
        SpendFault::InvalidPublicKey => MempoolErrorView::InvalidPublicKey,
        SpendFault::AddressMismatch => MempoolErrorView::AddressMismatch,
        SpendFault::InvalidSignature => MempoolErrorView::InvalidSignature,
    }
}

impl MempoolError {
    fn from_fault(f: SpendFault) -> (r: MempoolError)
        ensures
            r@ == mempool_fault(f),
    {
        match f {
            SpendFault::UnknownOutpoint => MempoolError::UnknownOutpoint,
            SpendFault::InvalidPublicKey => MempoolError::InvalidPublicKey,
            SpendFault::AddressMismatch => MempoolError::AddressMismatch,
            SpendFault::InvalidSignature => MempoolError::InvalidSignature,
        }
    }
}

/// The most transactions that wait at once by default.
pub const MAX_MEMPOOL_SIZE: usize = 10_000;

/// What a pool holds.
#[verifier::ext_equal]
pub struct MempoolView {
    pub chain_id: Seq<char>,
    /// The waiting transactions in the order in which they were admitted.
    pub pending: Seq<TransactionView>,
    pub max_size: nat,
}

/// One of the transactions spends `outpoint`.
pub open spec fn claims(pending: Seq<TransactionView>, outpoint: OutPoint) -> bool {
    exists|i: int, j: int|
        0 <= i < pending.len() && 0 <= j < pending[i].inputs.len() && (
        #[trigger] pending[i].inputs[j]).prev_out == outpoint
}

/// One of the transactions has the id `id`.
pub open spec fn holds_id(pending: Seq<TransactionView>, id: [u8; 32]) -> bool {
    exists|i: int| 0 <= i < pending.len() && (#[trigger] pending[i]).id() == id
}

/// The first input that spends what a pending transaction spends already, or what is not there.
pub open spec fn first_unavailable(
    pending: Seq<TransactionView>,
    utxos: Map<OutPoint, TxOut>,
    inputs: Seq<TxIn>,
) -> Option<MempoolErrorView>
    decreases inputs.len(),
{
    if inputs.len() == 0 {
        None
    } else {
        match first_unavailable(pending, utxos, inputs.drop_last()) {
            Some(e) => Some(e),
            None => if claims(pending, inputs.last().prev_out) {
                Some(MempoolErrorView::OutpointAlreadyClaimed)
            } else if !utxos.contains_key(inputs.last().prev_out) {
                Some(MempoolErrorView::UnknownOutpoint)
            } else {
                None
            },
        }
    }
}

/// Whether what a transaction's inputs hold covers its outputs.
pub open spec fn coverage(utxos: Map<OutPoint, TxOut>, tx: TransactionView) -> Result<
    (),
    MempoolErrorView,
> {
    let available = pairs_total(consumed_outputs(utxos, tx));
    let required = outputs_total(tx.outputs);
    if available > u128::MAX || required > u128::MAX {
        Err(MempoolErrorView::Overflow)
    } else if required > available {
        Err(
            MempoolErrorView::InsufficientInputs {
                available: available as u128,
                required: required as u128,
            },
        )
    } else {
        Ok(())
    }
}

/// Whether a pool admits a transaction, or why not.
pub open spec fn admission(
    pool: MempoolView,
    utxos: Map<OutPoint, TxOut>,
    tx: TransactionView,
) -> Result<(), MempoolErrorView> {
    if pool.pending.len() >= pool.max_size {
        Err(MempoolErrorView::Full)
    } else if tx.is_coinbase() {
        Err(MempoolErrorView::CoinbaseNotAllowed)
    } else if tx.inputs.len() == 0 {
        Err(MempoolErrorView::NoInputs)
    } else if tx.chain_id != pool.chain_id {
        Err(MempoolErrorView::WrongChainId { expected: pool.chain_id, found: tx.chain_id })
    } else if holds_id(pool.pending, tx.id()) {
        Err(MempoolErrorView::AlreadyInMempool)
    } else if repeats_an_outpoint(tx.inputs) {
        Err(MempoolErrorView::DuplicateInput)
    } else {
        match first_unavailable(pool.pending, utxos, tx.inputs) {
            Some(e) => Err(e),
            None => match first_fault(
                consumed_outputs(utxos, tx),
                signing_preimage(tx),
                tx.inputs,
            ) {
                Some(f) => Err(mempool_fault(f)),
                None => coverage(utxos, tx),
            },
        }
    }
}

/// The pool. It lives in memory; what waits is lost with the process.
#[derive(Debug)]
pub struct Mempool {
    chain_id: String,
    txs: VecMap<[u8; 32], Transaction>,
    // The id of the pending transaction that spends each outpoint.
    claimed_by: VecMap<OutPoint, [u8; 32]>,
    order: VecDeque<[u8; 32]>,
    max_size: usize,
}

impl View for Mempool {
    type V = MempoolView;

    closed spec fn view(&self) -> MempoolView {
        MempoolView {
            chain_id: self.chain_id@,
            pending: self.order@.map_values(|id: [u8; 32]| self.txs@[id]@),
            max_size: self.max_size as nat,
        }
    }
}

/// A transaction that is no coinbase, has inputs and is for this chain.
pub open spec fn regular(tx: TransactionView, chain_id: Seq<char>) -> bool {
    &&& !tx.is_coinbase()
    &&& tx.inputs.len() > 0
    &&& tx.chain_id == chain_id
}

/// No two inputs of pending transactions spend the same output.
pub open spec fn claims_are_disjoint(pending: Seq<TransactionView>) -> bool {
    forall|a: int, i: int, b: int, j: int|
        0 <= a < pending.len() && 0 <= b < pending.len() && 0 <= i < pending[a].inputs.len() && 0
            <= j < pending[b].inputs.len() && (a != b || i != j) ==> (
        #[trigger] pending[a].inputs[i]).prev_out != (#[trigger] pending[b].inputs[j]).prev_out
}

impl Mempool {
    /// Every waiting transaction is stored once under its id, and the claims are those of the
    /// waiting transactions.
    pub closed spec fn wf(&self) -> bool {
        &&& self.txs.wf()
        &&& self.claimed_by.wf()
        &&& self.order@.no_duplicates()
        &&& self.order@.len() <= self.max_size
        &&& forall|id: [u8; 32]| self.txs@.contains_key(id) <==> self.order@.contains(id)
        &&& forall|i: int|
            0 <= i < self.order@.len() ==> {
                &&& (#[trigger] self@.pending[i]).encodable()
                &&& regular(self@.pending[i], self.chain_id@)
                &&& self@.pending[i].id() == self.order@[i]
            }
        &&& claims_are_disjoint(self@.pending)
        &&& forall|op: OutPoint| #[trigger]
            self.claimed_by@.contains_key(op) <==> claims(self@.pending, op)
    }

    /// An empty pool of the default size.
    pub fn new(chain_id: String) -> (r: Mempool)
        ensures
            r.wf(),
            r@.chain_id == chain_id@,
            r@.pending == Seq::<TransactionView>::empty(),
            r@.max_size == MAX_MEMPOOL_SIZE,
    {
        Mempool::with_max_size(chain_id, MAX_MEMPOOL_SIZE)
    }

    /// An empty pool that holds at most `max_size` transactions.
    pub fn with_max_size(chain_id: String, max_size: usize) -> (r: Mempool)
        ensures
            r.wf(),
            r@.chain_id == chain_id@,
            r@.pending == Seq::<TransactionView>::empty(),
            r@.max_size == max_size,
    {
        let r = Mempool {
            chain_id,
            txs: VecMap::new(),
            claimed_by: VecMap::new(),
            order: VecDeque::new(),
            max_size,
        };
        assert(r@.pending =~= Seq::<TransactionView>::empty());
        r
    }

    /// How many transactions wait.
    pub fn len(&self) -> (r: usize)
        ensures
            r == self@.pending.len(),
    {
        self.order.len()
    }

    /// Whether none waits.
    pub fn is_empty(&self) -> (r: bool)
        ensures
            r == (self@.pending.len() == 0),
    {
        self.order.len() == 0
    }

    /// Whether a waiting transaction spends `outpoint`.
    pub fn is_claimed(&self, outpoint: &OutPoint) -> (r: bool)
        requires
            self.wf(),
        ensures
            r == claims(self@.pending, *outpoint),
    {
        self.claimed_by.contains_key(outpoint)
    }

    /// Whether a transaction with this id waits.
    pub fn contains(&self, id: &[u8; 32]) -> (r: bool)
        requires
            self.wf(),
        ensures
            r == holds_id(self@.pending, *id),
    {
        let r = self.txs.contains_key(id);
        proof {
            if self.order@.contains(*id) {
                let i = choose|i: int| 0 <= i < self.order@.len() && self.order@[i] == *id;
                assert(self@.pending[i].id() == *id);
            }
            if holds_id(self@.pending, *id) {
                let i = choose|i: int|
                    0 <= i < self@.pending.len() && (#[trigger] self@.pending[i]).id() == *id;
                assert(self.order@[i] == *id);
            }
        }
        r
    }

    /// Admits a transaction, or says why not. Checked in the order of
    /// [`crate::state::apply_transaction`], after the size of the pool; the first thing wrong
    /// decides.
    pub fn insert<S: StateStore>(&mut self, store: &S, tx: Transaction) -> (r: Result<
        (),
        MempoolError,
    >)
        requires
            old(self).wf(),
            store.wf(),
            tx@.encodable(),
        ensures
            final(self).wf(),
            final(self)@.chain_id == old(self)@.chain_id,
            final(self)@.max_size == old(self)@.max_size,
            match admission(old(self)@, store.contents().utxos(), tx@) {
                Ok(_) => r is Ok && final(self)@.pending == old(self)@.pending.push(tx@),
                Err(e) => r is Err && r->Err_0@ == e && final(self)@.pending == old(self)@.pending,
            },
    {
        if self.order.len() >= self.max_size {
            return Err(MempoolError::Full);
        }
        if tx.is_coinbase() {
            return Err(MempoolError::CoinbaseNotAllowed);
        }
        if tx.inputs.len() == 0 {
            return Err(MempoolError::NoInputs);
        }
        if !same_text(tx.chain_id.as_str(), self.chain_id.as_str()) {
            return Err(
                MempoolError::WrongChainId {
                    expected: self.chain_id.clone(),
                    found: tx.chain_id.clone(),
                },
            );
        }
        let id = txid(&tx);
        if self.contains(&id) {
            return Err(MempoolError::AlreadyInMempool);
        }
        if !inputs_are_distinct(&tx.inputs) {
            return Err(MempoolError::DuplicateInput);
        }
        let spent = match self.claimable(store, &tx) {
            Ok(spent) => spent,
            Err(e) => return Err(e),
        };
        let message = signing_bytes(&tx);
        match check_inputs(&spent, &tx.inputs, message.as_slice()) {
            Ok(_) => {},
            Err(f) => return Err(MempoolError::from_fault(f)),
        }
        let total_in: u128 = match sum_pairs(&spent) {
            Some(total) => total,
            None => return Err(MempoolError::Overflow),
        };
        let total_out: u128 = match sum_outputs(tx.outputs.as_slice()) {
            Some(total) => total,
            None => return Err(MempoolError::Overflow),
        };
        if total_out > total_in {
            return Err(
                MempoolError::InsufficientInputs { available: total_in, required: total_out },
            );
        }
        proof {
            lemma_available(self@.pending, store.contents().utxos(), tx@.inputs);
        }
        self.enqueue(id, tx);
        Ok(())
    }

    /// The outputs that a transaction's inputs name, if all are there and nothing pending spends
    /// them.
    fn claimable<S: StateStore>(&self, store: &S, tx: &Transaction) -> (r: Result<
        Vec<(OutPoint, TxOut)>,
        MempoolError,
    >)
        requires
            self.wf(),
            store.wf(),
        ensures
            match first_unavailable(self@.pending, store.contents().utxos(), tx@.inputs) {
                None => r is Ok && r->Ok_0@ == consumed_outputs(store.contents().utxos(), tx@),
                Some(e) => r is Err && r->Err_0@ == e,
            },
    {
        let ghost utxos = store.contents().utxos();
        let mut spent: Vec<(OutPoint, TxOut)> = Vec::new();
        let mut i: usize = 0;
        while i < tx.inputs.len()
            invariant
                i <= tx.inputs@.len(),
                self.wf(),
                store.wf(),
                utxos == store.contents().utxos(),
                first_unavailable(self@.pending, utxos, tx@.inputs.take(i as int)) is None,
                spent@.len() == i,
                forall|j: int| 0 <= j < i ==> spent@[j] == consumed_outputs(utxos, tx@)[j],
            decreases tx.inputs.len() - i,
        {
            let key = tx.inputs[i].prev_out;
            proof {
                let next = tx@.inputs.take(i + 1);
                assert(next.drop_last() =~= tx@.inputs.take(i as int));
                assert(next.last().prev_out == key);
                if first_unavailable(self@.pending, utxos, next) is Some {
                    lemma_first_unavailable_found(self@.pending, utxos, tx@.inputs, i + 1);
                }
            }
            if self.is_claimed(&key) {
                return Err(MempoolError::OutpointAlreadyClaimed);
            }
            match store.get_utxo(&key) {
                Some(output) => {
                    spent.push((key, output));
                },
                None => return Err(MempoolError::UnknownOutpoint),
            }
            i += 1;
        }
        assert(tx@.inputs.take(tx@.inputs.len() as int) =~= tx@.inputs);
        assert(spent@ =~= consumed_outputs(utxos, tx@));
        Ok(spent)
    }

    /// Puts a transaction that passed every check at the end of the queue.
    fn enqueue(&mut self, id: [u8; 32], tx: Transaction)
        requires
            old(self).wf(),
            old(self)@.pending.len() < old(self)@.max_size,
            tx@.encodable(),
            regular(tx@, old(self)@.chain_id),
            id == tx@.id(),
            !holds_id(old(self)@.pending, id),
            !repeats_an_outpoint(tx@.inputs),
            forall|j: int|
                0 <= j < tx@.inputs.len() ==> !claims(
                    old(self)@.pending,
                    (#[trigger] tx@.inputs[j]).prev_out,
                ),
        ensures
            final(self).wf(),
            final(self)@.chain_id == old(self)@.chain_id,
            final(self)@.max_size == old(self)@.max_size,
            final(self)@.pending == old(self)@.pending.push(tx@),
    {
        let ghost before = *self;
        let ghost pending = self@.pending;
        let mut i: usize = 0;
        while i < tx.inputs.len()
            invariant
                i <= tx.inputs@.len(),
                self.claimed_by.wf(),
                self.chain_id == before.chain_id,
                self.txs == before.txs,
                self.order == before.order,
                self.max_size == before.max_size,
                forall|op: OutPoint| #[trigger]
                    self.claimed_by@.contains_key(op) <==> (before.claimed_by@.contains_key(op)
                        || exists|j: int|
                        0 <= j < i && (#[trigger] tx.inputs@[j]).prev_out == op),
            decreases tx.inputs.len() - i,
        {
            let ghost prior = self.claimed_by@;
            let key = tx.inputs[i].prev_out;
            self.claimed_by.insert(key, id);
            assert forall|op: OutPoint| #[trigger]
                self.claimed_by@.contains_key(op) <==> (before.claimed_by@.contains_key(op)
                    || exists|j: int|
                    0 <= j < i + 1 && (#[trigger] tx.inputs@[j]).prev_out == op) by {
                if op == key {
                    assert(tx.inputs@[i as int].prev_out == op);
                } else {
                    assert(self.claimed_by@.contains_key(op) == prior.contains_key(op));
                    if exists|j: int| 0 <= j < i + 1 && (#[trigger] tx.inputs@[j]).prev_out == op {
                        let j = choose|j: int|
                            0 <= j < i + 1 && (#[trigger] tx.inputs@[j]).prev_out == op;
                        assert(j < i);
                    }
                }
            }
            i += 1;
        }
        let ghost view = tx@;
        self.txs.insert(id, tx);
        self.order.push_back(id);
        proof {
            let now = self@.pending;
            let n = pending.len() as int;
            if before.order@.contains(id) {
                let k = choose|k: int| 0 <= k < before.order@.len() && before.order@[k] == id;
                assert(pending[k].id() == id);
                assert(holds_id(pending, id));
            }
            assert(!before.order@.contains(id));
            assert(self.order@ =~= before.order@.push(id));
            assert forall|k: int| 0 <= k < n implies now[k] == pending[k] by {
                assert(self.order@[k] == before.order@[k]);
                assert(before.order@.contains(before.order@[k]));
            }
            assert(now =~= pending.push(view));
            assert(self.order@.no_duplicates());
            assert forall|x: [u8; 32]| self.txs@.contains_key(x) <==> self.order@.contains(x) by {
                if before.order@.contains(x) {
                    let k = choose|k: int| 0 <= k < before.order@.len() && before.order@[k] == x;
                    assert(self.order@[k] == x);
                }
                if x == id {
                    assert(self.order@[n] == x);
                }
                if self.order@.contains(x) && x != id {
                    let k = choose|k: int| 0 <= k < self.order@.len() && self.order@[k] == x;
                    assert(before.order@[k] == x);
                }
            }
            assert forall|op: OutPoint| #[trigger]
                self.claimed_by@.contains_key(op) <==> claims(now, op) by {
                lemma_claims_push(pending, view, op);
            }
            assert(claims_are_disjoint(now)) by {
                assert forall|a: int, p: int, b: int, q: int|
                    0 <= a < now.len() && 0 <= b < now.len() && 0 <= p < now[a].inputs.len() && 0
                        <= q < now[b].inputs.len() && (a != b || p != q) implies (
                #[trigger] now[a].inputs[p]).prev_out != (#[trigger] now[b].inputs[q]).prev_out by {
                    if a < n && b < n {
                        assert(pending[a].inputs[p].prev_out != pending[b].inputs[q].prev_out);
                    } else if a < n {
                        assert(!claims(pending, view.inputs[q].prev_out));
                        assert(pending[a].inputs[p].prev_out != view.inputs[q].prev_out);
                    } else if b < n {
                        assert(!claims(pending, view.inputs[p].prev_out));
                        assert(pending[b].inputs[q].prev_out != view.inputs[p].prev_out);
                    } else if p < q {
                        assert(view.inputs[p].prev_out != view.inputs[q].prev_out);
                    } else {
                        assert(view.inputs[q].prev_out != view.inputs[p].prev_out);
                    }
                }
            }
        }
    }

    /// Takes up to `max` transactions out for a block, in the order in which they were admitted.
    /// What they claimed is free again.
    pub fn next_batch(&mut self, max: usize) -> (r: Vec<Transaction>)
        requires
            old(self).wf(),
        ensures
            final(self).wf(),
            final(self)@.chain_id == old(self)@.chain_id,
            final(self)@.max_size == old(self)@.max_size,
            ({
                let n = if max <= old(self)@.pending.len() {
                    max as int
                } else {
                    old(self)@.pending.len() as int
                };
                &&& transaction_views(r@) == old(self)@.pending.take(n)
                &&& final(self)@.pending == old(self)@.pending.skip(n)
            }),
            forall|i: int| 0 <= i < r@.len() ==> (#[trigger] r@[i])@.encodable(),
    {
        let ghost start = self@;
        let mut batch: Vec<Transaction> = Vec::new();
        assert(start.pending.skip(0) =~= start.pending);
        assert(transaction_views(batch@) =~= start.pending.take(0));
        while batch.len() < max && self.order.len() > 0
            invariant
                self.wf(),
                self@.chain_id == start.chain_id,
                self@.max_size == start.max_size,
                batch@.len() <= max,
                batch@.len() <= start.pending.len(),
                self@.pending == start.pending.skip(batch@.len() as int),
                transaction_views(batch@) == start.pending.take(batch@.len() as int),
                forall|i: int| 0 <= i < batch@.len() ==> (#[trigger] batch@[i])@.encodable(),
            decreases self@.pending.len(),
        {
            let ghost n = batch@.len() as int;
            let ghost views = transaction_views(batch@);
            match self.take_first() {
                Some(tx) => {
                    assert(tx@ == start.pending[n]);
                    batch.push(tx);
                    assert(transaction_views(batch@) =~= views.push(tx@));
                    assert(start.pending.take(n + 1) =~= start.pending.take(n).push(tx@));
                    assert(start.pending.skip(n).skip(1) =~= start.pending.skip(n + 1));
                },
                None => {},
            }
        }
        batch
    }

    /// Takes the transaction out that has waited longest.
    fn take_first(&mut self) -> (r: Option<Transaction>)
        requires
            old(self).wf(),
            old(self)@.pending.len() > 0,
        ensures
            final(self).wf(),
            final(self)@.chain_id == old(self)@.chain_id,
            final(self)@.max_size == old(self)@.max_size,
            r matches Some(tx) && tx@ == old(self)@.pending[0] && tx@.encodable(),
            final(self)@.pending == old(self)@.pending.skip(1),
    {
        let ghost before = *self;
        let ghost pending = self@.pending;
        let id = match self.order.pop_front() {
            Some(id) => id,
            None => return None,
        };
        assert(before.order@[0] == id);
        assert(before.order@.contains(id));
        let tx = match self.txs.remove(&id) {
            Some(tx) => tx,
            None => return None,
        };
        assert(tx@ == pending[0]);
        let mut keys: Vec<OutPoint> = Vec::new();
        let mut i: usize = 0;
        while i < tx.inputs.len()
            invariant
                i <= tx.inputs@.len(),
                keys@.len() == i,
                forall|j: int| 0 <= j < i ==> keys@[j] == tx.inputs@[j].prev_out,
            decreases tx.inputs.len() - i,
        {
            keys.push(tx.inputs[i].prev_out);
            i += 1;
        }
        self.claimed_by.remove_all(&keys);
        proof {
            let now = self@.pending;
            assert(keys@ =~= spent_outpoints(tx@));
            assert(self.order@ =~= before.order@.skip(1));
            assert forall|k: int| 0 <= k < now.len() implies #[trigger] now[k] == pending[k + 1] by {
                assert(before.order@[k + 1] != before.order@[0]);
                assert(before.order@.contains(before.order@[k + 1]));
            }
            assert(now =~= pending.skip(1));
            assert(self.order@.no_duplicates());
            assert forall|x: [u8; 32]| self.txs@.contains_key(x) <==> self.order@.contains(x) by {
                if self.order@.contains(x) {
                    let k = choose|k: int| 0 <= k < self.order@.len() && self.order@[k] == x;
                    assert(before.order@[k + 1] == x);
                    assert(before.order@[k + 1] != before.order@[0]);
                }
                if before.order@.contains(x) && x != id {
                    let k = choose|k: int| 0 <= k < before.order@.len() && before.order@[k] == x;
                    assert(self.order@[k - 1] == x);
                }
            }
            assert(claims_are_disjoint(now)) by {
                assert forall|a: int, p: int, b: int, q: int|
                    0 <= a < now.len() && 0 <= b < now.len() && 0 <= p < now[a].inputs.len() && 0
                        <= q < now[b].inputs.len() && (a != b || p != q) implies (
                #[trigger] now[a].inputs[p]).prev_out != (#[trigger] now[b].inputs[q]).prev_out by {
                    assert(pending[a + 1].inputs[p].prev_out != pending[b + 1].inputs[q].prev_out);
                }
            }
            assert forall|op: OutPoint| #[trigger]
                self.claimed_by@.contains_key(op) <==> claims(now, op) by {
                if claims(now, op) {
                    let (a, p) = choose|a: int, p: int|
                        0 <= a < now.len() && 0 <= p < now[a].inputs.len() && (
                        #[trigger] now[a].inputs[p]).prev_out == op;
                    assert(pending[a + 1].inputs[p].prev_out == op);
                    assert(claims(pending, op));
                    if keys@.to_set().contains(op) {
                        let q = choose|q: int| 0 <= q < keys@.len() && keys@[q] == op;
                        assert(pending[0].inputs[q].prev_out == op);
                    }
                }
                if self.claimed_by@.contains_key(op) {
                    assert(before.claimed_by@.contains_key(op));
                    let (a, p) = choose|a: int, p: int|
                        0 <= a < pending.len() && 0 <= p < pending[a].inputs.len() && (
                        #[trigger] pending[a].inputs[p]).prev_out == op;
                    if a == 0 {
                        assert(keys@[p] == op);
                    } else {
                        assert(now[a - 1].inputs[p].prev_out == op);
                    }
                }
            }
        }
        Some(tx)
    }
}

/// The first input among the first that is unavailable is the first of all.
proof fn lemma_first_unavailable_found(
    pending: Seq<TransactionView>,
    utxos: Map<OutPoint, TxOut>,
    inputs: Seq<TxIn>,
    n: int,
)
    requires
        0 <= n <= inputs.len(),
        first_unavailable(pending, utxos, inputs.take(n)) is Some,
    ensures
        first_unavailable(pending, utxos, inputs) == first_unavailable(
            pending,
            utxos,
            inputs.take(n),
        ),
    decreases inputs.len() - n,
{
    if n == inputs.len() {
        assert(inputs.take(n) =~= inputs);
    } else {
        assert(inputs.take(n + 1).drop_last() =~= inputs.take(n));
        lemma_first_unavailable_found(pending, utxos, inputs, n + 1);
    }
}

/// Available inputs name outputs that are there and that no pending transaction spends.
proof fn lemma_available(
    pending: Seq<TransactionView>,
    utxos: Map<OutPoint, TxOut>,
    inputs: Seq<TxIn>,
)
    requires
        first_unavailable(pending, utxos, inputs) is None,
    ensures
        forall|j: int|
            0 <= j < inputs.len() ==> !claims(pending, (#[trigger] inputs[j]).prev_out),
        !names_an_unknown(utxos, inputs),
    decreases inputs.len(),
{
    if inputs.len() > 0 {
        let front = inputs.drop_last();
        lemma_available(pending, utxos, front);
        assert forall|j: int| 0 <= j < inputs.len() implies !claims(
            pending,
            (#[trigger] inputs[j]).prev_out,
        ) && utxos.contains_key(inputs[j].prev_out) by {
            if j < inputs.len() - 1 {
                assert(front[j] == inputs[j]);
            }
        }
    }
}

/// Where no pending transaction spends any of them, inputs are unavailable only as unknown.
pub(crate) proof fn lemma_unclaimed(
    pending: Seq<TransactionView>,
    utxos: Map<OutPoint, TxOut>,
    inputs: Seq<TxIn>,
)
    requires
        forall|j: int|
            0 <= j < inputs.len() ==> !claims(pending, (#[trigger] inputs[j]).prev_out),
    ensures
        first_unavailable(pending, utxos, inputs) == if names_an_unknown(utxos, inputs) {
            Some(MempoolErrorView::UnknownOutpoint)
        } else {
            None
        },
    decreases inputs.len(),
{
    if inputs.len() > 0 {
        let front = inputs.drop_last();
        let last = inputs.len() - 1;
        assert forall|j: int| 0 <= j < front.len() implies !claims(
            pending,
            (#[trigger] front[j]).prev_out,
        ) by {
            assert(front[j] == inputs[j]);
        }
        lemma_unclaimed(pending, utxos, front);
        assert(!claims(pending, inputs[last].prev_out));
        if names_an_unknown(utxos, inputs) {
            let j = choose|j: int|
                0 <= j < inputs.len() && !utxos.contains_key((#[trigger] inputs[j]).prev_out);
            if j < last {
                assert(front[j] == inputs[j]);
                assert(names_an_unknown(utxos, front));
            }
        }
        if names_an_unknown(utxos, front) {
            let j = choose|j: int|
                0 <= j < front.len() && !utxos.contains_key((#[trigger] front[j]).prev_out);
            assert(!utxos.contains_key(inputs[j].prev_out));
        }
        if !utxos.contains_key(inputs[last].prev_out) {
            assert(names_an_unknown(utxos, inputs));
        }
    }
}

/// One more transaction claims what it spends.
proof fn lemma_claims_push(pending: Seq<TransactionView>, tx: TransactionView, op: OutPoint)
    ensures
        claims(pending.push(tx), op) <==> (claims(pending, op) || exists|j: int|
            0 <= j < tx.inputs.len() && (#[trigger] tx.inputs[j]).prev_out == op),
{
    let now = pending.push(tx);
    if claims(pending, op) {
        let (a, p) = choose|a: int, p: int|
            0 <= a < pending.len() && 0 <= p < pending[a].inputs.len() && (
            #[trigger] pending[a].inputs[p]).prev_out == op;
        assert(now[a].inputs[p].prev_out == op);
    }
    if exists|j: int| 0 <= j < tx.inputs.len() && (#[trigger] tx.inputs[j]).prev_out == op {
        let j = choose|j: int| 0 <= j < tx.inputs.len() && (#[trigger] tx.inputs[j]).prev_out == op;
        assert(now[pending.len() as int].inputs[j].prev_out == op);
    }
    if claims(now, op) {
        let (a, p) = choose|a: int, p: int|
            0 <= a < now.len() && 0 <= p < now[a].inputs.len() && (
            #[trigger] now[a].inputs[p]).prev_out == op;
        if a < pending.len() {
            assert(pending[a].inputs[p].prev_out == op);
        } else {
            assert(tx.inputs[p].prev_out == op);
        }
    }
}

/// The pool's name for what keeps a transaction from being applied.
pub open spec fn pool_error(e: StateErrorView) -> Option<MempoolErrorView> {
    match e {
        StateErrorView::UnexpectedCoinbase => Some(MempoolErrorView::CoinbaseNotAllowed),
        StateErrorView::NoInputs => Some(MempoolErrorView::NoInputs),
        StateErrorView::WrongChainId { expected, found } => Some(
            MempoolErrorView::WrongChainId { expected, found },
        ),
        StateErrorView::DuplicateInput => Some(MempoolErrorView::DuplicateInput),
        StateErrorView::UnknownOutpoint => Some(MempoolErrorView::UnknownOutpoint),
        StateErrorView::InvalidPublicKey => Some(MempoolErrorView::InvalidPublicKey),
        StateErrorView::AddressMismatch => Some(MempoolErrorView::AddressMismatch),
        StateErrorView::InvalidSignature => Some(MempoolErrorView::InvalidSignature),
        StateErrorView::InsufficientInputs { available, required } => Some(
            MempoolErrorView::InsufficientInputs { available, required },
        ),
        StateErrorView::Overflow => Some(MempoolErrorView::Overflow),
        _ => None,
    }
}

/// Whatever a pool admits could be applied to the unspent outputs it was judged against.
pub proof fn admitted_transaction_applies(
    pool: MempoolView,
    utxos: Map<OutPoint, TxOut>,
    tx: TransactionView,
)
    requires
        admission(pool, utxos, tx) is Ok,
    ensures
        transaction_outcome(utxos, tx, pool.chain_id) is Ok,
{
    lemma_available(pool.pending, utxos, tx.inputs);
}

/// A pool with room that neither holds a transaction nor spends any of what it spends admits it
/// exactly where it could be applied, and otherwise gives the error that applying it gives.
pub proof fn pool_judges_as_applying_does(
    pool: MempoolView,
    utxos: Map<OutPoint, TxOut>,
    tx: TransactionView,
)
    requires
        pool.pending.len() < pool.max_size,
        !holds_id(pool.pending, tx.id()),
        forall|j: int|
            0 <= j < tx.inputs.len() ==> !claims(pool.pending, (#[trigger] tx.inputs[j]).prev_out),
    ensures
        match transaction_outcome(utxos, tx, pool.chain_id) {
            Ok(_) => admission(pool, utxos, tx) is Ok,
            Err(e) => admission(pool, utxos, tx) is Err && pool_error(e) == Some(
                admission(pool, utxos, tx)->Err_0,
            ),
        },
{
    lemma_unclaimed(pool.pending, utxos, tx.inputs);
}

/// The waiting transactions differ in their ids.
pub proof fn waiting_transactions_are_distinct(pool: &Mempool)
    requires
        pool.wf(),
    ensures
        forall|i: int, j: int|
            0 <= i < j < pool@.pending.len() ==> (#[trigger] pool@.pending[i]).id() != (
            #[trigger] pool@.pending[j]).id(),
{
}

/// Every waiting transaction is a regular one, for the pool's chain, and can be encoded.
pub proof fn waiting_transactions_are_regular(pool: &Mempool, i: int)
    requires
        pool.wf(),
        0 <= i < pool@.pending.len(),
    ensures
        regular(pool@.pending[i], pool@.chain_id),
        pool@.pending[i].encodable(),
{
}

/// No two waiting transactions spend the same output.
pub proof fn waiting_transactions_never_conflict(pool: &Mempool)
    requires
        pool.wf(),
    ensures
        claims_are_disjoint(pool@.pending),
{
}

/// A pool never holds more than its size allows.
pub proof fn pool_keeps_to_its_size(pool: &Mempool)
    requires
        pool.wf(),
    ensures
        pool@.pending.len() <= pool@.max_size,
{
}

/// A pool admits a transaction exactly if it has room, no waiting transaction has its id or spends
/// an output that it spends, and it could be applied. A pool without room says so first; one that
/// has room and sees an output spent twice names that, where every output is there and nothing
/// that is checked earlier is wrong.
pub proof fn pool_admits_what_is_free_and_applies(
    pool: MempoolView,
    utxos: Map<OutPoint, TxOut>,
    tx: TransactionView,
)
    ensures
        admission(pool, utxos, tx) is Ok <==> {
            &&& pool.pending.len() < pool.max_size
            &&& forall|i: int|
                0 <= i < pool.pending.len() ==> (#[trigger] pool.pending[i]).id() != tx.id()
            &&& forall|i: int, j: int, k: int|
                0 <= i < pool.pending.len() && 0 <= j < pool.pending[i].inputs.len() && 0 <= k
                    < tx.inputs.len() ==> (#[trigger] pool.pending[i].inputs[j]).prev_out != (
                #[trigger] tx.inputs[k]).prev_out
            &&& transaction_outcome(utxos, tx, pool.chain_id) is Ok
        },
        pool.pending.len() >= pool.max_size ==> admission(pool, utxos, tx) == Err::<(), _>(
            MempoolErrorView::Full,
        ),
        forall|k: int|
            0 <= k < tx.inputs.len() && claims(pool.pending, (#[trigger] tx.inputs[k]).prev_out)
                && pool.pending.len() < pool.max_size && regular(tx, pool.chain_id) && !holds_id(
                pool.pending,
                tx.id(),
            ) && !repeats_an_outpoint(tx.inputs) && !names_an_unknown(utxos, tx.inputs)
                ==> admission(pool, utxos, tx) == Err::<(), _>(
                MempoolErrorView::OutpointAlreadyClaimed,
            ),
{
    let free = forall|k: int|
        0 <= k < tx.inputs.len() ==> !claims(pool.pending, (#[trigger] tx.inputs[k]).prev_out);
    if free {
        lemma_unclaimed(pool.pending, utxos, tx.inputs);
        assert forall|i: int, j: int, k: int|
            0 <= i < pool.pending.len() && 0 <= j < pool.pending[i].inputs.len() && 0 <= k
                < tx.inputs.len() implies (#[trigger] pool.pending[i].inputs[j]).prev_out != (
        #[trigger] tx.inputs[k]).prev_out by {
            if pool.pending[i].inputs[j].prev_out == tx.inputs[k].prev_out {
                assert(claims(pool.pending, tx.inputs[k].prev_out));
            }
        }
    } else {
        let k = choose|k: int|
            0 <= k < tx.inputs.len() && claims(pool.pending, (#[trigger] tx.inputs[k]).prev_out);
        let (i, j) = choose|i: int, j: int|
            0 <= i < pool.pending.len() && 0 <= j < pool.pending[i].inputs.len() && (
            #[trigger] pool.pending[i].inputs[j]).prev_out == tx.inputs[k].prev_out;
        assert(pool.pending[i].inputs[j].prev_out == tx.inputs[k].prev_out);
        if first_unavailable(pool.pending, utxos, tx.inputs) is None {
            lemma_available(pool.pending, utxos, tx.inputs);
        }
        lemma_claimed_first(pool.pending, utxos, tx.inputs);
    }
}

/// Where every output is there, only one that is spent already is in the way.
proof fn lemma_claimed_first(
    pending: Seq<TransactionView>,
    utxos: Map<OutPoint, TxOut>,
    inputs: Seq<TxIn>,
)
    ensures
        !names_an_unknown(utxos, inputs) ==> (first_unavailable(pending, utxos, inputs) matches Some(
            e,
        ) ==> e == MempoolErrorView::OutpointAlreadyClaimed),
    decreases inputs.len(),
{
    if inputs.len() > 0 {
        let front = inputs.drop_last();
        lemma_claimed_first(pending, utxos, front);
        if names_an_unknown(utxos, front) {
            let i = choose|i: int|
                0 <= i < front.len() && !utxos.contains_key((#[trigger] front[i]).prev_out);
            assert(!utxos.contains_key(inputs[i].prev_out));
        }
        if !utxos.contains_key(inputs.last().prev_out) {
            assert(!utxos.contains_key(inputs[inputs.len() - 1].prev_out));
        }
    }
}

} // verus!
