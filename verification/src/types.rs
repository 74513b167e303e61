//! The ledger's data: outputs, transactions and blocks.
//!
//! Only the shapes and how a coinbase is recognised. Encoding and hashing are in
//! [`crate::codec`], spending rules in [`crate::state`].

use vstd::prelude::*;

use crate::bytes::{array_of, le_bytes, lemma_array_of, lemma_le_bytes_len, same_array, u64_to_le};
pub use crate::crypto::Address;

verus! {

/// A reference to output number `vout` of transaction `txid`.
#[derive(Debug, Clone, Copy, Eq, Hash)]
pub struct OutPoint {
    pub txid: [u8; 32],
    pub vout: u32,
}

impl PartialEq for OutPoint {
    fn eq(&self, other: &Self) -> (r: bool) {
        self.vout == other.vout && same_array(&self.txid, &other.txid)
    }
}

impl vstd::std_specs::cmp::PartialEqSpecImpl for OutPoint {
    open spec fn obeys_eq_spec() -> bool {
        true
    }

    open spec fn eq_spec(&self, other: &Self) -> bool {
        *self == *other
    }
}

/// Transaction id in the only input of a coinbase. No transaction has it: ids are hashes.
pub const COINBASE_PREV_TXID: [u8; 32] = [
    0, 0, 0, 0, 0, 0, 0, 0, 0, 0, 0, 0, 0, 0, 0, 0,
    0, 0, 0, 0, 0, 0, 0, 0, 0, 0, 0, 0, 0, 0, 0, 0,
];

/// Output number in the only input of a coinbase.
pub const COINBASE_PREV_VOUT: u32 = u32::MAX;

/// An output: an amount and the address that may spend it.
#[derive(Debug, Clone, Copy, Eq)]
pub struct TxOut {
    pub amount: u128,
    pub pubkey_hash: Address,
}

impl PartialEq for TxOut {
    fn eq(&self, other: &Self) -> (r: bool) {
        self.amount == other.amount && self.pubkey_hash == other.pubkey_hash
    }
}

impl vstd::std_specs::cmp::PartialEqSpecImpl for TxOut {
    open spec fn obeys_eq_spec() -> bool {
        true
    }

    open spec fn eq_spec(&self, other: &Self) -> bool {
        *self == *other
    }
}

/// An input: the output it spends and the proof of the right to spend it. In a coinbase the
/// signature field instead carries the block height and an extra nonce, so that two coinbases
/// never have the same id.
#[derive(Debug, Clone, Copy, Eq)]
pub struct TxIn {
    pub prev_out: OutPoint,
    pub public_key: [u8; 32],
    pub signature: [u8; 64],
}

impl PartialEq for TxIn {
    fn eq(&self, other: &Self) -> (r: bool) {
        self.prev_out == other.prev_out && same_array(&self.public_key, &other.public_key)
            && same_array(&self.signature, &other.signature)
    }
}

impl vstd::std_specs::cmp::PartialEqSpecImpl for TxIn {
    open spec fn obeys_eq_spec() -> bool {
        true
    }

    open spec fn eq_spec(&self, other: &Self) -> bool {
        *self == *other
    }
}

/// The bytes that stand in for a signature in a coinbase: the height and the extra nonce, eight
/// bytes each, least significant first, then zeros.
pub open spec fn coinbase_tag(height: u64, extra_nonce: u64) -> Seq<u8> {
    le_bytes(height as nat, 8) + le_bytes(extra_nonce as nat, 8) + Seq::new(48, |i: int| 0u8)
}

/// The input of a coinbase at `height`.
pub open spec fn coinbase_input(height: u64, extra_nonce: u64) -> TxIn {
    TxIn {
        prev_out: OutPoint { txid: COINBASE_PREV_TXID, vout: COINBASE_PREV_VOUT },
        public_key: array_of(Seq::new(32, |i: int| 0u8)),
        signature: array_of(coinbase_tag(height, extra_nonce)),
    }
}

/// The coinbase at `height`, paying to `outputs`.
pub open spec fn coinbase_view(
    chain_id: Seq<char>,
    height: u64,
    extra_nonce: u64,
    outputs: Seq<TxOut>,
) -> TransactionView {
    TransactionView { chain_id, inputs: seq![coinbase_input(height, extra_nonce)], outputs }
}

impl TxIn {
    /// This input is the marker of a coinbase.
    pub open spec fn marks_coinbase(&self) -> bool {
        self.prev_out.txid == COINBASE_PREV_TXID && self.prev_out.vout == COINBASE_PREV_VOUT
    }

    /// The input of a coinbase at `height`.
    pub fn coinbase(height: u64, extra_nonce: u64) -> (r: TxIn)
        ensures
            r == coinbase_input(height, extra_nonce),
            r.marks_coinbase(),
            r.public_key@ == Seq::new(32, |i: int| 0u8),
            r.signature@ == coinbase_tag(height, extra_nonce),
    {
        let low: [u8; 8] = u64_to_le(height);
        let high: [u8; 8] = u64_to_le(extra_nonce);
        let mut signature: [u8; 64] = [0u8; 64];
        let mut i: usize = 0;
        while i < 8
            invariant
                i <= 8,
                low@.len() == 8,
                high@.len() == 8,
                forall|j: int| 0 <= j < i ==> signature@[j] == low@[j],
                forall|j: int| i <= j < 8 ==> signature@[j] == 0,
                forall|j: int| 8 <= j < 8 + i ==> signature@[j] == high@[j - 8],
                forall|j: int| 8 + i <= j < 64 ==> signature@[j] == 0,
            decreases 8 - i,
        {
            signature[i] = low[i];
            signature[8 + i] = high[i];
            i += 1;
        }
        assert(signature@ =~= coinbase_tag(height, extra_nonce));
        let r = TxIn {
            prev_out: OutPoint { txid: COINBASE_PREV_TXID, vout: COINBASE_PREV_VOUT },
            public_key: [0u8; 32],
            signature,
        };
        assert(r.public_key@ =~= Seq::new(32, |i: int| 0u8));
        proof {
            lemma_array_of(r.public_key);
            lemma_array_of(r.signature);
        }
        r
    }

    /// Whether this input is the marker of a coinbase.
    pub fn is_coinbase_marker(&self) -> (r: bool)
        ensures
            r == self.marks_coinbase(),
    {
        same_array(&self.prev_out.txid, &COINBASE_PREV_TXID) && self.prev_out.vout
            == COINBASE_PREV_VOUT
    }
}

/// A transaction: spends outputs and creates new ones. `chain_id` keeps a transaction of one
/// network from being replayed on another.
#[derive(Debug, Clone, PartialEq, Eq)]
pub struct Transaction {
    pub chain_id: String,
    pub inputs: Vec<TxIn>,
    pub outputs: Vec<TxOut>,
}

/// [`Transaction`] with its parts as sequences.
#[verifier::ext_equal]
pub struct TransactionView {
    pub chain_id: Seq<char>,
    pub inputs: Seq<TxIn>,
    pub outputs: Seq<TxOut>,
}

impl View for Transaction {
    type V = TransactionView;

    open spec fn view(&self) -> TransactionView {
        TransactionView {
            chain_id: self.chain_id@,
            inputs: self.inputs@,
            outputs: self.outputs@,
        }
    }
}

impl TransactionView {
    /// A coinbase has one input, and that input is the marker.
    pub open spec fn is_coinbase(self) -> bool {
        self.inputs.len() == 1 && self.inputs[0].marks_coinbase()
    }
}

/// The views of a sequence of transactions.
pub open spec fn transaction_views(s: Seq<Transaction>) -> Seq<TransactionView> {
    s.map_values(|t: Transaction| t@)
}

impl Transaction {
    /// Whether this is a coinbase, the only way to create new coins.
    pub fn is_coinbase(&self) -> (r: bool)
        ensures
            r == self@.is_coinbase(),
    {
        self.inputs.len() == 1 && self.inputs[0].is_coinbase_marker()
    }

    /// The coinbase of the block at `height`, paying to `outputs`.
    pub fn new_coinbase(
        chain_id: String,
        height: u64,
        extra_nonce: u64,
        outputs: Vec<TxOut>,
    ) -> (r: Transaction)
        ensures
            r@ == coinbase_view(chain_id@, height, extra_nonce, outputs@),
            r@.is_coinbase(),
            r@.inputs[0].signature@ == coinbase_tag(height, extra_nonce),
    {
        let mut inputs: Vec<TxIn> = Vec::new();
        inputs.push(TxIn::coinbase(height, extra_nonce));
        assert(inputs@ =~= seq![coinbase_input(height, extra_nonce)]);
        Transaction { chain_id, inputs, outputs }
    }

    /// A copy.
    pub fn duplicate(&self) -> (r: Transaction)
        ensures
            r@ == self@,
    {
        let inputs = self.inputs.clone();
        let outputs = self.outputs.clone();
        assert(inputs@ =~= self.inputs@);
        assert(outputs@ =~= self.outputs@);
        Transaction { chain_id: self.chain_id.clone(), inputs, outputs }
    }
}

/// A block's header. The header's hash is valid proof of work when, read as a 256-bit integer,
/// it is at most `target`.
#[derive(Debug, Clone, Copy, Eq)]
pub struct BlockHeader {
    pub height: u64,
    pub parent_hash: [u8; 32],
    /// Merkle root of the block's transactions, the coinbase among them.
    pub tx_root: [u8; 32],
    /// Seconds since the Unix epoch.
    pub timestamp: u64,
    pub target: [u8; 32],
    pub pow_nonce: u64,
}

impl PartialEq for BlockHeader {
    fn eq(&self, other: &Self) -> (r: bool) {
        self.height == other.height && same_array(&self.parent_hash, &other.parent_hash)
            && same_array(&self.tx_root, &other.tx_root) && self.timestamp == other.timestamp
            && same_array(&self.target, &other.target) && self.pow_nonce == other.pow_nonce
    }
}

impl vstd::std_specs::cmp::PartialEqSpecImpl for BlockHeader {
    open spec fn obeys_eq_spec() -> bool {
        true
    }

    open spec fn eq_spec(&self, other: &Self) -> bool {
        *self == *other
    }
}

/// A block: a header and its transactions, the coinbase first.
#[derive(Debug, Clone, PartialEq, Eq)]
pub struct Block {
    pub header: BlockHeader,
    pub transactions: Vec<Transaction>,
}

/// [`Block`] with its transactions as a sequence of views.
#[verifier::ext_equal]
pub struct BlockView {
    pub header: BlockHeader,
    pub transactions: Seq<TransactionView>,
}

impl View for Block {
    type V = BlockView;

    open spec fn view(&self) -> BlockView {
        BlockView {
            header: self.header,
            transactions: transaction_views(self.transactions@),
        }
    }
}

/// The views of a sequence of blocks.
pub open spec fn block_views(s: Seq<Block>) -> Seq<BlockView> {
    s.map_values(|b: Block| b@)
}

impl Block {
    /// A copy.
    pub fn duplicate(&self) -> (r: Block)
        ensures
            r@ == self@,
    {
        let mut transactions: Vec<Transaction> = Vec::new();
        let mut i: usize = 0;
        while i < self.transactions.len()
            invariant
                i <= self.transactions.len(),
                transactions.len() == i,
                forall|j: int| 0 <= j < i ==> transactions@[j]@ == self.transactions@[j]@,
            decreases self.transactions.len() - i,
        {
            transactions.push(self.transactions[i].duplicate());
            i += 1;
        }
        let r = Block { header: self.header, transactions };
        assert(r@.transactions =~= self@.transactions);
        r
    }
}

/// A coinbase input states its height: two coinbases made for different heights differ.
pub proof fn coinbase_tag_states_the_height(h1: u64, n1: u64, h2: u64, n2: u64)
    requires
        coinbase_tag(h1, n1) == coinbase_tag(h2, n2),
    ensures
        h1 == h2,
        n1 == n2,
{
    let a = coinbase_tag(h1, n1);
    let b = coinbase_tag(h2, n2);
    lemma_le_bytes_len(h1 as nat, 8);
    lemma_le_bytes_len(h2 as nat, 8);
    lemma_le_bytes_len(n1 as nat, 8);
    lemma_le_bytes_len(n2 as nat, 8);
    assert(a.subrange(0, 8) =~= le_bytes(h1 as nat, 8));
    assert(b.subrange(0, 8) =~= le_bytes(h2 as nat, 8));
    assert(a.subrange(8, 16) =~= le_bytes(n1 as nat, 8));
    assert(b.subrange(8, 16) =~= le_bytes(n2 as nat, 8));
    crate::bytes::lemma_pow256();
    crate::bytes::lemma_le_round_trip(h1 as nat, 8);
    crate::bytes::lemma_le_round_trip(h2 as nat, 8);
    crate::bytes::lemma_le_round_trip(n1 as nat, 8);
    crate::bytes::lemma_le_round_trip(n2 as nat, 8);
}

} // verus!
