//! The state transition function: checks transactions against the set of unspent outputs and
//! applies them.
//!
//! Nothing here knows where the set lives: [`StateStore`] is the interface, implemented in memory
//! by [`MemoryStateStore`], as a staging layer by [`OverlayStore`], and on a key-value store by
//! [`crate::storage`]. A fee is what a transaction's inputs hold beyond its outputs; the miner
//! claims it in the coinbase.

use std::convert::Infallible;

use vstd::prelude::*;

use crate::bytes::{
    le_bytes, le_value, lemma_le_round_trip, lemma_le_value_bytes, lemma_pow256, part, u64_from_le,
};
use crate::codec::{signing_bytes, signing_preimage, txid};
use crate::collections::{
    distinct_keys, has_key, inserted, lemma_inserted_distinct, lemma_inserted_key,
    lemma_inserted_other, VecMap, VecSet,
};
use crate::crypto::{
    address_from_public_key_bytes, address_of_key, address_of_key_bytes, ed25519_is_public_key,
    ed25519_verifies, verify_raw, Address, CryptoError,
};
use crate::text::same_text;
use crate::types::{OutPoint, Transaction, TransactionView, TxIn, TxOut, COINBASE_PREV_TXID};

verus! {

/// Why a transaction cannot be applied.
#[allow(inconsistent_fields)]
#[derive(Debug, Clone, PartialEq, Eq)]
pub enum StateError {
    InvalidPublicKey,
    AddressMismatch,
    InvalidSignature,
    WrongChainId { expected: String, found: String },
    NoInputs,
    DuplicateInput,
    UnknownOutpoint,
    InsufficientInputs { available: u128, required: u128 },
    NotCoinbase,
    UnexpectedCoinbase,
    WrongCoinbaseHeight { expected: u64, found: u64 },
    CoinbaseOverclaims { claimed: u128, allowed: u128 },
    Overflow,
    Store(String),
}

/// [`StateError`] with its texts as character sequences.
#[allow(inconsistent_fields)]
#[verifier::ext_equal]
pub enum StateErrorView {
    InvalidPublicKey,
    AddressMismatch,
    InvalidSignature,
    WrongChainId { expected: Seq<char>, found: Seq<char> },
    NoInputs,
    DuplicateInput,
    UnknownOutpoint,
    InsufficientInputs { available: u128, required: u128 },
    NotCoinbase,
    UnexpectedCoinbase,
    WrongCoinbaseHeight { expected: u64, found: u64 },
    CoinbaseOverclaims { claimed: u128, allowed: u128 },
    Overflow,
    Store(Seq<char>),
}

impl View for StateError {
    type V = StateErrorView;

    open spec fn view(&self) -> StateErrorView {
        match self {
            StateError::InvalidPublicKey => StateErrorView::InvalidPublicKey,
            StateError::AddressMismatch => StateErrorView::AddressMismatch,
            StateError::InvalidSignature => StateErrorView::InvalidSignature,
            StateError::WrongChainId { expected, found } => StateErrorView::WrongChainId {
                expected: expected@,
                found: found@,
            },
            StateError::NoInputs => StateErrorView::NoInputs,
            StateError::DuplicateInput => StateErrorView::DuplicateInput,
            StateError::UnknownOutpoint => StateErrorView::UnknownOutpoint,
            StateError::InsufficientInputs {
                available,
                required,
            } => StateErrorView::InsufficientInputs { available: *available, required: *required },
            StateError::NotCoinbase => StateErrorView::NotCoinbase,
            StateError::UnexpectedCoinbase => StateErrorView::UnexpectedCoinbase,
            StateError::WrongCoinbaseHeight {
                expected,
                found,
            } => StateErrorView::WrongCoinbaseHeight { expected: *expected, found: *found },
            StateError::CoinbaseOverclaims {
                claimed,
                allowed,
            } => StateErrorView::CoinbaseOverclaims { claimed: *claimed, allowed: *allowed },
            StateError::Overflow => StateErrorView::Overflow,
            StateError::Store(t) => StateErrorView::Store(t@),
        }
    }
}

impl From<CryptoError> for StateError {
    fn from(e: CryptoError) -> (r: StateError) {
        StateError::InvalidPublicKey
    }
}

impl vstd::std_specs::convert::FromSpecImpl<CryptoError> for StateError {
    open spec fn obeys_from_spec() -> bool {
        true
    }

    open spec fn from_spec(e: CryptoError) -> StateError {
        StateError::InvalidPublicKey
    }
}

/// An error with a text.
pub trait ErrorText {
    spec fn text(&self) -> Seq<char>;

    /// The error's text.
    fn describe(&self) -> (r: String)
        ensures
            r@ == self.text(),
    ;
}

/// The map after taking out the spent outputs and then putting in the created ones.
pub open spec fn changed(
    utxos: Map<OutPoint, TxOut>,
    spent: Seq<OutPoint>,
    created: Seq<(OutPoint, TxOut)>,
) -> Map<OutPoint, TxOut> {
    inserted(utxos.remove_keys(spent.to_set()), created)
}

/// What a store holds: outputs of its own, or a layer of changes over outputs that are only
/// read.
#[verifier::ext_equal]
pub struct StoreView {
    /// The outputs at the bottom.
    pub base: Map<OutPoint, TxOut>,
    /// What a layer has created and not spent again.
    pub created: Map<OutPoint, TxOut>,
    /// What a layer has spent. It stays spent in the layer, even if it is created again.
    pub spent: Set<OutPoint>,
    /// Whether this is a layer.
    pub layered: bool,
    /// Writing never fails.
    pub reliable: bool,
}

/// Outputs seen through a layer of changes.
pub open spec fn seen_through(
    base: Map<OutPoint, TxOut>,
    created: Map<OutPoint, TxOut>,
    spent: Set<OutPoint>,
) -> Map<OutPoint, TxOut> {
    base.union_prefer_right(created).remove_keys(spent)
}

impl StoreView {
    /// The unspent outputs.
    pub open spec fn utxos(self) -> Map<OutPoint, TxOut> {
        if self.layered {
            seen_through(self.base, self.created, self.spent)
        } else {
            self.base
        }
    }

    /// What the store holds after a batch of changes.
    pub open spec fn after(self, spent: Seq<OutPoint>, created: Seq<(OutPoint, TxOut)>) -> StoreView {
        if self.layered {
            StoreView {
                created: changed(self.created, spent, created),
                spent: self.spent.union(spent.to_set()),
                ..self
            }
        } else {
            StoreView { base: changed(self.base, spent, created), ..self }
        }
    }
}

/// Where the set of unspent outputs lives.
///
/// Reading is not expected to fail. Writing may fail, and is atomic: all of a batch of changes
/// takes effect or none of it.
pub trait StateStore: Sized {
    type Error: ErrorText;

    /// What the store holds besides outputs.
    type Aside;

    /// What the store relies on.
    spec fn wf(&self) -> bool;

    /// What the store holds of outputs.
    spec fn contents(&self) -> StoreView;

    /// What the store holds besides outputs.
    spec fn aside(&self) -> Self::Aside;

    /// The output at `outpoint`, if it is unspent.
    fn get_utxo(&self, outpoint: &OutPoint) -> (r: Option<TxOut>)
        requires
            self.wf(),
        ensures
            r == self.contents().utxos().get(*outpoint),
    ;

    /// Takes out the spent outputs and puts in the created ones, all or nothing.
    fn apply_changes(&mut self, spent: Vec<OutPoint>, created: Vec<(OutPoint, TxOut)>) -> (r:
        Result<(), Self::Error>)
        requires
            old(self).wf(),
        ensures
            final(self).wf(),
            final(self).aside() == old(self).aside(),
            match r {
                Ok(_) => final(self).contents() == old(self).contents().after(spent@, created@),
                Err(_) => final(self).contents() == old(self).contents() && !old(self).contents().reliable,
            },
    ;
}

impl ErrorText for Infallible {
    open spec fn text(&self) -> Seq<char> {
        Seq::empty()
    }

    fn describe(&self) -> (r: String) {
        String::new()
    }
}

/// The set of unspent outputs in memory.
#[derive(Debug)]
pub struct MemoryStateStore {
    utxos: VecMap<OutPoint, TxOut>,
}

impl Default for MemoryStateStore {
    fn default() -> (r: MemoryStateStore)
        ensures
            r.wf(),
            r.contents().utxos() == Map::<OutPoint, TxOut>::empty(),
    {
        MemoryStateStore { utxos: VecMap::new() }
    }
}

impl MemoryStateStore {
    /// The unspent outputs.
    pub closed spec fn outputs(&self) -> Map<OutPoint, TxOut> {
        self.utxos@
    }

    /// An empty store.
    pub fn new() -> (r: MemoryStateStore)
        ensures
            r.wf(),
            r.contents().utxos() == Map::<OutPoint, TxOut>::empty(),
    {
        MemoryStateStore { utxos: VecMap::new() }
    }

    /// Puts an output in directly, for setting up an initial state.
    pub fn seed_utxo(&mut self, outpoint: OutPoint, output: TxOut)
        requires
            old(self).wf(),
        ensures
            final(self).wf(),
            final(self).contents().utxos() == old(self).contents().utxos().insert(outpoint, output),
    {
        self.utxos.insert(outpoint, output);
    }
}

impl StateStore for MemoryStateStore {
    type Error = Infallible;

    type Aside = ();

    open spec fn aside(&self) {
        ()
    }

    closed spec fn wf(&self) -> bool {
        self.utxos.wf()
    }

    open spec fn contents(&self) -> StoreView {
        StoreView {
            base: self.outputs(),
            created: Map::empty(),
            spent: Set::empty(),
            layered: false,
            reliable: true,
        }
    }

    fn get_utxo(&self, outpoint: &OutPoint) -> (r: Option<TxOut>) {
        match self.utxos.get(outpoint) {
            Some(output) => Some(*output),
            None => None,
        }
    }

    fn apply_changes(&mut self, spent: Vec<OutPoint>, created: Vec<(OutPoint, TxOut)>) -> (r:
        Result<(), Infallible>) {
        self.utxos.remove_all(&spent);
        self.utxos.insert_all(&created);
        Ok(())
    }
}

/// A staging layer over a store that is only read: collects changes without touching the base.
/// An output that was spent through the layer stays spent in it.
pub struct OverlayStore<'a, S: StateStore> {
    base: &'a S,
    spent: VecSet<OutPoint>,
    created: VecMap<OutPoint, TxOut>,
}

impl<'a, S: StateStore> OverlayStore<'a, S> {
    /// What the layer holds.
    pub closed spec fn layer(&self) -> StoreView {
        StoreView {
            base: self.base.contents().utxos(),
            created: self.created@,
            spent: self.spent@,
            layered: true,
            reliable: true,
        }
    }

    /// A layer without changes.
    pub fn new(base: &'a S) -> (r: OverlayStore<'a, S>)
        requires
            base.wf(),
        ensures
            r.wf(),
            r.contents() == (StoreView {
                base: base.contents().utxos(),
                created: Map::empty(),
                spent: Set::empty(),
                layered: true,
                reliable: true,
            }),
            r.contents().utxos() == base.contents().utxos(),
    {
        let r = OverlayStore { base, spent: VecSet::new(), created: VecMap::new() };
        assert(r.contents().utxos() =~= base.contents().utxos());
        r
    }

    /// The changes collected: what was spent, and what was created and not spent again.
    pub fn into_diff(self) -> (r: (Vec<OutPoint>, Vec<(OutPoint, TxOut)>))
        requires
            self.wf(),
        ensures
            r.0@.no_duplicates(),
            r.0@.to_set() == self.contents().spent,
            distinct_keys(r.1@),
            inserted(Map::<OutPoint, TxOut>::empty(), r.1@) == self.contents().created,
    {
        (self.spent.into_items(), self.created.into_entries())
    }
}

impl<'a, S: StateStore> StateStore for OverlayStore<'a, S> {
    type Error = S::Error;

    type Aside = ();

    open spec fn aside(&self) {
        ()
    }

    closed spec fn wf(&self) -> bool {
        self.base.wf() && self.spent.wf() && self.created.wf()
    }

    open spec fn contents(&self) -> StoreView {
        self.layer()
    }

    fn get_utxo(&self, outpoint: &OutPoint) -> (r: Option<TxOut>) {
        if self.spent.contains(outpoint) {
            return None;
        }
        match self.created.get(outpoint) {
            Some(output) => Some(*output),
            None => self.base.get_utxo(outpoint),
        }
    }

    fn apply_changes(&mut self, spent: Vec<OutPoint>, created: Vec<(OutPoint, TxOut)>) -> (r:
        Result<(), S::Error>) {
        self.spent.insert_all(&spent);
        self.created.remove_all(&spent);
        self.created.insert_all(&created);
        Ok(())
    }
}

/// Two maps that give the same for every key are the same.
pub proof fn lemma_same_gets<K, V>(a: Map<K, V>, b: Map<K, V>)
    requires
        forall|k: K| #[trigger] a.get(k) == b.get(k),
    ensures
        a == b,
{
    assert forall|k: K| a.contains_key(k) == #[trigger] b.contains_key(k) by {
        assert(a.get(k) == b.get(k));
    }
    assert forall|k: K| #[trigger] a.contains_key(k) implies a[k] == b[k] by {
        assert(a.get(k) == b.get(k));
    }
    assert(a =~= b);
}

/// What applying a regular transaction did.
#[derive(Debug, Clone, PartialEq, Eq)]
pub struct AppliedTransaction {
    /// What the inputs held beyond the outputs.
    pub fee: u128,
    /// The outputs that were spent, with what they held: what it takes to undo the spending.
    pub consumed: Vec<(OutPoint, TxOut)>,
}

/// [`AppliedTransaction`] with its list as a sequence.
#[verifier::ext_equal]
pub struct AppliedView {
    pub fee: nat,
    pub consumed: Seq<(OutPoint, TxOut)>,
}

impl View for AppliedTransaction {
    type V = AppliedView;

    open spec fn view(&self) -> AppliedView {
        AppliedView { fee: self.fee as nat, consumed: self.consumed@ }
    }
}

/// Why an input may not spend the output it names.
#[derive(Debug, Clone, Copy, PartialEq, Eq)]
pub enum SpendFault {
    UnknownOutpoint,
    InvalidPublicKey,
    AddressMismatch,
    InvalidSignature,
}

/// What an input spends, given the output it names, the address that its public key derives and
/// whether its signature verifies.
pub open spec fn spend_outcome(utxo: Option<TxOut>, owner: Option<Address>, signed: bool) -> Result<
    u128,
    SpendFault,
> {
    match utxo {
        None => Err(SpendFault::UnknownOutpoint),
        Some(output) => match owner {
            None => Err(SpendFault::InvalidPublicKey),
            Some(address) => if address != output.pubkey_hash {
                Err(SpendFault::AddressMismatch)
            } else if !signed {
                Err(SpendFault::InvalidSignature)
            } else {
                Ok(output.amount)
            },
        },
    }
}

/// Decides whether an input may spend the output it names: the output must be unspent, the
/// public key must derive its owner, and the signature must verify, judged in this order.
pub fn check_spend(utxo: Option<TxOut>, owner: Option<Address>, signed: bool) -> (r: Result<
    u128,
    SpendFault,
>)
    ensures
        r == spend_outcome(utxo, owner, signed),
{
    let output = match utxo {
        Some(output) => output,
        None => return Err(SpendFault::UnknownOutpoint),
    };
    let address = match owner {
        Some(address) => address,
        None => return Err(SpendFault::InvalidPublicKey),
    };
    if address != output.pubkey_hash {
        return Err(SpendFault::AddressMismatch);
    }
    if !signed {
        return Err(SpendFault::InvalidSignature);
    }
    Ok(output.amount)
}

/// Checks one input against the output it names.
pub fn check_input(utxo: Option<TxOut>, input: &TxIn, message: &[u8]) -> (r: Result<
    u128,
    SpendFault,
>)
    ensures
        r == spend_outcome(
            utxo,
            address_of_key_bytes(input.public_key@),
            ed25519_verifies(input.public_key@, message@, input.signature@),
        ),
{
    let output = match utxo {
        Some(output) => output,
        None => return check_spend(None, None, false),
    };
    let owner = match address_from_public_key_bytes(&input.public_key) {
        Ok(address) => Some(address),
        Err(_) => return check_spend(utxo, None, false),
    };
    let matches = match owner {
        Some(address) => address == output.pubkey_hash,
        None => false,
    };
    let signed = matches && match verify_raw(&input.public_key, message, &input.signature) {
        Ok(_) => true,
        Err(_) => false,
    };
    check_spend(utxo, owner, signed)
}

/// A spending fault as an error of this module.
pub open spec fn state_fault(f: SpendFault) -> StateErrorView {
    match f {
        SpendFault::UnknownOutpoint => StateErrorView::UnknownOutpoint,
        SpendFault::InvalidPublicKey => StateErrorView::InvalidPublicKey,
        SpendFault::AddressMismatch => StateErrorView::AddressMismatch,
        SpendFault::InvalidSignature => StateErrorView::InvalidSignature,
    }
}

impl StateError {
    fn from_fault(f: SpendFault) -> (r: StateError)
        ensures
            r@ == state_fault(f),
    {
        match f {
            SpendFault::UnknownOutpoint => StateError::UnknownOutpoint,
            SpendFault::InvalidPublicKey => StateError::InvalidPublicKey,
            SpendFault::AddressMismatch => StateError::AddressMismatch,
            SpendFault::InvalidSignature => StateError::InvalidSignature,
        }
    }
}

/// An input names an output that is not there.
pub open spec fn names_an_unknown(utxos: Map<OutPoint, TxOut>, inputs: Seq<TxIn>) -> bool {
    exists|i: int|
        0 <= i < inputs.len() && !utxos.contains_key((#[trigger] inputs[i]).prev_out)
}

/// Whether an input may spend an output that is there, where the transaction's inputs sign
/// `message`.
pub open spec fn input_outcome(output: TxOut, message: Seq<u8>, input: TxIn) -> Result<
    u128,
    SpendFault,
> {
    spend_outcome(
        Some(output),
        address_of_key_bytes(input.public_key@),
        ed25519_verifies(input.public_key@, message, input.signature@),
    )
}

/// The first thing wrong with the keys and signatures of some inputs, given the outputs that they
/// name.
pub open spec fn first_fault(
    outputs: Seq<(OutPoint, TxOut)>,
    message: Seq<u8>,
    inputs: Seq<TxIn>,
) -> Option<SpendFault>
    decreases inputs.len(),
{
    if inputs.len() == 0 {
        None
    } else {
        match first_fault(outputs.drop_last(), message, inputs.drop_last()) {
            Some(f) => Some(f),
            None => match input_outcome(outputs.last().1, message, inputs.last()) {
                Err(f) => Some(f),
                Ok(_) => None,
            },
        }
    }
}

/// The sum of what some outputs hold.
pub open spec fn pairs_total(pairs: Seq<(OutPoint, TxOut)>) -> nat
    decreases pairs.len(),
{
    if pairs.len() == 0 {
        0
    } else {
        pairs_total(pairs.drop_last()) + pairs.last().1.amount as nat
    }
}

/// The sum of some outputs.
pub open spec fn outputs_total(outputs: Seq<TxOut>) -> nat
    decreases outputs.len(),
{
    if outputs.len() == 0 {
        0
    } else {
        outputs_total(outputs.drop_last()) + outputs.last().amount as nat
    }
}

/// Two inputs name the same output.
pub open spec fn repeats_an_outpoint(inputs: Seq<TxIn>) -> bool {
    exists|i: int, j: int|
        0 <= i < j < inputs.len() && (#[trigger] inputs[i]).prev_out == (
        #[trigger] inputs[j]).prev_out
}

/// The outpoints that a transaction's inputs name.
pub open spec fn spent_outpoints(tx: TransactionView) -> Seq<OutPoint> {
    tx.inputs.map_values(|i: TxIn| i.prev_out)
}

/// The outputs that a transaction's inputs name, with what they hold.
pub open spec fn consumed_outputs(utxos: Map<OutPoint, TxOut>, tx: TransactionView) -> Seq<
    (OutPoint, TxOut),
> {
    tx.inputs.map_values(|i: TxIn| (i.prev_out, utxos[i.prev_out]))
}

/// The outputs that a transaction creates, under its id and their number.
pub open spec fn created_outputs(tx: TransactionView) -> Seq<(OutPoint, TxOut)> {
    Seq::new(
        tx.outputs.len(),
        |i: int| (OutPoint { txid: tx.id(), vout: i as u32 }, tx.outputs[i]),
    )
}

/// What a regular transaction comes to whose inputs may all be spent.
pub open spec fn settlement(utxos: Map<OutPoint, TxOut>, tx: TransactionView) -> Result<
    AppliedView,
    StateErrorView,
> {
    let available = pairs_total(consumed_outputs(utxos, tx));
    let required = outputs_total(tx.outputs);
    if available > u128::MAX || required > u128::MAX {
        Err(StateErrorView::Overflow)
    } else if required > available {
        Err(
            StateErrorView::InsufficientInputs {
                available: available as u128,
                required: required as u128,
            },
        )
    } else {
        Ok(
            AppliedView {
                fee: (available - required) as nat,
                consumed: consumed_outputs(utxos, tx),
            },
        )
    }
}

/// What a regular transaction does to a set of unspent outputs, or why it may not.
pub open spec fn transaction_outcome(
    utxos: Map<OutPoint, TxOut>,
    tx: TransactionView,
    chain_id: Seq<char>,
) -> Result<AppliedView, StateErrorView> {
    if tx.is_coinbase() {
        Err(StateErrorView::UnexpectedCoinbase)
    } else if tx.inputs.len() == 0 {
        Err(StateErrorView::NoInputs)
    } else if tx.chain_id != chain_id {
        Err(StateErrorView::WrongChainId { expected: chain_id, found: tx.chain_id })
    } else if repeats_an_outpoint(tx.inputs) {
        Err(StateErrorView::DuplicateInput)
    } else if names_an_unknown(utxos, tx.inputs) {
        Err(StateErrorView::UnknownOutpoint)
    } else {
        match first_fault(consumed_outputs(utxos, tx), signing_preimage(tx), tx.inputs) {
            Some(f) => Err(state_fault(f)),
            None => settlement(utxos, tx),
        }
    }
}

/// Whether no outpoint occurs twice among the inputs.
pub fn inputs_are_distinct(inputs: &Vec<TxIn>) -> (r: bool)
    ensures
        r == !repeats_an_outpoint(inputs@),
{
    let mut seen: VecSet<OutPoint> = VecSet::new();
    let mut i: usize = 0;
    while i < inputs.len()
        invariant
            i <= inputs@.len(),
            seen.wf(),
            forall|k: OutPoint|
                seen@.contains(k) <==> exists|j: int|
                    0 <= j < i && (#[trigger] inputs@[j]).prev_out == k,
            forall|a: int, b: int|
                0 <= a < b < i ==> (#[trigger] inputs@[a]).prev_out != (
                #[trigger] inputs@[b]).prev_out,
        decreases inputs.len() - i,
    {
        let ghost before = seen@;
        let key = inputs[i].prev_out;
        let fresh = seen.insert(key);
        if !fresh {
            assert(before.contains(key));
            let ghost j = choose|j: int| 0 <= j < i && (#[trigger] inputs@[j]).prev_out == key;
            assert(inputs@[j].prev_out == inputs@[i as int].prev_out);
            return false;
        }
        assert forall|k: OutPoint| seen@.contains(k) <==> exists|j: int|
            0 <= j < i + 1 && (#[trigger] inputs@[j]).prev_out == k by {
            if before.contains(k) {
                let j = choose|j: int| 0 <= j < i && (#[trigger] inputs@[j]).prev_out == k;
                assert(0 <= j < i + 1 && inputs@[j].prev_out == k);
            }
            if k == key {
                assert(inputs@[i as int].prev_out == k);
            }
        }
        i += 1;
    }
    true
}

/// A part of some outputs sums to no more than all of them.
pub proof fn lemma_outputs_total_take(outputs: Seq<TxOut>, n: int)
    requires
        0 <= n <= outputs.len(),
    ensures
        outputs_total(outputs.take(n)) <= outputs_total(outputs),
    decreases outputs.len() - n,
{
    if n == outputs.len() {
        assert(outputs.take(n) =~= outputs);
    } else {
        lemma_outputs_total_take(outputs, n + 1);
        assert(outputs.take(n + 1).drop_last() =~= outputs.take(n));
    }
}

/// The sum of some outputs, if it fits.
pub fn sum_outputs(outputs: &[TxOut]) -> (r: Option<u128>)
    ensures
        match r {
            Some(total) => total as nat == outputs_total(outputs@),
            None => outputs_total(outputs@) > u128::MAX,
        },
{
    let mut total: u128 = 0;
    let mut i: usize = 0;
    assert(outputs@.take(0) =~= Seq::<TxOut>::empty());
    while i < outputs.len()
        invariant
            i <= outputs@.len(),
            total as nat == outputs_total(outputs@.take(i as int)),
        decreases outputs.len() - i,
    {
        proof {
            assert(outputs@.take(i + 1).drop_last() =~= outputs@.take(i as int));
            lemma_outputs_total_take(outputs@, i + 1);
        }
        match total.checked_add(outputs[i].amount) {
            Some(sum) => {
                total = sum;
            },
            None => return None,
        }
        i += 1;
    }
    assert(outputs@.take(outputs@.len() as int) =~= outputs@);
    Some(total)
}

/// The outputs that a transaction creates, under its id and their number.
fn new_outputs(tx: &Transaction) -> (r: Vec<(OutPoint, TxOut)>)
    requires
        tx@.encodable(),
    ensures
        r@ == created_outputs(tx@),
{
    let id = txid(tx);
    let mut r: Vec<(OutPoint, TxOut)> = Vec::new();
    let mut i: usize = 0;
    while i < tx.outputs.len()
        invariant
            i <= tx.outputs@.len(),
            tx.outputs@.len() <= u32::MAX,
            id == tx@.id(),
            r@.len() == i,
            forall|j: int| 0 <= j < i ==> r@[j] == created_outputs(tx@)[j],
        decreases tx.outputs.len() - i,
    {
        r.push((OutPoint { txid: id, vout: i as u32 }, tx.outputs[i]));
        i += 1;
    }
    assert(r@ =~= created_outputs(tx@));
    r
}

/// The first fault among the first inputs is the first of all.
proof fn lemma_first_fault_found(
    outputs: Seq<(OutPoint, TxOut)>,
    message: Seq<u8>,
    inputs: Seq<TxIn>,
    n: int,
)
    requires
        outputs.len() == inputs.len(),
        0 <= n <= inputs.len(),
        first_fault(outputs.take(n), message, inputs.take(n)) is Some,
    ensures
        first_fault(outputs, message, inputs) == first_fault(
            outputs.take(n),
            message,
            inputs.take(n),
        ),
    decreases inputs.len() - n,
{
    if n == inputs.len() {
        assert(inputs.take(n) =~= inputs);
        assert(outputs.take(n) =~= outputs);
    } else {
        assert(inputs.take(n + 1).drop_last() =~= inputs.take(n));
        assert(outputs.take(n + 1).drop_last() =~= outputs.take(n));
        lemma_first_fault_found(outputs, message, inputs, n + 1);
    }
}

/// Checks the keys and signatures of some inputs against the outputs that they name, in their
/// order.
pub fn check_inputs(outputs: &Vec<(OutPoint, TxOut)>, inputs: &Vec<TxIn>, message: &[u8]) -> (r:
    Result<(), SpendFault>)
    requires
        outputs@.len() == inputs@.len(),
    ensures
        match r {
            Ok(_) => first_fault(outputs@, message@, inputs@) is None,
            Err(f) => first_fault(outputs@, message@, inputs@) == Some(f),
        },
{
    let mut i: usize = 0;
    while i < inputs.len()
        invariant
            i <= inputs@.len() == outputs@.len(),
            first_fault(outputs@.take(i as int), message@, inputs@.take(i as int)) is None,
        decreases inputs.len() - i,
    {
        proof {
            let n = i + 1;
            assert(inputs@.take(n).drop_last() =~= inputs@.take(i as int));
            assert(outputs@.take(n).drop_last() =~= outputs@.take(i as int));
            assert(inputs@.take(n).last() == inputs@[i as int]);
            assert(outputs@.take(n).last() == outputs@[i as int]);
            if first_fault(outputs@.take(n), message@, inputs@.take(n)) is Some {
                lemma_first_fault_found(outputs@, message@, inputs@, n);
            }
        }
        match check_input(Some(outputs[i].1), &inputs[i], message) {
            Ok(_) => {},
            Err(f) => return Err(f),
        }
        i += 1;
    }
    assert(inputs@.take(inputs@.len() as int) =~= inputs@);
    assert(outputs@.take(outputs@.len() as int) =~= outputs@);
    Ok(())
}

proof fn lemma_pairs_total_take(pairs: Seq<(OutPoint, TxOut)>, n: int)
    requires
        0 <= n <= pairs.len(),
    ensures
        pairs_total(pairs.take(n)) <= pairs_total(pairs),
    decreases pairs.len() - n,
{
    if n == pairs.len() {
        assert(pairs.take(n) =~= pairs);
    } else {
        lemma_pairs_total_take(pairs, n + 1);
        assert(pairs.take(n + 1).drop_last() =~= pairs.take(n));
    }
}

/// The sum of what some outputs hold, if it fits.
pub fn sum_pairs(pairs: &Vec<(OutPoint, TxOut)>) -> (r: Option<u128>)
    ensures
        match r {
            Some(total) => total as nat == pairs_total(pairs@),
            None => pairs_total(pairs@) > u128::MAX,
        },
{
    let mut total: u128 = 0;
    let mut i: usize = 0;
    assert(pairs@.take(0) =~= Seq::<(OutPoint, TxOut)>::empty());
    while i < pairs.len()
        invariant
            i <= pairs@.len(),
            total as nat == pairs_total(pairs@.take(i as int)),
        decreases pairs.len() - i,
    {
        proof {
            assert(pairs@.take(i + 1).drop_last() =~= pairs@.take(i as int));
            lemma_pairs_total_take(pairs@, i + 1);
        }
        match total.checked_add(pairs[i].1.amount) {
            Some(sum) => {
                total = sum;
            },
            None => return None,
        }
        i += 1;
    }
    assert(pairs@.take(pairs@.len() as int) =~= pairs@);
    Some(total)
}

/// Checks a regular transaction against the unspent outputs and applies it. Checked in this
/// order, stopping at the first thing wrong: it is no coinbase and has inputs; it is for this
/// chain; no outpoint repeats; every outpoint is unspent; each input's public key derives the owner
/// and its signature verifies; the inputs cover the outputs. The changes are then written at once:
/// the spent outputs go, and the new ones come under the transaction's id.
pub fn apply_transaction<S: StateStore>(
    store: &mut S,
    tx: &Transaction,
    expected_chain_id: &str,
) -> (r: Result<AppliedTransaction, StateError>)
    requires
        old(store).wf(),
        tx@.encodable(),
    ensures
        final(store).wf(),
        final(store).aside() == old(store).aside(),
        match transaction_outcome(old(store).contents().utxos(), tx@, expected_chain_id@) {
            Err(e) => r is Err && r->Err_0@ == e && final(store).contents() == old(store).contents(),
            Ok(applied) => match r {
                Ok(a) => a@ == applied && final(store).contents() == old(store).contents().after(
                    spent_outpoints(tx@),
                    created_outputs(tx@),
                ),
                Err(e) => {
                    &&& exists|x: S::Error| e@ == StateErrorView::Store(#[trigger] x.text())
                    &&& !old(store).contents().reliable
                    &&& final(store).contents() == old(store).contents()
                },
            },
        },
{
    if tx.is_coinbase() {
        return Err(StateError::UnexpectedCoinbase);
    }
    if tx.inputs.len() == 0 {
        return Err(StateError::NoInputs);
    }
    if !same_text(tx.chain_id.as_str(), expected_chain_id) {
        return Err(
            StateError::WrongChainId {
                expected: expected_chain_id.to_owned(),
                found: tx.chain_id.clone(),
            },
        );
    }
    if !inputs_are_distinct(&tx.inputs) {
        return Err(StateError::DuplicateInput);
    }
    let ghost utxos = store.contents().utxos();
    let mut spent: Vec<OutPoint> = Vec::new();
    let mut consumed: Vec<(OutPoint, TxOut)> = Vec::new();
    let mut i: usize = 0;
    while i < tx.inputs.len()
        invariant
            i <= tx.inputs@.len(),
            store.wf(),
            *store == *old(store),
            utxos == store.contents().utxos(),
            !tx@.is_coinbase(),
            tx@.inputs.len() > 0,
            tx@.chain_id == expected_chain_id@,
            !repeats_an_outpoint(tx@.inputs),
            spent@.len() == i,
            consumed@.len() == i,
            forall|j: int| 0 <= j < i ==> utxos.contains_key((#[trigger] tx@.inputs[j]).prev_out),
            forall|j: int| 0 <= j < i ==> spent@[j] == spent_outpoints(tx@)[j],
            forall|j: int| 0 <= j < i ==> consumed@[j] == consumed_outputs(utxos, tx@)[j],
        decreases tx.inputs.len() - i,
    {
        let key = tx.inputs[i].prev_out;
        match store.get_utxo(&key) {
            Some(output) => {
                spent.push(key);
                consumed.push((key, output));
            },
            None => {
                assert(!utxos.contains_key(tx@.inputs[i as int].prev_out));
                return Err(StateError::UnknownOutpoint);
            },
        }
        i += 1;
    }
    assert(spent@ =~= spent_outpoints(tx@));
    assert(consumed@ =~= consumed_outputs(utxos, tx@));
    let message = signing_bytes(tx);
    match check_inputs(&consumed, &tx.inputs, message.as_slice()) {
        Ok(_) => {},
        Err(f) => return Err(StateError::from_fault(f)),
    }
    let total_in: u128 = match sum_pairs(&consumed) {
        Some(total) => total,
        None => return Err(StateError::Overflow),
    };
    let total_out: u128 = match sum_outputs(tx.outputs.as_slice()) {
        Some(total) => total,
        None => return Err(StateError::Overflow),
    };
    if total_out > total_in {
        return Err(StateError::InsufficientInputs { available: total_in, required: total_out });
    }
    let fee: u128 = total_in - total_out;
    let created = new_outputs(tx);
    match store.apply_changes(spent, created) {
        Ok(_) => Ok(AppliedTransaction { fee, consumed }),
        Err(e) => Err(StateError::Store(e.describe())),
    }
}

/// The height that a coinbase states in its input.
pub open spec fn stated_height(tx: TransactionView) -> nat {
    le_value(tx.inputs[0].signature@.take(8))
}

/// Whether a transaction is the coinbase of the block at `height` and claims no more than
/// `allowed`, or why not.
pub open spec fn coinbase_outcome(tx: TransactionView, height: u64, allowed: u128) -> Result<
    (),
    StateErrorView,
> {
    if !tx.is_coinbase() {
        Err(StateErrorView::NotCoinbase)
    } else if stated_height(tx) != height {
        Err(
            StateErrorView::WrongCoinbaseHeight {
                expected: height,
                found: stated_height(tx) as u64,
            },
        )
    } else if outputs_total(tx.outputs) > u128::MAX {
        Err(StateErrorView::Overflow)
    } else if outputs_total(tx.outputs) > allowed {
        Err(
            StateErrorView::CoinbaseOverclaims {
                claimed: outputs_total(tx.outputs) as u128,
                allowed,
            },
        )
    } else {
        Ok(())
    }
}

/// Checks a block's coinbase and applies it, the only way to create outputs without spending
/// any. `expected_total` is the most it may claim: the subsidy plus the fees of the block's other
/// transactions.
pub fn apply_coinbase<S: StateStore>(
    store: &mut S,
    tx: &Transaction,
    height: u64,
    expected_total: u128,
) -> (r: Result<(), StateError>)
    requires
        old(store).wf(),
        tx@.encodable(),
    ensures
        final(store).wf(),
        final(store).aside() == old(store).aside(),
        match coinbase_outcome(tx@, height, expected_total) {
            Err(e) => r is Err && r->Err_0@ == e && final(store).contents() == old(store).contents(),
            Ok(_) => match r {
                Ok(_) => final(store).contents() == old(store).contents().after(
                    Seq::empty(),
                    created_outputs(tx@),
                ),
                Err(e) => {
                    &&& exists|x: S::Error| e@ == StateErrorView::Store(#[trigger] x.text())
                    &&& !old(store).contents().reliable
                    &&& final(store).contents() == old(store).contents()
                },
            },
        },
{
    if !tx.is_coinbase() {
        return Err(StateError::NotCoinbase);
    }
    let stated = part(tx.inputs[0].signature.as_slice(), 0, 8);
    assert(tx@.inputs[0].signature@.subrange(0, 8) =~= tx@.inputs[0].signature@.take(8));
    let claimed_height: u64 = u64_from_le(stated);
    if claimed_height != height {
        return Err(StateError::WrongCoinbaseHeight { expected: height, found: claimed_height });
    }
    let total_out: u128 = match sum_outputs(tx.outputs.as_slice()) {
        Some(total) => total,
        None => return Err(StateError::Overflow),
    };
    if total_out > expected_total {
        return Err(
            StateError::CoinbaseOverclaims { claimed: total_out, allowed: expected_total },
        );
    }
    let created = new_outputs(tx);
    let none: Vec<OutPoint> = Vec::new();
    match store.apply_changes(none, created) {
        Ok(_) => Ok(()),
        Err(e) => Err(StateError::Store(e.describe())),
    }
}

/// Without a fault every input may spend the output that it names.
pub proof fn lemma_no_fault(
    outputs: Seq<(OutPoint, TxOut)>,
    message: Seq<u8>,
    inputs: Seq<TxIn>,
    i: int,
)
    requires
        outputs.len() == inputs.len(),
        0 <= i < inputs.len(),
        first_fault(outputs, message, inputs) is None,
    ensures
        input_outcome(outputs[i].1, message, inputs[i]) is Ok,
    decreases inputs.len(),
{
    if i < inputs.len() - 1 {
        lemma_no_fault(outputs.drop_last(), message, inputs.drop_last(), i);
    }
}

/// No value appears or vanishes: what an accepted transaction consumes is what it creates plus
/// its fee.
pub proof fn accepted_transaction_conserves_value(
    utxos: Map<OutPoint, TxOut>,
    tx: TransactionView,
    chain_id: Seq<char>,
)
    requires
        transaction_outcome(utxos, tx, chain_id) is Ok,
    ensures
        transaction_outcome(utxos, tx, chain_id)->Ok_0.fee + outputs_total(tx.outputs)
            == pairs_total(consumed_outputs(utxos, tx)),
{
}

/// An accepted transaction is for this chain and no coinbase, and each of its inputs spends a
/// different unspent output, with the public key that its owner's address derives from and a
/// signature over the transaction.
pub proof fn accepted_transaction_is_authorised(
    utxos: Map<OutPoint, TxOut>,
    tx: TransactionView,
    chain_id: Seq<char>,
)
    requires
        transaction_outcome(utxos, tx, chain_id) is Ok,
    ensures
        !tx.is_coinbase(),
        tx.chain_id == chain_id,
        tx.inputs.len() > 0,
        !repeats_an_outpoint(tx.inputs),
        forall|i: int|
            0 <= i < tx.inputs.len() ==> {
                let input = #[trigger] tx.inputs[i];
                &&& utxos.contains_key(input.prev_out)
                &&& address_of_key_bytes(input.public_key@) == Some(
                    utxos[input.prev_out].pubkey_hash,
                )
                &&& ed25519_verifies(input.public_key@, signing_preimage(tx), input.signature@)
            },
{
    let outputs = consumed_outputs(utxos, tx);
    assert forall|i: int| 0 <= i < tx.inputs.len() implies {
        let input = #[trigger] tx.inputs[i];
        &&& utxos.contains_key(input.prev_out)
        &&& address_of_key_bytes(input.public_key@) == Some(utxos[input.prev_out].pubkey_hash)
        &&& ed25519_verifies(input.public_key@, signing_preimage(tx), input.signature@)
    } by {
        assert(utxos.contains_key(tx.inputs[i].prev_out));
        lemma_no_fault(outputs, signing_preimage(tx), tx.inputs, i);
        assert(outputs[i].1 == utxos[tx.inputs[i].prev_out]);
    }
}

/// Once a transaction has been applied, another one that spends any of the same outputs names an
/// output that is not there any more and is refused for it, unless the first created that very
/// outpoint anew. What is checked earlier must be in order.
pub proof fn double_spend_is_refused(
    store: StoreView,
    first: TransactionView,
    second: TransactionView,
    chain_id: Seq<char>,
    i: int,
    j: int,
)
    requires
        0 <= i < first.inputs.len(),
        0 <= j < second.inputs.len(),
        first.inputs[i].prev_out == second.inputs[j].prev_out,
        !has_key(created_outputs(first), first.inputs[i].prev_out),
    ensures
        ({
            let outcome = transaction_outcome(
                store.after(spent_outpoints(first), created_outputs(first)).utxos(),
                second,
                chain_id,
            );
            &&& outcome is Err
            &&& !second.is_coinbase() && second.chain_id == chain_id && !repeats_an_outpoint(
                second.inputs,
            ) ==> outcome == Err::<AppliedView, _>(StateErrorView::UnknownOutpoint)
        }),
{
    let spent = spent_outpoints(first);
    let created = created_outputs(first);
    let after = store.after(spent, created).utxos();
    let k = first.inputs[i].prev_out;
    assert(spent[i] == k);
    assert(spent.to_set().contains(k));
    if !store.layered {
        lemma_inserted_other(store.base.remove_keys(spent.to_set()), created, k);
        assert(changed(store.base, spent, created).get(k) is None);
    }
    assert(!after.contains_key(second.inputs[j].prev_out));
    assert(names_an_unknown(after, second.inputs));
}

/// The changes collected in a layer, applied to its base, give what the layer showed, as long as
/// nothing that was spent in it was created again.
pub proof fn diff_gives_what_the_layer_showed(
    layer: StoreView,
    spent: Seq<OutPoint>,
    created: Seq<(OutPoint, TxOut)>,
)
    requires
        layer.layered,
        spent.to_set() == layer.spent,
        inserted(Map::<OutPoint, TxOut>::empty(), created) == layer.created,
        layer.created.dom().disjoint(layer.spent),
    ensures
        changed(layer.base, spent, created) == layer.utxos(),
{
    lemma_changed_union(layer.base, spent, created);
    assert(changed(layer.base, spent, created) =~= layer.utxos());
}

/// Changes to a map, as taking keys out and laying another map over it.
pub proof fn lemma_changed_union(
    m: Map<OutPoint, TxOut>,
    spent: Seq<OutPoint>,
    created: Seq<(OutPoint, TxOut)>,
)
    ensures
        changed(m, spent, created) == m.remove_keys(spent.to_set()).union_prefer_right(
            inserted(Map::<OutPoint, TxOut>::empty(), created),
        ),
{
    let kept = m.remove_keys(spent.to_set());
    let own = inserted(Map::<OutPoint, TxOut>::empty(), created);
    let lhs = changed(m, spent, created);
    let rhs = kept.union_prefer_right(own);
    assert forall|k: OutPoint| #[trigger] lhs.get(k) == rhs.get(k) by {
        if has_key(created, k) {
            lemma_inserted_key(kept, Map::empty(), created, k);
        } else {
            lemma_inserted_other(kept, created, k);
            lemma_inserted_other(Map::<OutPoint, TxOut>::empty(), created, k);
            assert(own.get(k) is None);
        }
    }
    lemma_same_gets(lhs, rhs);
}

/// A transaction puts an output under this outpoint: the transaction's id and the number of one
/// of its outputs.
pub open spec fn creates_output(tx: TransactionView, o: OutPoint) -> bool {
    o.txid == tx.id() && o.vout < tx.outputs.len()
}

/// One of a transaction's inputs names this outpoint.
pub open spec fn spends_output(tx: TransactionView, o: OutPoint) -> bool {
    exists|i: int| 0 <= i < tx.inputs.len() && (#[trigger] tx.inputs[i]).prev_out == o
}

/// One of some transactions spends this outpoint.
pub open spec fn any_spends(txs: Seq<TransactionView>, o: OutPoint) -> bool {
    exists|i: int| 0 <= i < txs.len() && spends_output(#[trigger] txs[i], o)
}

/// What the last of some transactions to create this outpoint put there.
pub open spec fn last_created(txs: Seq<TransactionView>, o: OutPoint) -> Option<TxOut>
    decreases txs.len(),
{
    if txs.len() == 0 {
        None
    } else if creates_output(txs.last(), o) {
        Some(txs.last().outputs[o.vout as int])
    } else {
        last_created(txs.drop_last(), o)
    }
}

/// What is left under an outpoint after some transactions: nothing once one of them has spent it,
/// otherwise what they created there, otherwise what was there before.
pub open spec fn unspent_after(
    base: Map<OutPoint, TxOut>,
    txs: Seq<TransactionView>,
    o: OutPoint,
) -> Option<TxOut> {
    if any_spends(txs, o) {
        None
    } else {
        match last_created(txs, o) {
            Some(output) => Some(output),
            None => base.get(o),
        }
    }
}

/// Putting in the outputs of a transaction: each under the transaction's id and its number, and
/// nothing else.
pub proof fn lemma_created_get(m: Map<OutPoint, TxOut>, tx: TransactionView, o: OutPoint)
    requires
        tx.outputs.len() <= u32::MAX,
    ensures
        inserted(m, created_outputs(tx)).get(o) == if creates_output(tx, o) {
            Some(tx.outputs[o.vout as int])
        } else {
            m.get(o)
        },
{
    let pairs = created_outputs(tx);
    if creates_output(tx, o) {
        assert(distinct_keys(pairs));
        lemma_inserted_distinct(m, pairs, o.vout as int);
        assert(pairs[o.vout as int].0 == o);
    } else {
        assert(!has_key(pairs, o));
        lemma_inserted_other(m, pairs, o);
    }
}

/// The outpoints that a transaction spends are those that its inputs name.
pub proof fn lemma_spent_contains(tx: TransactionView, o: OutPoint)
    ensures
        spent_outpoints(tx).to_set().contains(o) == spends_output(tx, o),
{
    let spent = spent_outpoints(tx);
    if spends_output(tx, o) {
        let i = choose|i: int| 0 <= i < tx.inputs.len() && (#[trigger] tx.inputs[i]).prev_out == o;
        assert(spent[i] == o);
    }
    if spent.contains(o) {
        let i = choose|i: int| 0 <= i < spent.len() && spent[i] == o;
        assert(tx.inputs[i].prev_out == o);
    }
}

/// Applying a transaction puts its outputs under its id and their numbers, takes away the outputs
/// that its inputs name, and leaves every other output as it was. In a layer an output that was
/// spent once does not come back.
pub proof fn transaction_moves_its_outputs(store: StoreView, tx: TransactionView, o: OutPoint)
    requires
        tx.outputs.len() <= u32::MAX,
    ensures
        ({
            let before = store.utxos();
            let after = store.after(spent_outpoints(tx), created_outputs(tx)).utxos();
            &&& !store.layered && creates_output(tx, o) ==> after.contains_key(o) && after[o]
                == tx.outputs[o.vout as int]
            &&& !store.layered && spends_output(tx, o) && !creates_output(tx, o)
                ==> !after.contains_key(o)
            &&& store.layered && (spends_output(tx, o) || store.spent.contains(o))
                ==> !after.contains_key(o)
            &&& store.layered && creates_output(tx, o) && !spends_output(tx, o)
                && !store.spent.contains(o) ==> after.contains_key(o) && after[o]
                == tx.outputs[o.vout as int]
            &&& !spends_output(tx, o) && !creates_output(tx, o) ==> after.get(o) == before.get(o)
        }),
{
    let spent = spent_outpoints(tx);
    let created = created_outputs(tx);
    lemma_spent_contains(tx, o);
    if store.layered {
        lemma_created_get(store.created.remove_keys(spent.to_set()), tx, o);
        assert(changed(store.created, spent, created).get(o) == if creates_output(tx, o) {
            Some(tx.outputs[o.vout as int])
        } else if spends_output(tx, o) {
            None
        } else {
            store.created.get(o)
        });
    } else {
        lemma_created_get(store.base.remove_keys(spent.to_set()), tx, o);
    }
}

/// A layer holds what some transactions spent and created.
pub open spec fn layer_holds(
    created: Map<OutPoint, TxOut>,
    spent: Set<OutPoint>,
    txs: Seq<TransactionView>,
) -> bool {
    &&& forall|o: OutPoint| #[trigger] spent.contains(o) == any_spends(txs, o)
    &&& forall|o: OutPoint|
        !any_spends(txs, o) ==> #[trigger] created.get(o) == last_created(txs, o)
}

/// An empty layer holds no transactions.
pub proof fn lemma_empty_layer_holds()
    ensures
        layer_holds(Map::empty(), Set::empty(), Seq::empty()),
{
}

/// One more transaction spends what it spends.
pub proof fn lemma_any_spends_push(txs: Seq<TransactionView>, tx: TransactionView, o: OutPoint)
    ensures
        any_spends(txs.push(tx), o) == (any_spends(txs, o) || spends_output(tx, o)),
{
    let more = txs.push(tx);
    if any_spends(txs, o) {
        let i = choose|i: int| 0 <= i < txs.len() && spends_output(#[trigger] txs[i], o);
        assert(spends_output(more[i], o));
    }
    if spends_output(tx, o) {
        assert(spends_output(more[txs.len() as int], o));
    }
    if any_spends(more, o) {
        let i = choose|i: int| 0 <= i < more.len() && spends_output(#[trigger] more[i], o);
        if i < txs.len() {
            assert(spends_output(txs[i], o));
        }
    }
}

/// A layer with one more transaction holds one more transaction.
pub proof fn lemma_layer_holds_more(
    created: Map<OutPoint, TxOut>,
    spent: Set<OutPoint>,
    txs: Seq<TransactionView>,
    tx: TransactionView,
)
    requires
        layer_holds(created, spent, txs),
        tx.outputs.len() <= u32::MAX,
    ensures
        layer_holds(
            changed(created, spent_outpoints(tx), created_outputs(tx)),
            spent.union(spent_outpoints(tx).to_set()),
            txs.push(tx),
        ),
{
    let more = txs.push(tx);
    let next = changed(created, spent_outpoints(tx), created_outputs(tx));
    let gone = spent.union(spent_outpoints(tx).to_set());
    assert(more.drop_last() =~= txs);
    assert forall|o: OutPoint| #[trigger] gone.contains(o) == any_spends(more, o) by {
        lemma_any_spends_push(txs, tx, o);
        lemma_spent_contains(tx, o);
        assert(spent.contains(o) == any_spends(txs, o));
    }
    assert forall|o: OutPoint| !any_spends(more, o) implies #[trigger] next.get(o) == last_created(
        more,
        o,
    ) by {
        lemma_any_spends_push(txs, tx, o);
        lemma_spent_contains(tx, o);
        let kept = created.remove_keys(spent_outpoints(tx).to_set());
        lemma_created_get(kept, tx, o);
        assert(created.get(o) == last_created(txs, o));
        assert(kept.get(o) == created.get(o));
    }
}

/// What is seen through a layer is what is left after the transactions that it holds.
pub proof fn lemma_layer_shows(
    base: Map<OutPoint, TxOut>,
    created: Map<OutPoint, TxOut>,
    spent: Set<OutPoint>,
    txs: Seq<TransactionView>,
)
    requires
        layer_holds(created, spent, txs),
    ensures
        forall|o: OutPoint| #[trigger]
            seen_through(base, created, spent).get(o) == unspent_after(base, txs, o),
{
    let seen = seen_through(base, created, spent);
    assert forall|o: OutPoint| #[trigger] seen.get(o) == unspent_after(base, txs, o) by {
        assert(spent.contains(o) == any_spends(txs, o));
        if !any_spends(txs, o) {
            assert(created.get(o) == last_created(txs, o));
        }
    }
}

/// A transaction is accepted, with what its inputs hold beyond its outputs as the fee, whenever
/// it is for this chain and no coinbase, has inputs, each of which names another unspent output
/// and carries the public key that its owner's address derives from and a signature over the
/// transaction, and the amounts fit and cover the outputs.
pub proof fn authorised_transaction_is_accepted(
    utxos: Map<OutPoint, TxOut>,
    tx: TransactionView,
    chain_id: Seq<char>,
)
    requires
        tx.inputs.len() > 0,
        !tx.is_coinbase(),
        tx.chain_id == chain_id,
        forall|i: int, j: int|
            0 <= i < j < tx.inputs.len() ==> (#[trigger] tx.inputs[i]).prev_out != (
            #[trigger] tx.inputs[j]).prev_out,
        forall|i: int|
            0 <= i < tx.inputs.len() ==> {
                let input = #[trigger] tx.inputs[i];
                &&& utxos.contains_key(input.prev_out)
                &&& address_of_key_bytes(input.public_key@) == Some(
                    utxos[input.prev_out].pubkey_hash,
                )
                &&& ed25519_verifies(input.public_key@, signing_preimage(tx), input.signature@)
            },
        pairs_total(consumed_outputs(utxos, tx)) <= u128::MAX,
        outputs_total(tx.outputs) <= pairs_total(consumed_outputs(utxos, tx)),
    ensures
        transaction_outcome(utxos, tx, chain_id) is Ok,
        transaction_outcome(utxos, tx, chain_id)->Ok_0.fee == pairs_total(
            consumed_outputs(utxos, tx),
        ) - outputs_total(tx.outputs),
{
    let outputs = consumed_outputs(utxos, tx);
    assert forall|i: int| 0 <= i < tx.inputs.len() implies input_outcome(
        (#[trigger] outputs[i]).1,
        signing_preimage(tx),
        tx.inputs[i],
    ) is Ok by {
        assert(outputs[i] == (tx.inputs[i].prev_out, utxos[tx.inputs[i].prev_out]));
    }
    lemma_all_sound(outputs, signing_preimage(tx), tx.inputs);
}

/// Inputs that may all be spent have no fault.
proof fn lemma_all_sound(outputs: Seq<(OutPoint, TxOut)>, message: Seq<u8>, inputs: Seq<TxIn>)
    requires
        outputs.len() == inputs.len(),
        forall|i: int|
            0 <= i < inputs.len() ==> input_outcome(
                (#[trigger] outputs[i]).1,
                message,
                inputs[i],
            ) is Ok,
    ensures
        first_fault(outputs, message, inputs) is None,
    decreases inputs.len(),
{
    if inputs.len() > 0 {
        let front = outputs.drop_last();
        assert forall|i: int| 0 <= i < inputs.drop_last().len() implies input_outcome(
            (#[trigger] front[i]).1,
            message,
            inputs.drop_last()[i],
        ) is Ok by {
            assert(front[i] == outputs[i]);
        }
        lemma_all_sound(front, message, inputs.drop_last());
        assert(outputs[outputs.len() - 1] == outputs.last());
    }
}

/// The sum of outputs is a sum: nothing for none, the amount of a single one, and what the parts
/// come to together.
pub proof fn outputs_add_up(a: Seq<TxOut>, b: Seq<TxOut>, one: TxOut)
    ensures
        outputs_total(Seq::empty()) == 0,
        outputs_total(seq![one]) == one.amount,
        outputs_total(a + b) == outputs_total(a) + outputs_total(b),
    decreases b.len(),
{
    assert(seq![one].drop_last() =~= Seq::<TxOut>::empty());
    if b.len() == 0 {
        assert(a + b =~= a);
    } else {
        outputs_add_up(a, b.drop_last(), one);
        assert((a + b).drop_last() =~= a + b.drop_last());
    }
}

/// So is the sum of what outpoints hold.
pub proof fn pairs_add_up(
    a: Seq<(OutPoint, TxOut)>,
    b: Seq<(OutPoint, TxOut)>,
    one: (OutPoint, TxOut),
)
    ensures
        pairs_total(Seq::empty()) == 0,
        pairs_total(seq![one]) == one.1.amount,
        pairs_total(a + b) == pairs_total(a) + pairs_total(b),
    decreases b.len(),
{
    assert(seq![one].drop_last() =~= Seq::<(OutPoint, TxOut)>::empty());
    if b.len() == 0 {
        assert(a + b =~= a);
    } else {
        pairs_add_up(a, b.drop_last(), one);
        assert((a + b).drop_last() =~= a + b.drop_last());
    }
}

/// A coinbase is accepted at a height exactly if it has a single input, which names no output
/// and states that height in its first eight bytes, and its outputs come to no more than what is
/// allowed.
pub proof fn coinbase_is_accepted_where_it_belongs(tx: TransactionView, height: u64, allowed: u128)
    ensures
        coinbase_outcome(tx, height, allowed) is Ok <==> {
            &&& tx.inputs.len() == 1
            &&& tx.inputs[0].prev_out.txid == COINBASE_PREV_TXID
            &&& tx.inputs[0].prev_out.vout == u32::MAX
            &&& tx.inputs[0].signature@.take(8) == le_bytes(height as nat, 8)
            &&& outputs_total(tx.outputs) <= allowed
        },
{
    if tx.inputs.len() > 0 {
        let stated = tx.inputs[0].signature@.take(8);
        lemma_le_value_bytes(stated);
        lemma_pow256();
        lemma_le_round_trip(height as nat, 8);
    }
}

/// What a transaction is refused for: the first of these that it breaks. A coinbase, no inputs,
/// another chain, an output named twice, an output that is not there; then the first input whose
/// key is none, is not the owner's, or whose signature does not verify; then amounts that do not
/// fit, or do not cover the outputs.
pub proof fn transaction_is_refused_for_its_first_fault(
    utxos: Map<OutPoint, TxOut>,
    tx: TransactionView,
    chain_id: Seq<char>,
    k: int,
)
    ensures
        ({
            let outcome = transaction_outcome(utxos, tx, chain_id);
            let regular = !tx.is_coinbase() && tx.inputs.len() > 0;
            let ours = regular && tx.chain_id == chain_id;
            let distinct = ours && !repeats_an_outpoint(tx.inputs);
            let known = distinct && forall|i: int|
                0 <= i < tx.inputs.len() ==> utxos.contains_key((#[trigger] tx.inputs[i]).prev_out);
            let held = pairs_total(consumed_outputs(utxos, tx));
            let paid = outputs_total(tx.outputs);
            &&& tx.is_coinbase() ==> outcome == Err::<AppliedView, _>(
                StateErrorView::UnexpectedCoinbase,
            )
            &&& !tx.is_coinbase() && tx.inputs.len() == 0 ==> outcome == Err::<AppliedView, _>(
                StateErrorView::NoInputs,
            )
            &&& regular && !ours ==> outcome == Err::<AppliedView, _>(
                StateErrorView::WrongChainId { expected: chain_id, found: tx.chain_id },
            )
            &&& ours && !distinct ==> outcome == Err::<AppliedView, _>(
                StateErrorView::DuplicateInput,
            )
            &&& distinct && !known ==> outcome == Err::<AppliedView, _>(
                StateErrorView::UnknownOutpoint,
            )
            &&& known && 0 <= k < tx.inputs.len() && (forall|i: int|
                0 <= i < k ==> may_spend(utxos, tx, i)) && !may_spend(utxos, tx, k) ==> outcome
                == Err::<AppliedView, _>(
                {
                    let input = tx.inputs[k];
                    let owner = utxos[input.prev_out].pubkey_hash;
                    if !ed25519_is_public_key(input.public_key@) {
                        StateErrorView::InvalidPublicKey
                    } else if address_of_key(input.public_key@) != owner {
                        StateErrorView::AddressMismatch
                    } else {
                        StateErrorView::InvalidSignature
                    }
                },
            )
            &&& known && (forall|i: int| 0 <= i < tx.inputs.len() ==> may_spend(utxos, tx, i)) ==> {
                &&& held > u128::MAX || paid > u128::MAX ==> outcome == Err::<AppliedView, _>(
                    StateErrorView::Overflow,
                )
                &&& held < paid <= u128::MAX ==> outcome == Err::<AppliedView, _>(
                    StateErrorView::InsufficientInputs {
                        available: held as u128,
                        required: paid as u128,
                    },
                )
                &&& paid <= held <= u128::MAX ==> outcome is Ok
            }
        }),
{
    let outputs = consumed_outputs(utxos, tx);
    let message = signing_preimage(tx);
    if forall|i: int| 0 <= i < tx.inputs.len() ==> may_spend(utxos, tx, i) {
        assert forall|i: int| 0 <= i < tx.inputs.len() implies input_outcome(
            (#[trigger] outputs[i]).1,
            message,
            tx.inputs[i],
        ) is Ok by {
            assert(may_spend(utxos, tx, i));
        }
        lemma_all_sound(outputs, message, tx.inputs);
    }
    if 0 <= k < tx.inputs.len() && (forall|i: int| 0 <= i < k ==> may_spend(utxos, tx, i))
        && !may_spend(utxos, tx, k) {
        assert forall|i: int| 0 <= i < k implies input_outcome(
            (#[trigger] outputs[i]).1,
            message,
            tx.inputs[i],
        ) is Ok by {
            assert(may_spend(utxos, tx, i));
        }
        assert(outputs[k] == (tx.inputs[k].prev_out, utxos[tx.inputs[k].prev_out]));
        lemma_first_fault_at(outputs, message, tx.inputs, k);
    }
}

/// An input carries the public key that the owner's address of the output it names derives from,
/// and a signature over the transaction.
pub open spec fn may_spend(utxos: Map<OutPoint, TxOut>, tx: TransactionView, i: int) -> bool {
    let input = tx.inputs[i];
    &&& ed25519_is_public_key(input.public_key@)
    &&& address_of_key(input.public_key@) == utxos[input.prev_out].pubkey_hash
    &&& ed25519_verifies(input.public_key@, signing_preimage(tx), input.signature@)
}

/// The first input that may not be spent decides.
proof fn lemma_first_fault_at(
    outputs: Seq<(OutPoint, TxOut)>,
    message: Seq<u8>,
    inputs: Seq<TxIn>,
    k: int,
)
    requires
        outputs.len() == inputs.len(),
        0 <= k < inputs.len(),
        forall|i: int|
            0 <= i < k ==> input_outcome((#[trigger] outputs[i]).1, message, inputs[i]) is Ok,
        input_outcome(outputs[k].1, message, inputs[k]) is Err,
    ensures
        first_fault(outputs, message, inputs) == Some(
            input_outcome(outputs[k].1, message, inputs[k])->Err_0,
        ),
    decreases inputs.len(),
{
    let front = outputs.drop_last();
    let less = inputs.drop_last();
    assert forall|i: int| 0 <= i < k implies input_outcome(
        (#[trigger] front[i]).1,
        message,
        less[i],
    ) is Ok by {
        assert(front[i] == outputs[i]);
    }
    if k < inputs.len() - 1 {
        lemma_first_fault_at(front, message, less, k);
    } else {
        lemma_all_sound(front, message, less);
    }
}

/// What a coinbase is refused for: it is none, it states another height, or it pays out more than
/// is allowed.
pub proof fn coinbase_is_refused_for_its_first_fault(tx: TransactionView, height: u64, allowed: u128)
    ensures
        ({
            let outcome = coinbase_outcome(tx, height, allowed);
            let stated = le_value(tx.inputs[0].signature@.take(8));
            let paid = outputs_total(tx.outputs);
            &&& !tx.is_coinbase() ==> outcome == Err::<(), _>(StateErrorView::NotCoinbase)
            &&& tx.is_coinbase() && stated != height ==> outcome == Err::<(), _>(
                StateErrorView::WrongCoinbaseHeight { expected: height, found: stated as u64 },
            )
            &&& tx.is_coinbase() && stated == height && paid > u128::MAX ==> outcome == Err::<
                (),
                _,
            >(StateErrorView::Overflow)
            &&& tx.is_coinbase() && stated == height && allowed < paid <= u128::MAX ==> outcome
                == Err::<(), _>(
                StateErrorView::CoinbaseOverclaims { claimed: paid as u128, allowed },
            )
        }),
{
}

/// Each input of a transaction consumes the output that it names, with what that holds, in the
/// order of the inputs, and an accepted transaction says so.
pub proof fn each_input_consumes_the_output_it_names(
    utxos: Map<OutPoint, TxOut>,
    tx: TransactionView,
    chain_id: Seq<char>,
)
    ensures
        consumed_outputs(utxos, tx).len() == tx.inputs.len(),
        forall|i: int|
            0 <= i < tx.inputs.len() ==> #[trigger] consumed_outputs(utxos, tx)[i] == (
                tx.inputs[i].prev_out,
                utxos[tx.inputs[i].prev_out],
            ),
        transaction_outcome(utxos, tx, chain_id) matches Ok(applied) ==> applied.consumed
            == consumed_outputs(utxos, tx),
{
}

/// An output is spent, for the amount that it holds, exactly where it is there, the key's address
/// is its owner's, and the signature verifies; otherwise the first of these that fails is named.
pub proof fn output_is_spent_by_its_owner(
    utxo: Option<TxOut>,
    owner: Option<Address>,
    signed: bool,
)
    ensures
        spend_outcome(utxo, owner, signed) is Ok <==> {
            &&& utxo is Some
            &&& owner == Some(utxo->0.pubkey_hash)
            &&& signed
        },
        spend_outcome(utxo, owner, signed) matches Ok(amount) ==> amount == utxo->0.amount,
        utxo is None ==> spend_outcome(utxo, owner, signed) == Err::<u128, _>(
            SpendFault::UnknownOutpoint,
        ),
        utxo is Some && owner is None ==> spend_outcome(utxo, owner, signed) == Err::<u128, _>(
            SpendFault::InvalidPublicKey,
        ),
        utxo is Some && owner is Some && owner->0 != utxo->0.pubkey_hash ==> spend_outcome(
            utxo,
            owner,
            signed,
        ) == Err::<u128, _>(SpendFault::AddressMismatch),
{
}

} // verus!
