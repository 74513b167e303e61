//! What the remote interface takes in and gives out: hashes, keys and signatures in hexadecimal,
//! amounts in decimal, addresses in bech32.

use vstd::prelude::*;

use crate::bytes::{array_of, lemma_array_of, to_array};
use crate::codec::{block_hash, txid};
use crate::crypto::{bech32_text, result_view, Address, CryptoError, CryptoErrorView, ADDRESS_HRP};
use crate::genesis::{address_of_text, address_views};
use crate::listing::lemma_array_of_32;
use crate::messages::crypto_text;
use crate::node::MiningInfo;
use crate::state::ErrorText;
use crate::text::{
    decimal, decimal_text, decoding_inverts_hex, hex_decode, hex_encode, hex_text, joined,
    parse_u128, parsed_u128, reading_inverts_decimal_writing, unhexed,
};
use crate::types::{
    transaction_views, Block, BlockView, OutPoint, Transaction, TransactionView, TxIn, TxOut,
};

verus! {

/// Why a call was refused.
#[derive(Debug, Clone, PartialEq, Eq)]
pub enum RpcFault {
    /// The call is at fault.
    InvalidParams(String),
    /// The node is at fault.
    InternalError(String),
}

/// [`RpcFault`] with its text as a sequence.
#[verifier::ext_equal]
pub enum RpcFaultView {
    InvalidParams(Seq<char>),
    InternalError(Seq<char>),
}

impl View for RpcFault {
    type V = RpcFaultView;

    open spec fn view(&self) -> RpcFaultView {
        match *self {
            RpcFault::InvalidParams(t) => RpcFaultView::InvalidParams(t@),
            RpcFault::InternalError(t) => RpcFaultView::InternalError(t@),
        }
    }
}

/// An input as text.
#[derive(Debug, Clone, PartialEq, Eq)]
pub struct TxInParams {
    pub prev_txid: String,
    pub prev_vout: u32,
    pub public_key: String,
    pub signature: String,
}

/// [`TxInParams`] with its texts as sequences.
#[verifier::ext_equal]
pub struct TxInParamsView {
    pub prev_txid: Seq<char>,
    pub prev_vout: u32,
    pub public_key: Seq<char>,
    pub signature: Seq<char>,
}

impl View for TxInParams {
    type V = TxInParamsView;

    open spec fn view(&self) -> TxInParamsView {
        TxInParamsView {
            prev_txid: self.prev_txid@,
            prev_vout: self.prev_vout,
            public_key: self.public_key@,
            signature: self.signature@,
        }
    }
}

/// An output as text.
#[derive(Debug, Clone, PartialEq, Eq)]
pub struct TxOutParams {
    pub amount: String,
    pub pubkey_hash: String,
}

/// [`TxOutParams`] with its texts as sequences.
#[verifier::ext_equal]
pub struct TxOutParamsView {
    pub amount: Seq<char>,
    pub pubkey_hash: Seq<char>,
}

impl View for TxOutParams {
    type V = TxOutParamsView;

    open spec fn view(&self) -> TxOutParamsView {
        TxOutParamsView { amount: self.amount@, pubkey_hash: self.pubkey_hash@ }
    }
}

pub open spec fn input_views(list: Seq<TxInParams>) -> Seq<TxInParamsView> {
    Seq::new(list.len(), |i: int| list[i]@)
}

pub open spec fn output_views(list: Seq<TxOutParams>) -> Seq<TxOutParamsView> {
    Seq::new(list.len(), |i: int| list[i]@)
}

/// A transaction that is handed in, as text.
#[derive(Debug, Clone, PartialEq, Eq)]
pub struct SubmitTransactionParams {
    pub chain_id: String,
    pub inputs: Vec<TxInParams>,
    pub outputs: Vec<TxOutParams>,
}

/// [`SubmitTransactionParams`] with its texts and lists as sequences.
#[verifier::ext_equal]
pub struct SubmitParamsView {
    pub chain_id: Seq<char>,
    pub inputs: Seq<TxInParamsView>,
    pub outputs: Seq<TxOutParamsView>,
}

impl View for SubmitTransactionParams {
    type V = SubmitParamsView;

    open spec fn view(&self) -> SubmitParamsView {
        SubmitParamsView {
            chain_id: self.chain_id@,
            inputs: input_views(self.inputs@),
            outputs: output_views(self.outputs@),
        }
    }
}

/// The bytes of a field given in hexadecimal, of which there must be `N`.
pub open spec fn hex_array<const N: usize>(field: Seq<char>, text: Seq<char>) -> Result<
    [u8; N],
    RpcFaultView,
> {
    match unhexed(text) {
        None => Err(RpcFaultView::InvalidParams("`"@ + field + "` no es hex válido"@)),
        Some(bytes) => if bytes.len() == N {
            Ok(array_of(bytes))
        } else {
            Err(
                RpcFaultView::InvalidParams(
                    "`"@ + field + "` tiene que ser de "@ + decimal_text(N as nat) + " bytes"@,
                ),
            )
        },
    }
}

/// Reads a field given in hexadecimal, which must have `N` bytes.
pub fn decode_hex_array<const N: usize>(field: &str, text: &str) -> (r: Result<[u8; N], RpcFault>)
    ensures
        result_view(r) == hex_array::<N>(field@, text@),
{
    let bytes = match hex_decode(text) {
        Ok(bytes) => bytes,
        Err(_) => {
            return Err(RpcFault::InvalidParams(joined("`", field, "` no es hex válido")));
        },
    };
    if bytes.len() != N {
        let mut message = joined("`", field, "` tiene que ser de ");
        message.append(decimal(N as u128).as_str());
        message.append(" bytes");
        return Err(RpcFault::InvalidParams(message));
    }
    let array: [u8; N] = to_array(bytes.as_slice());
    proof {
        lemma_array_of(array);
    }
    Ok(array)
}

/// The input that a text stands for.
pub open spec fn input_of(p: TxInParamsView) -> Result<TxIn, RpcFaultView> {
    match hex_array::<32>("prev_txid"@, p.prev_txid) {
        Err(e) => Err(e),
        Ok(txid) => match hex_array::<32>("public_key"@, p.public_key) {
            Err(e) => Err(e),
            Ok(public_key) => match hex_array::<64>("signature"@, p.signature) {
                Err(e) => Err(e),
                Ok(signature) => Ok(
                    TxIn { prev_out: OutPoint { txid, vout: p.prev_vout }, public_key, signature },
                ),
            },
        },
    }
}

/// The output that a text stands for, from what its address was read as.
pub open spec fn output_of(p: TxOutParamsView, address: Result<Address, CryptoErrorView>) -> Result<
    TxOut,
    RpcFaultView,
> {
    match parsed_u128(p.amount) {
        None => Err(RpcFaultView::InvalidParams("`amount` no es un u128 válido"@)),
        Some(amount) => match address {
            Err(e) => Err(RpcFaultView::InvalidParams(crypto_text(e))),
            Ok(pubkey_hash) => Ok(TxOut { amount, pubkey_hash }),
        },
    }
}

/// The inputs that some texts stand for, or the first thing wrong with them.
pub open spec fn inputs_of(list: Seq<TxInParamsView>) -> Result<Seq<TxIn>, RpcFaultView>
    decreases list.len(),
{
    if list.len() == 0 {
        Ok(Seq::empty())
    } else {
        match inputs_of(list.drop_last()) {
            Err(e) => Err(e),
            Ok(done) => match input_of(list.last()) {
                Err(e) => Err(e),
                Ok(input) => Ok(done.push(input)),
            },
        }
    }
}

/// The outputs that some texts stand for, or the first thing wrong with them.
pub open spec fn outputs_of(
    list: Seq<TxOutParamsView>,
    addresses: Seq<Result<Address, CryptoErrorView>>,
) -> Result<Seq<TxOut>, RpcFaultView>
    decreases list.len(),
{
    if list.len() == 0 {
        Ok(Seq::empty())
    } else {
        match outputs_of(list.drop_last(), addresses.drop_last()) {
            Err(e) => Err(e),
            Ok(done) => match output_of(list.last(), addresses.last()) {
                Err(e) => Err(e),
                Ok(output) => Ok(done.push(output)),
            },
        }
    }
}

/// The transaction that is handed in, from what its addresses were read as, or the first thing
/// wrong with it: inputs are looked at before outputs.
pub open spec fn submission(
    params: SubmitParamsView,
    addresses: Seq<Result<Address, CryptoErrorView>>,
) -> Result<TransactionView, RpcFaultView> {
    match inputs_of(params.inputs) {
        Err(e) => Err(e),
        Ok(inputs) => match outputs_of(params.outputs, addresses) {
            Err(e) => Err(e),
            Ok(outputs) => Ok(TransactionView { chain_id: params.chain_id, inputs, outputs }),
        },
    }
}

/// What the addresses of some outputs are read as.
pub open spec fn output_addresses(list: Seq<TxOutParamsView>) -> Seq<
    Result<Address, CryptoErrorView>,
> {
    Seq::new(list.len(), |i: int| address_of_text(list[i].pubkey_hash))
}

/// The result of reading a transaction, over models.
pub open spec fn transaction_result(r: Result<Transaction, RpcFault>) -> Result<
    TransactionView,
    RpcFaultView,
> {
    match r {
        Ok(tx) => Ok(tx@),
        Err(e) => Err(e@),
    }
}

proof fn lemma_inputs_error(list: Seq<TxInParamsView>, k: int)
    requires
        0 <= k <= list.len(),
        inputs_of(list.take(k)) is Err,
    ensures
        inputs_of(list) == inputs_of(list.take(k)),
    decreases list.len() - k,
{
    if k < list.len() {
        assert(list.take(k + 1).drop_last() =~= list.take(k));
        lemma_inputs_error(list, k + 1);
    } else {
        assert(list.take(k) =~= list);
    }
}

proof fn lemma_outputs_error(
    list: Seq<TxOutParamsView>,
    addresses: Seq<Result<Address, CryptoErrorView>>,
    k: int,
)
    requires
        0 <= k <= list.len() == addresses.len(),
        outputs_of(list.take(k), addresses.take(k)) is Err,
    ensures
        outputs_of(list, addresses) == outputs_of(list.take(k), addresses.take(k)),
    decreases list.len() - k,
{
    if k < list.len() {
        assert(list.take(k + 1).drop_last() =~= list.take(k));
        assert(addresses.take(k + 1).drop_last() =~= addresses.take(k));
        lemma_outputs_error(list, addresses, k + 1);
    } else {
        assert(list.take(k) =~= list);
        assert(addresses.take(k) =~= addresses);
    }
}

fn read_input(p: &TxInParams) -> (r: Result<TxIn, RpcFault>)
    ensures
        result_view(r) == input_of(p@),
{
    let txid: [u8; 32] = match decode_hex_array("prev_txid", p.prev_txid.as_str()) {
        Ok(bytes) => bytes,
        Err(e) => return Err(e),
    };
    let public_key: [u8; 32] = match decode_hex_array("public_key", p.public_key.as_str()) {
        Ok(bytes) => bytes,
        Err(e) => return Err(e),
    };
    let signature: [u8; 64] = match decode_hex_array("signature", p.signature.as_str()) {
        Ok(bytes) => bytes,
        Err(e) => return Err(e),
    };
    Ok(TxIn { prev_out: OutPoint { txid, vout: p.prev_vout }, public_key, signature })
}

fn read_output(p: &TxOutParams, address: &Result<Address, CryptoError>) -> (r: Result<
    TxOut,
    RpcFault,
>)
    ensures
        result_view(r) == output_of(p@, result_view(*address)),
{
    let amount: u128 = match parse_u128(p.amount.as_str()) {
        Some(amount) => amount,
        None => {
            return Err(RpcFault::InvalidParams("`amount` no es un u128 válido".to_owned()));
        },
    };
    match address {
        Ok(pubkey_hash) => Ok(TxOut { amount, pubkey_hash: *pubkey_hash }),
        Err(e) => Err(RpcFault::InvalidParams(e.describe())),
    }
}

/// Reads a transaction that is handed in, from what its addresses were read as.
pub fn assemble_transaction(
    params: SubmitTransactionParams,
    addresses: &Vec<Result<Address, CryptoError>>,
) -> (r: Result<Transaction, RpcFault>)
    requires
        addresses@.len() == params.outputs@.len(),
    ensures
        transaction_result(r) == submission(params@, address_views(addresses@)),
{
    let ghost given = params@;
    let ghost read = address_views(addresses@);
    let mut inputs: Vec<TxIn> = Vec::new();
    let mut i: usize = 0;
    assert(given.inputs.take(0) =~= Seq::<TxInParamsView>::empty());
    while i < params.inputs.len()
        invariant
            i <= params.inputs.len(),
            given == params@,
            inputs_of(given.inputs.take(i as int)) == Ok::<_, RpcFaultView>(inputs@),
        decreases params.inputs.len() - i,
    {
        proof {
            assert(given.inputs.take(i + 1).drop_last() =~= given.inputs.take(i as int));
            assert(given.inputs.take(i + 1).last() == params.inputs@[i as int]@);
        }
        match read_input(&params.inputs[i]) {
            Ok(input) => inputs.push(input),
            Err(e) => {
                proof {
                    lemma_inputs_error(given.inputs, i + 1);
                }
                return Err(e);
            },
        }
        i += 1;
    }
    assert(given.inputs.take(given.inputs.len() as int) =~= given.inputs);
    let mut outputs: Vec<TxOut> = Vec::new();
    let mut j: usize = 0;
    assert(given.outputs.take(0) =~= Seq::<TxOutParamsView>::empty());
    while j < params.outputs.len()
        invariant
            j <= params.outputs.len(),
            given == params@,
            read == address_views(addresses@),
            addresses@.len() == params.outputs@.len(),
            inputs_of(given.inputs) == Ok::<_, RpcFaultView>(inputs@),
            outputs_of(given.outputs.take(j as int), read.take(j as int)) == Ok::<_, RpcFaultView>(
                outputs@,
            ),
        decreases params.outputs.len() - j,
    {
        proof {
            assert(given.outputs.take(j + 1).drop_last() =~= given.outputs.take(j as int));
            assert(read.take(j + 1).drop_last() =~= read.take(j as int));
            assert(given.outputs.take(j + 1).last() == params.outputs@[j as int]@);
            assert(read.take(j + 1).last() == result_view(addresses@[j as int]));
        }
        match read_output(&params.outputs[j], &addresses[j]) {
            Ok(output) => outputs.push(output),
            Err(e) => {
                proof {
                    lemma_outputs_error(given.outputs, read, j + 1);
                }
                return Err(e);
            },
        }
        j += 1;
    }
    proof {
        assert(given.outputs.take(given.outputs.len() as int) =~= given.outputs);
        assert(read.take(read.len() as int) =~= read);
    }
    Ok(Transaction { chain_id: params.chain_id, inputs, outputs })
}

/// Reads a transaction that is handed in.
pub fn parse_transaction(params: SubmitTransactionParams) -> (r: Result<Transaction, RpcFault>)
    ensures
        transaction_result(r) == submission(params@, output_addresses(params@.outputs)),
{
    let mut addresses: Vec<Result<Address, CryptoError>> = Vec::new();
    let mut i: usize = 0;
    while i < params.outputs.len()
        invariant
            i <= params.outputs.len(),
            addresses@.len() == i,
            forall|j: int|
                0 <= j < i ==> result_view(#[trigger] addresses@[j]) == address_of_text(
                    params.outputs@[j].pubkey_hash@,
                ),
        decreases params.outputs.len() - i,
    {
        addresses.push(Address::from_bech32(params.outputs[i].pubkey_hash.as_str()));
        i += 1;
    }
    assert(address_views(addresses@) =~= output_addresses(params@.outputs));
    assemble_transaction(params, &addresses)
}

/// An address that a call names.
pub fn parse_address(text: &str) -> (r: Result<Address, RpcFault>)
    ensures
        result_view(r) == (match address_of_text(text@) {
            Ok(address) => Ok(address),
            Err(e) => Err(RpcFaultView::InvalidParams(crypto_text(e))),
        }),
{
    match Address::from_bech32(text) {
        Ok(address) => Ok(address),
        Err(e) => Err(RpcFault::InvalidParams(e.describe())),
    }
}

/// An input as text.
pub open spec fn input_text(input: TxIn) -> TxInParamsView {
    TxInParamsView {
        prev_txid: hex_text(input.prev_out.txid@),
        prev_vout: input.prev_out.vout,
        public_key: hex_text(input.public_key@),
        signature: hex_text(input.signature@),
    }
}

/// An output as text.
pub open spec fn output_text(output: TxOut) -> TxOutParamsView {
    TxOutParamsView {
        amount: decimal_text(output.amount as nat),
        pubkey_hash: bech32_text(ADDRESS_HRP@, output.pubkey_hash.0@),
    }
}

pub open spec fn input_texts(inputs: Seq<TxIn>) -> Seq<TxInParamsView> {
    Seq::new(inputs.len(), |i: int| input_text(inputs[i]))
}

pub open spec fn output_texts(outputs: Seq<TxOut>) -> Seq<TxOutParamsView> {
    Seq::new(outputs.len(), |i: int| output_text(outputs[i]))
}

/// Reading an input back from its text gives that input.
pub proof fn input_text_round_trip(input: TxIn)
    ensures
        input_of(input_text(input)) == Ok::<TxIn, RpcFaultView>(input),
{
    decoding_inverts_hex(input.prev_out.txid@);
    decoding_inverts_hex(input.public_key@);
    decoding_inverts_hex(input.signature@);
    lemma_array_of(input.prev_out.txid);
    lemma_array_of(input.public_key);
    lemma_array_of(input.signature);
}

proof fn lemma_inputs_round_trip(inputs: Seq<TxIn>)
    ensures
        inputs_of(input_texts(inputs)) == Ok::<Seq<TxIn>, RpcFaultView>(inputs),
    decreases inputs.len(),
{
    if inputs.len() == 0 {
        assert(inputs =~= Seq::<TxIn>::empty());
    } else {
        lemma_inputs_round_trip(inputs.drop_last());
        assert(input_texts(inputs).drop_last() =~= input_texts(inputs.drop_last()));
        input_text_round_trip(inputs.last());
        assert(inputs.drop_last().push(inputs.last()) =~= inputs);
    }
}

fn write_inputs(inputs: &Vec<TxIn>) -> (r: Vec<TxInParams>)
    ensures
        input_views(r@) == input_texts(inputs@),
{
    let mut out: Vec<TxInParams> = Vec::new();
    let mut i: usize = 0;
    while i < inputs.len()
        invariant
            i <= inputs.len(),
            out@.len() == i,
            forall|j: int| 0 <= j < i ==> (#[trigger] out@[j])@ == input_text(inputs@[j]),
        decreases inputs.len() - i,
    {
        let input = &inputs[i];
        out.push(
            TxInParams {
                prev_txid: hex_encode(input.prev_out.txid.as_slice()),
                prev_vout: input.prev_out.vout,
                public_key: hex_encode(input.public_key.as_slice()),
                signature: hex_encode(input.signature.as_slice()),
            },
        );
        i += 1;
    }
    assert(input_views(out@) =~= input_texts(inputs@));
    out
}

/// An output is read back from its text as it was written.
spec fn reads_back(output: TxOut) -> bool {
    address_of_text(output_text(output).pubkey_hash) == Ok::<Address, CryptoErrorView>(
        output.pubkey_hash,
    )
}

fn write_outputs(outputs: &Vec<TxOut>) -> (r: Vec<TxOutParams>)
    ensures
        output_views(r@) == output_texts(outputs@),
        forall|i: int| 0 <= i < outputs@.len() ==> reads_back(#[trigger] outputs@[i]),
{
    let mut out: Vec<TxOutParams> = Vec::new();
    let mut i: usize = 0;
    while i < outputs.len()
        invariant
            i <= outputs.len(),
            out@.len() == i,
            forall|j: int| 0 <= j < i ==> (#[trigger] out@[j])@ == output_text(outputs@[j]),
            forall|j: int| 0 <= j < i ==> reads_back(#[trigger] outputs@[j]),
        decreases outputs.len() - i,
    {
        let output = &outputs[i];
        out.push(
            TxOutParams {
                amount: decimal(output.amount),
                pubkey_hash: output.pubkey_hash.to_bech32(),
            },
        );
        i += 1;
    }
    assert(output_views(out@) =~= output_texts(outputs@));
    out
}

proof fn lemma_outputs_round_trip(outputs: Seq<TxOut>)
    requires
        forall|i: int| 0 <= i < outputs.len() ==> reads_back(#[trigger] outputs[i]),
    ensures
        outputs_of(output_texts(outputs), output_addresses(output_texts(outputs))) == Ok::<
            Seq<TxOut>,
            RpcFaultView,
        >(outputs),
    decreases outputs.len(),
{
    if outputs.len() == 0 {
        assert(outputs =~= Seq::<TxOut>::empty());
    } else {
        let front = outputs.drop_last();
        assert forall|i: int| 0 <= i < front.len() implies reads_back(#[trigger] front[i]) by {
            assert(front[i] == outputs[i]);
        }
        lemma_outputs_round_trip(front);
        assert(output_texts(outputs).drop_last() =~= output_texts(front));
        assert(output_addresses(output_texts(outputs)).drop_last() =~= output_addresses(
            output_texts(front),
        ));
        assert(reads_back(outputs[outputs.len() - 1]));
        reading_inverts_decimal_writing(outputs.last().amount);
        assert(front.push(outputs.last()) =~= outputs);
    }
}

/// The text form in which a transaction is handed in. Reading it gives the transaction back.
pub fn transaction_params(tx: &Transaction) -> (r: SubmitTransactionParams)
    ensures
        r@ == (SubmitParamsView {
            chain_id: tx@.chain_id,
            inputs: input_texts(tx@.inputs),
            outputs: output_texts(tx@.outputs),
        }),
        submission(r@, output_addresses(r@.outputs)) == Ok::<TransactionView, RpcFaultView>(tx@),
{
    let r = SubmitTransactionParams {
        chain_id: tx.chain_id.clone(),
        inputs: write_inputs(&tx.inputs),
        outputs: write_outputs(&tx.outputs),
    };
    proof {
        lemma_inputs_round_trip(tx@.inputs);
        lemma_outputs_round_trip(tx@.outputs);
    }
    r
}

/// A transaction as text.
#[derive(Debug, Clone, PartialEq, Eq)]
pub struct TransactionResult {
    pub txid: String,
    pub chain_id: String,
    pub is_coinbase: bool,
    pub inputs: Vec<TxInParams>,
    pub outputs: Vec<TxOutParams>,
}

/// [`TransactionResult`] with its texts and lists as sequences.
#[verifier::ext_equal]
pub struct TransactionResultView {
    pub txid: Seq<char>,
    pub chain_id: Seq<char>,
    pub is_coinbase: bool,
    pub inputs: Seq<TxInParamsView>,
    pub outputs: Seq<TxOutParamsView>,
}

impl View for TransactionResult {
    type V = TransactionResultView;

    open spec fn view(&self) -> TransactionResultView {
        TransactionResultView {
            txid: self.txid@,
            chain_id: self.chain_id@,
            is_coinbase: self.is_coinbase,
            inputs: input_views(self.inputs@),
            outputs: output_views(self.outputs@),
        }
    }
}

/// A transaction as text.
pub open spec fn transaction_text(tx: TransactionView) -> TransactionResultView {
    TransactionResultView {
        txid: hex_text(tx.id()@),
        chain_id: tx.chain_id,
        is_coinbase: tx.is_coinbase(),
        inputs: input_texts(tx.inputs),
        outputs: output_texts(tx.outputs),
    }
}

/// Writes a transaction as text.
pub fn transaction_to_result(tx: &Transaction) -> (r: TransactionResult)
    requires
        tx@.encodable(),
    ensures
        r@ == transaction_text(tx@),
{
    TransactionResult {
        txid: hex_encode(txid(tx).as_slice()),
        chain_id: tx.chain_id.clone(),
        is_coinbase: tx.is_coinbase(),
        inputs: write_inputs(&tx.inputs),
        outputs: write_outputs(&tx.outputs),
    }
}

/// A block as text.
#[derive(Debug, Clone, PartialEq, Eq)]
pub struct BlockResult {
    pub height: u64,
    pub hash: String,
    pub parent_hash: String,
    pub tx_root: String,
    pub timestamp: u64,
    pub target: String,
    pub pow_nonce: u64,
    pub transactions: Vec<TransactionResult>,
}

/// [`BlockResult`] with its texts and lists as sequences.
#[verifier::ext_equal]
pub struct BlockResultView {
    pub height: u64,
    pub hash: Seq<char>,
    pub parent_hash: Seq<char>,
    pub tx_root: Seq<char>,
    pub timestamp: u64,
    pub target: Seq<char>,
    pub pow_nonce: u64,
    pub transactions: Seq<TransactionResultView>,
}

pub open spec fn transaction_result_views(list: Seq<TransactionResult>) -> Seq<
    TransactionResultView,
> {
    Seq::new(list.len(), |i: int| list[i]@)
}

pub open spec fn transaction_texts(list: Seq<TransactionView>) -> Seq<TransactionResultView> {
    Seq::new(list.len(), |i: int| transaction_text(list[i]))
}

impl View for BlockResult {
    type V = BlockResultView;

    open spec fn view(&self) -> BlockResultView {
        BlockResultView {
            height: self.height,
            hash: self.hash@,
            parent_hash: self.parent_hash@,
            tx_root: self.tx_root@,
            timestamp: self.timestamp,
            target: self.target@,
            pow_nonce: self.pow_nonce,
            transactions: transaction_result_views(self.transactions@),
        }
    }
}

/// A block as text.
pub open spec fn block_text(block: BlockView) -> BlockResultView {
    BlockResultView {
        height: block.header.height,
        hash: hex_text(block.hash()@),
        parent_hash: hex_text(block.header.parent_hash@),
        tx_root: hex_text(block.header.tx_root@),
        timestamp: block.header.timestamp,
        target: hex_text(block.header.target@),
        pow_nonce: block.header.pow_nonce,
        transactions: transaction_texts(block.transactions),
    }
}

/// Writes a block as text.
pub fn block_to_result(block: &Block) -> (r: BlockResult)
    requires
        block@.encodable(),
    ensures
        r@ == block_text(block@),
{
    let mut transactions: Vec<TransactionResult> = Vec::new();
    let mut i: usize = 0;
    proof {
        crate::codec::lemma_block_encodable(block@);
    }
    while i < block.transactions.len()
        invariant
            i <= block.transactions.len(),
            transactions@.len() == i,
            block@.transactions == transaction_views(block.transactions@),
            forall|j: int|
                0 <= j < block@.transactions.len() ==> (
                #[trigger] block@.transactions[j]).encodable(),
            forall|j: int|
                0 <= j < i ==> (#[trigger] transactions@[j])@ == transaction_text(
                    block.transactions@[j]@,
                ),
        decreases block.transactions.len() - i,
    {
        assert(block@.transactions[i as int] == block.transactions@[i as int]@);
        transactions.push(transaction_to_result(&block.transactions[i]));
        i += 1;
    }
    assert(transaction_result_views(transactions@) =~= transaction_texts(block@.transactions));
    BlockResult {
        height: block.header.height,
        hash: hex_encode(block_hash(block).as_slice()),
        parent_hash: hex_encode(block.header.parent_hash.as_slice()),
        tx_root: hex_encode(block.header.tx_root.as_slice()),
        timestamp: block.header.timestamp,
        target: hex_encode(block.header.target.as_slice()),
        pow_nonce: block.header.pow_nonce,
        transactions,
    }
}

/// An unspent output as text.
#[derive(Debug, Clone, PartialEq, Eq)]
pub struct UnspentOutput {
    pub txid: String,
    pub vout: u32,
    pub amount: String,
}

/// [`UnspentOutput`] with its texts as sequences.
#[verifier::ext_equal]
pub struct UnspentOutputView {
    pub txid: Seq<char>,
    pub vout: u32,
    pub amount: Seq<char>,
}

impl View for UnspentOutput {
    type V = UnspentOutputView;

    open spec fn view(&self) -> UnspentOutputView {
        UnspentOutputView { txid: self.txid@, vout: self.vout, amount: self.amount@ }
    }
}

pub open spec fn unspent_views(list: Seq<UnspentOutput>) -> Seq<UnspentOutputView> {
    Seq::new(list.len(), |i: int| list[i]@)
}

/// An unspent output as text.
pub open spec fn unspent_text(outpoint: OutPoint, output: TxOut) -> UnspentOutputView {
    UnspentOutputView {
        txid: hex_text(outpoint.txid@),
        vout: outpoint.vout,
        amount: decimal_text(output.amount as nat),
    }
}

/// Writes a list of unspent outputs as text.
pub fn unspent_to_result(utxos: &Vec<(OutPoint, TxOut)>) -> (r: Vec<UnspentOutput>)
    ensures
        unspent_views(r@) == Seq::new(
            utxos@.len(),
            |i: int| unspent_text(utxos@[i].0, utxos@[i].1),
        ),
{
    let mut out: Vec<UnspentOutput> = Vec::new();
    let mut i: usize = 0;
    while i < utxos.len()
        invariant
            i <= utxos.len(),
            out@.len() == i,
            forall|j: int|
                0 <= j < i ==> (#[trigger] out@[j])@ == unspent_text(utxos@[j].0, utxos@[j].1),
        decreases utxos.len() - i,
    {
        let (outpoint, output) = utxos[i];
        out.push(
            UnspentOutput {
                txid: hex_encode(outpoint.txid.as_slice()),
                vout: outpoint.vout,
                amount: decimal(output.amount),
            },
        );
        i += 1;
    }
    assert(unspent_views(out@) =~= Seq::new(
        utxos@.len(),
        |i: int| unspent_text(utxos@[i].0, utxos@[i].1),
    ));
    out
}

/// The id that a text stands for: 32 bytes in hexadecimal.
pub open spec fn txid_of(text: Seq<char>) -> Option<[u8; 32]> {
    match unhexed(text) {
        Some(bytes) => if bytes.len() == 32 {
            Some(array_of(bytes))
        } else {
            None
        },
        None => None,
    }
}

/// Reads the id that a node answers with.
pub fn parse_txid(text: &str) -> (r: Option<[u8; 32]>)
    ensures
        r == txid_of(text@),
{
    match hex_decode(text) {
        Ok(bytes) => if bytes.len() == 32 {
            let array: [u8; 32] = to_array(bytes.as_slice());
            proof {
                lemma_array_of(array);
            }
            Some(array)
        } else {
            None
        },
        Err(_) => None,
    }
}

/// The unspent output that a text stands for, and what it holds.
pub open spec fn unspent_of(u: UnspentOutputView) -> Option<(OutPoint, u128)> {
    match txid_of(u.txid) {
        None => None,
        Some(txid) => match parsed_u128(u.amount) {
            None => None,
            Some(amount) => Some((OutPoint { txid, vout: u.vout }, amount)),
        },
    }
}

/// Reads an unspent output that a node answers with.
pub fn parse_unspent(u: &UnspentOutput) -> (r: Option<(OutPoint, u128)>)
    ensures
        r == unspent_of(u@),
{
    let txid: [u8; 32] = match parse_txid(u.txid.as_str()) {
        Some(txid) => txid,
        None => return None,
    };
    match parse_u128(u.amount.as_str()) {
        Some(amount) => Some((OutPoint { txid, vout: u.vout }, amount)),
        None => None,
    }
}

/// Reading an unspent output back from its text gives its outpoint and its amount.
pub proof fn unspent_text_round_trip(outpoint: OutPoint, output: TxOut)
    ensures
        unspent_of(unspent_text(outpoint, output)) == Some((outpoint, output.amount)),
{
    decoding_inverts_hex(outpoint.txid@);
    lemma_array_of(outpoint.txid);
    reading_inverts_decimal_writing(output.amount);
}

/// A 32-byte hash as text.
pub fn hash_text(hash: &[u8; 32]) -> (r: String)
    ensures
        r@ == hex_text(hash@),
{
    hex_encode(hash.as_slice())
}

/// A hash is read back from its text.
pub proof fn hash_text_round_trip(hash: [u8; 32])
    ensures
        txid_of(hex_text(hash@)) == Some(hash),
{
    decoding_inverts_hex(hash@);
    lemma_array_of(hash);
}

/// What mining looks like from here, as text.
#[derive(Debug, Clone, PartialEq, Eq)]
pub struct MiningInfoResult {
    pub chain_id: String,
    pub height: Option<u64>,
    pub target: String,
    pub next_subsidy: String,
}

/// Writes what mining looks like from here as text.
pub fn mining_info_to_result(info: MiningInfo) -> (r: MiningInfoResult)
    ensures
        r.chain_id@ == info.chain_id@,
        r.height == info.height,
        r.target@ == hex_text(info.target@),
        r.next_subsidy@ == decimal_text(info.next_subsidy as nat),
{
    MiningInfoResult {
        chain_id: info.chain_id,
        height: info.height,
        target: hex_encode(info.target.as_slice()),
        next_subsidy: decimal(info.next_subsidy),
    }
}

/// A transaction that is handed in is read exactly if each of its inputs and outputs can be read,
/// and has them in the order in which they are given: every input with the ids, keys and
/// signatures that its texts stand for, every output with its amount and its address.
pub proof fn submission_reads_every_part(
    params: SubmitParamsView,
    addresses: Seq<Result<Address, CryptoErrorView>>,
)
    requires
        addresses.len() == params.outputs.len(),
    ensures
        submission(params, addresses) is Ok <==> {
            &&& forall|i: int|
                0 <= i < params.inputs.len() ==> input_of(#[trigger] params.inputs[i]) is Ok
            &&& forall|i: int|
                0 <= i < params.outputs.len() ==> (#[trigger] addresses[i]) is Ok && parsed_u128(
                    params.outputs[i].amount,
                ) is Some
        },
        submission(params, addresses) matches Ok(tx) ==> {
            &&& tx.chain_id == params.chain_id
            &&& tx.inputs.len() == params.inputs.len()
            &&& forall|i: int|
                0 <= i < tx.inputs.len() ==> {
                    let input = #[trigger] tx.inputs[i];
                    &&& unhexed(params.inputs[i].prev_txid) == Some(input.prev_out.txid@)
                    &&& input.prev_out.vout == params.inputs[i].prev_vout
                    &&& unhexed(params.inputs[i].public_key) == Some(input.public_key@)
                    &&& hex_array::<64>("signature"@, params.inputs[i].signature) == Ok::<
                        _,
                        RpcFaultView,
                    >(input.signature)
                }
            &&& tx.outputs.len() == params.outputs.len()
            &&& forall|i: int|
                0 <= i < tx.outputs.len() ==> {
                    let output = #[trigger] tx.outputs[i];
                    &&& parsed_u128(params.outputs[i].amount) == Some(output.amount)
                    &&& addresses[i] == Ok::<_, CryptoErrorView>(output.pubkey_hash)
                }
        },
{
    lemma_inputs_are_read(params.inputs);
    lemma_outputs_are_read(params.outputs, addresses);
    if submission(params, addresses) is Ok {
        let tx = submission(params, addresses)->Ok_0;
        assert forall|i: int| 0 <= i < tx.inputs.len() implies {
            let input = #[trigger] tx.inputs[i];
            &&& unhexed(params.inputs[i].prev_txid) == Some(input.prev_out.txid@)
            &&& unhexed(params.inputs[i].public_key) == Some(input.public_key@)
        } by {
            let p = params.inputs[i];
            assert(input_of(p) == Ok::<_, RpcFaultView>(tx.inputs[i]));
            lemma_array_of_32(unhexed(p.prev_txid)->0);
            lemma_array_of_32(unhexed(p.public_key)->0);
        }
        assert forall|i: int| 0 <= i < params.outputs.len() implies (#[trigger] addresses[i]) is Ok
            && parsed_u128(params.outputs[i].amount) is Some by {
            assert(output_of(params.outputs[i], addresses[i]) == Ok::<_, RpcFaultView>(
                tx.outputs[i],
            ));
        }
        assert forall|i: int| 0 <= i < params.inputs.len() implies input_of(
            #[trigger] params.inputs[i],
        ) is Ok by {
            assert(input_of(params.inputs[i]) == Ok::<_, RpcFaultView>(tx.inputs[i]));
        }
    }
}

proof fn lemma_inputs_are_read(list: Seq<TxInParamsView>)
    ensures
        (forall|i: int| 0 <= i < list.len() ==> input_of(#[trigger] list[i]) is Ok) ==> inputs_of(
            list,
        ) is Ok,
        inputs_of(list) matches Ok(inputs) ==> inputs.len() == list.len() && forall|i: int|
            0 <= i < list.len() ==> input_of(#[trigger] list[i]) == Ok::<_, RpcFaultView>(
                inputs[i],
            ),
    decreases list.len(),
{
    if list.len() > 0 {
        let front = list.drop_last();
        lemma_inputs_are_read(front);
        if forall|i: int| 0 <= i < list.len() ==> input_of(#[trigger] list[i]) is Ok {
            assert forall|i: int| 0 <= i < front.len() implies input_of(#[trigger] front[i]) is Ok by {
                assert(front[i] == list[i]);
            }
            assert(input_of(list[list.len() - 1]) is Ok);
        }
        if inputs_of(list) is Ok {
            let inputs = inputs_of(list)->Ok_0;
            assert forall|i: int| 0 <= i < list.len() implies input_of(#[trigger] list[i]) == Ok::<
                _,
                RpcFaultView,
            >(inputs[i]) by {
                if i < front.len() {
                    assert(front[i] == list[i]);
                }
            }
        }
    }
}

proof fn lemma_outputs_are_read(
    list: Seq<TxOutParamsView>,
    addresses: Seq<Result<Address, CryptoErrorView>>,
)
    requires
        addresses.len() == list.len(),
    ensures
        (forall|i: int|
            0 <= i < list.len() ==> (#[trigger] addresses[i]) is Ok && parsed_u128(
                list[i].amount,
            ) is Some) ==> outputs_of(list, addresses) is Ok,
        outputs_of(list, addresses) matches Ok(outputs) ==> outputs.len() == list.len()
            && forall|i: int|
            0 <= i < list.len() ==> output_of(list[i], #[trigger] addresses[i]) == Ok::<
                _,
                RpcFaultView,
            >(outputs[i]),
    decreases list.len(),
{
    if list.len() > 0 {
        let front = list.drop_last();
        let read = addresses.drop_last();
        lemma_outputs_are_read(front, read);
        if forall|i: int|
            0 <= i < list.len() ==> (#[trigger] addresses[i]) is Ok && parsed_u128(
                list[i].amount,
            ) is Some {
            assert forall|i: int| 0 <= i < front.len() implies (#[trigger] read[i]) is Ok
                && parsed_u128(front[i].amount) is Some by {
                assert(read[i] == addresses[i] && front[i] == list[i]);
            }
            assert(addresses[list.len() - 1] is Ok);
        }
        if outputs_of(list, addresses) is Ok {
            let outputs = outputs_of(list, addresses)->Ok_0;
            assert forall|i: int| 0 <= i < list.len() implies output_of(
                list[i],
                #[trigger] addresses[i],
            ) == Ok::<_, RpcFaultView>(outputs[i]) by {
                if i < front.len() {
                    assert(read[i] == addresses[i] && front[i] == list[i]);
                }
            }
        }
    }
}

/// The text of a block says everything that its header does: the hashes and the target can be read
/// back from it. It has the text of every transaction, in order, and that says the transaction's
/// id, its inputs, and whether it is a coinbase.
pub proof fn block_text_states_the_block(block: BlockView)
    ensures
        ({
            let text = block_text(block);
            &&& text.height == block.header.height
            &&& unhexed(text.hash) == Some(block.hash()@)
            &&& unhexed(text.parent_hash) == Some(block.header.parent_hash@)
            &&& unhexed(text.tx_root) == Some(block.header.tx_root@)
            &&& text.timestamp == block.header.timestamp
            &&& unhexed(text.target) == Some(block.header.target@)
            &&& text.pow_nonce == block.header.pow_nonce
            &&& text.transactions.len() == block.transactions.len()
            &&& forall|i: int|
                0 <= i < block.transactions.len() ==> {
                    let tx = #[trigger] block.transactions[i];
                    let said = text.transactions[i];
                    &&& unhexed(said.txid) == Some(tx.id()@)
                    &&& said.chain_id == tx.chain_id
                    &&& said.is_coinbase == tx.is_coinbase()
                    &&& inputs_of(said.inputs) == Ok::<_, RpcFaultView>(tx.inputs)
                    &&& said.outputs.len() == tx.outputs.len()
                    &&& forall|k: int|
                        0 <= k < tx.outputs.len() ==> parsed_u128(
                            (#[trigger] said.outputs[k]).amount,
                        ) == Some(tx.outputs[k].amount)
                }
        }),
{
    let text = block_text(block);
    decoding_inverts_hex(block.hash()@);
    decoding_inverts_hex(block.header.parent_hash@);
    decoding_inverts_hex(block.header.tx_root@);
    decoding_inverts_hex(block.header.target@);
    assert forall|i: int| 0 <= i < block.transactions.len() implies {
        let tx = #[trigger] block.transactions[i];
        let said = text.transactions[i];
        &&& unhexed(said.txid) == Some(tx.id()@)
        &&& said.chain_id == tx.chain_id
        &&& said.is_coinbase == tx.is_coinbase()
        &&& inputs_of(said.inputs) == Ok::<_, RpcFaultView>(tx.inputs)
        &&& said.outputs.len() == tx.outputs.len()
        &&& forall|k: int|
            0 <= k < tx.outputs.len() ==> parsed_u128((#[trigger] said.outputs[k]).amount) == Some(
                tx.outputs[k].amount,
            )
    } by {
        let tx = block.transactions[i];
        let said = text.transactions[i];
        decoding_inverts_hex(tx.id()@);
        lemma_inputs_round_trip(tx.inputs);
        assert forall|k: int| 0 <= k < tx.outputs.len() implies parsed_u128(
            (#[trigger] said.outputs[k]).amount,
        ) == Some(tx.outputs[k].amount) by {
            reading_inverts_decimal_writing(tx.outputs[k].amount);
        }
    }
}

} // verus!
