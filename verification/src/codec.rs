//! Encoding, decoding and hashing of the ledger's values.

use vstd::arithmetic::power2::{lemma2_to64, lemma_pow2_adds, lemma_pow2_pos, pow2};
use vstd::prelude::*;

use crate::bytes::{be_at_most, be_value};
use crate::crypto::{digest, hash};
use crate::encoding::{starts_with, Canonical};
use crate::state::ErrorText;
use crate::types::{
    transaction_views, Block, BlockHeader, BlockView, OutPoint, Transaction, TransactionView, TxIn,
    TxOut,
};

verus! {

/// Why bytes could not be decoded.
#[derive(Debug, Clone, PartialEq, Eq)]
pub enum CodecError {
    /// The bytes are not the encoding of any value of the type, with what Borsh says of them.
    Borsh(String),
}

/// [`CodecError`] with its text as a character sequence.
#[verifier::ext_equal]
pub enum CodecErrorView {
    Borsh(Seq<char>),
}

impl View for CodecError {
    type V = CodecErrorView;

    open spec fn view(&self) -> CodecErrorView {
        match self {
            CodecError::Borsh(t) => CodecErrorView::Borsh(t@),
        }
    }
}

impl ErrorText for CodecError {
    open spec fn text(&self) -> Seq<char> {
        match self {
            CodecError::Borsh(t) => "error de (de)serialización borsh: "@ + t@,
        }
    }

    fn describe(&self) -> (r: String) {
        match self {
            CodecError::Borsh(t) => {
                let mut r = "error de (de)serialización borsh: ".to_owned();
                r.append(t.as_str());
                r
            },
        }
    }
}

/// A value that is stored or sent by itself. Bytes that are not the encoding of one are refused
/// with a reason.
pub trait Decodable: Canonical {
    /// Why bytes are refused.
    spec fn refusal(bytes: Seq<u8>) -> Seq<char>;

    /// Says why bytes are refused that are not the encoding of a value.
    fn refuse(bytes: &[u8]) -> (r: String)
        requires
            decoded::<Self>(bytes@) is None,
        ensures
            r@ == Self::refusal(bytes@),
    ;
}

/// A text that may be absent, as a sequence.
pub open spec fn optional_text(t: Option<String>) -> Option<Seq<char>> {
    match t {
        Some(t) => Some(t@),
        None => None,
    }
}

/// What Borsh says of bytes that it does not read as an output, if it does not.
pub uninterp spec fn borsh_output_error(bytes: Seq<u8>) -> Option<Seq<char>>;

/// What Borsh says of bytes that it does not read as a list of spent outputs, if it does not.
pub uninterp spec fn borsh_spent_error(bytes: Seq<u8>) -> Option<Seq<char>>;

/// What Borsh says of bytes that it does not read as a transaction, if it does not.
pub uninterp spec fn borsh_transaction_error(bytes: Seq<u8>) -> Option<Seq<char>>;

/// What Borsh says of bytes that it does not read as a block, if it does not.
pub uninterp spec fn borsh_block_error(bytes: Seq<u8>) -> Option<Seq<char>>;

/// `borsh::from_slice` of the fields of an output, as the text of its error. Claimed: the text
/// depends on the bytes alone, and there is none exactly for the encodings of outputs.
#[verifier::external_body]
fn output_error(bytes: &[u8]) -> (r: Option<String>)
    ensures
        optional_text(r) == borsh_output_error(bytes@),
        (r is None) == (decoded::<TxOut>(bytes@) is Some),
{
    borsh::from_slice::<(u128, [u8; 20])>(bytes).err().map(|e| e.to_string())
}

/// `borsh::from_slice` of the fields of a list of spent outputs, as the text of its error.
/// Claimed: the text depends on the bytes alone, and there is none exactly for the encodings of
/// such lists.
#[verifier::external_body]
fn spent_error(bytes: &[u8]) -> (r: Option<String>)
    ensures
        optional_text(r) == borsh_spent_error(bytes@),
        (r is None) == (decoded::<Vec<(OutPoint, TxOut)>>(bytes@) is Some),
{
    borsh::from_slice::<Vec<(([u8; 32], u32), (u128, [u8; 20]))>>(bytes)
        .err()
        .map(|e| e.to_string())
}

/// `borsh::from_slice` of the fields of a transaction, as the text of its error. Claimed: the text
/// depends on the bytes alone, and there is none exactly for the encodings of transactions.
#[verifier::external_body]
fn transaction_error(bytes: &[u8]) -> (r: Option<String>)
    ensures
        optional_text(r) == borsh_transaction_error(bytes@),
        (r is None) == (decoded::<Transaction>(bytes@) is Some),
{
    borsh::from_slice::<
        (String, Vec<(([u8; 32], u32), [u8; 32], [u8; 64])>, Vec<(u128, [u8; 20])>),
    >(bytes).err().map(|e| e.to_string())
}

/// `borsh::from_slice` of the fields of a block, as the text of its error. Claimed: the text
/// depends on the bytes alone, and there is none exactly for the encodings of blocks.
#[verifier::external_body]
fn block_error(bytes: &[u8]) -> (r: Option<String>)
    ensures
        optional_text(r) == borsh_block_error(bytes@),
        (r is None) == (decoded::<Block>(bytes@) is Some),
{
    borsh::from_slice::<
        (
            (u64, [u8; 32], [u8; 32], u64, [u8; 32], u64),
            Vec<(String, Vec<(([u8; 32], u32), [u8; 32], [u8; 64])>, Vec<(u128, [u8; 20])>)>,
        ),
    >(bytes).err().map(|e| e.to_string())
}

impl Decodable for TxOut {
    open spec fn refusal(bytes: Seq<u8>) -> Seq<char> {
        borsh_output_error(bytes)->0
    }

    fn refuse(bytes: &[u8]) -> (r: String) {
        output_error(bytes).unwrap()
    }
}

impl Decodable for Vec<(OutPoint, TxOut)> {
    open spec fn refusal(bytes: Seq<u8>) -> Seq<char> {
        borsh_spent_error(bytes)->0
    }

    fn refuse(bytes: &[u8]) -> (r: String) {
        spent_error(bytes).unwrap()
    }
}

impl Decodable for Transaction {
    open spec fn refusal(bytes: Seq<u8>) -> Seq<char> {
        borsh_transaction_error(bytes)->0
    }

    fn refuse(bytes: &[u8]) -> (r: String) {
        transaction_error(bytes).unwrap()
    }
}

impl Decodable for Block {
    open spec fn refusal(bytes: Seq<u8>) -> Seq<char> {
        borsh_block_error(bytes)->0
    }

    fn refuse(bytes: &[u8]) -> (r: String) {
        block_error(bytes).unwrap()
    }
}

/// The value that `bytes` is the encoding of, if it is the encoding of one.
pub open spec fn decoded<T: Canonical>(bytes: Seq<u8>) -> Option<T::Model> {
    if exists|m: T::Model| T::encodable(m) && #[trigger] T::bytes(m) == bytes {
        Some(choose|m: T::Model| T::encodable(m) && #[trigger] T::bytes(m) == bytes)
    } else {
        None
    }
}

/// Decoding gives back what was encoded: two values with one encoding are the same value.
pub proof fn encoding_is_injective<T: Canonical>(a: T::Model, b: T::Model)
    requires
        T::encodable(a),
        T::encodable(b),
        T::bytes(a) == T::bytes(b),
    ensures
        a == b,
{
    T::lemma_prefix_free(a, b, Seq::empty(), Seq::empty());
}

/// Decoding the encoding of a value gives the value.
pub proof fn decoding_inverts_encoding<T: Canonical>(m: T::Model)
    requires
        T::encodable(m),
    ensures
        decoded::<T>(T::bytes(m)) == Some(m),
{
    let bytes = T::bytes(m);
    assert(T::encodable(m) && T::bytes(m) == bytes);
    let c = decoded::<T>(bytes).unwrap();
    assert(T::encodable(c) && T::bytes(c) == bytes);
    encoding_is_injective::<T>(c, m);
}

/// Encodes any value of the ledger to its canonical bytes.
pub fn encode<T: Canonical>(value: &T) -> (r: Vec<u8>)
    requires
        T::encodable(value.model()),
    ensures
        r@ == T::bytes(value.model()),
{
    let mut out: Vec<u8> = Vec::new();
    value.write(&mut out);
    assert(Seq::<u8>::empty() + T::bytes(value.model()) =~= T::bytes(value.model()));
    out
}

/// Reads a value back from its canonical bytes. Bytes left over are refused.
pub fn decode<T: Decodable>(bytes: &[u8]) -> (r: Result<T, CodecError>)
    ensures
        match r {
            Ok(v) => {
                &&& T::encodable(v.model())
                &&& bytes@ == T::bytes(v.model())
                &&& decoded::<T>(bytes@) == Some(v.model())
            },
            Err(e) => {
                &&& e@ == CodecErrorView::Borsh(T::refusal(bytes@))
                &&& forall|m: T::Model| T::encodable(m) ==> bytes@ != #[trigger] T::bytes(m)
                &&& decoded::<T>(bytes@) is None
            },
        },
{
    assert(bytes@.skip(0) =~= bytes@);
    match T::read(bytes, 0) {
        Some((v, next)) => {
            if next == bytes.len() {
                proof {
                    assert(bytes@.subrange(0, next as int) =~= bytes@);
                    decoding_inverts_encoding::<T>(v.model());
                }
                Ok(v)
            } else {
                proof {
                    assert forall|m: T::Model| T::encodable(m) implies bytes@ != #[trigger] T::bytes(
                        m,
                    ) by {
                        if bytes@ == T::bytes(m) {
                            let head = bytes@.subrange(0, next as int);
                            let tail = bytes@.skip(next as int);
                            assert(head + tail =~= bytes@ + Seq::<u8>::empty());
                            T::lemma_prefix_free(v.model(), m, tail, Seq::empty());
                        }
                    }
                }
                Err(CodecError::Borsh(T::refuse(bytes)))
            }
        },
        None => {
            proof {
                assert forall|m: T::Model| T::encodable(m) implies bytes@ != #[trigger] T::bytes(
                    m,
                ) by {
                    if bytes@ == T::bytes(m) {
                        assert(bytes@.take(bytes@.len() as int) =~= bytes@);
                        assert(starts_with(bytes@.skip(0), T::bytes(m)));
                    }
                }
            }
            Err(CodecError::Borsh(T::refuse(bytes)))
        },
    }
}

/// The hash of the canonical encoding of a value.
pub fn hash_of<T: Canonical>(value: &T) -> (r: [u8; 32])
    requires
        T::encodable(value.model()),
    ensures
        r == digest(T::bytes(value.model())),
{
    hash(encode(value).as_slice())
}

impl TransactionView {
    /// Every count in the transaction fits its four-byte prefix.
    pub open spec fn encodable(self) -> bool {
        <Transaction as Canonical>::encodable(self)
    }

    /// The transaction's id: the hash of its encoding, signatures and all.
    pub open spec fn id(self) -> [u8; 32] {
        digest(<Transaction as Canonical>::bytes(self))
    }
}

impl BlockView {
    /// Every count in the block fits its four-byte prefix.
    pub open spec fn encodable(self) -> bool {
        <Block as Canonical>::encodable(self)
    }

    /// The block's hash: that of its header.
    pub open spec fn hash(self) -> [u8; 32] {
        header_hash(self.header)
    }
}

/// Whether every count in a transaction fits its four-byte prefix.
pub fn is_encodable(tx: &Transaction) -> (r: bool)
    ensures
        r == tx@.encodable(),
{
    tx.chain_id.as_str().as_bytes().len() <= 0xFFFF_FFFF && tx.inputs.len() <= 0xFFFF_FFFF
        && tx.outputs.len() <= 0xFFFF_FFFF
}

/// The transactions of an encodable block are encodable.
pub proof fn lemma_block_encodable(b: BlockView)
    requires
        b.encodable(),
    ensures
        b.transactions.len() <= u32::MAX,
        forall|i: int| 0 <= i < b.transactions.len() ==> (#[trigger] b.transactions[i]).encodable(),
{
}

/// What of an input is signed.
pub open spec fn signed_part(input: TxIn) -> (OutPoint, [u8; 32]) {
    (input.prev_out, input.public_key)
}

/// What of a transaction is signed: everything but the signatures.
pub open spec fn signed_parts(tx: TransactionView) -> (
    Seq<char>,
    (Seq<(OutPoint, [u8; 32])>, Seq<TxOut>),
) {
    (tx.chain_id, (tx.inputs.map_values(|i: TxIn| signed_part(i)), tx.outputs))
}

/// The type of what is signed.
pub type SigningPreimage = (String, (Vec<(OutPoint, [u8; 32])>, Vec<TxOut>));

/// The bytes that the inputs of a transaction sign.
pub open spec fn signing_preimage(tx: TransactionView) -> Seq<u8> {
    <SigningPreimage as Canonical>::bytes(signed_parts(tx))
}

/// What is signed of an encodable transaction is encodable.
pub proof fn lemma_signed_parts_encodable(tx: TransactionView)
    requires
        tx.encodable(),
    ensures
        <SigningPreimage as Canonical>::encodable(signed_parts(tx)),
{
}

/// The exact bytes to sign, or to check a signature against, for a transaction. All inputs sign
/// the same bytes: every input's outpoint and public key and every output, but no signature.
pub fn signing_bytes(tx: &Transaction) -> (r: Vec<u8>)
    requires
        tx@.encodable(),
    ensures
        r@ == signing_preimage(tx@),
{
    let ghost parts = signed_parts(tx@);
    let mut inputs: Vec<(OutPoint, [u8; 32])> = Vec::new();
    let mut i: usize = 0;
    while i < tx.inputs.len()
        invariant
            i <= tx.inputs.len(),
            inputs@.len() == i,
            forall|j: int| 0 <= j < i ==> inputs@[j] == signed_part(tx.inputs@[j]),
        decreases tx.inputs.len() - i,
    {
        inputs.push((tx.inputs[i].prev_out, tx.inputs[i].public_key));
        i += 1;
    }
    proof {
        lemma_signed_parts_encodable(tx@);
        assert(inputs.model() =~= parts.1.0);
        assert(tx.outputs.model() =~= tx.outputs@);
    }
    let mut out: Vec<u8> = Vec::new();
    tx.chain_id.write(&mut out);
    inputs.write(&mut out);
    tx.outputs.write(&mut out);
    assert(out@ =~= signing_preimage(tx@));
    out
}

/// A transaction's id.
pub fn txid(tx: &Transaction) -> (r: [u8; 32])
    requires
        tx@.encodable(),
    ensures
        r == tx@.id(),
{
    hash_of(tx)
}

/// The ids of a sequence of transactions.
pub open spec fn ids(txs: Seq<TransactionView>) -> Seq<[u8; 32]> {
    txs.map_values(|t: TransactionView| t.id())
}

/// A layer of a Merkle tree with its last node doubled if their number is odd.
pub open spec fn padded_layer(layer: Seq<[u8; 32]>) -> Seq<[u8; 32]> {
    if layer.len() % 2 == 1 {
        layer.push(layer.last())
    } else {
        layer
    }
}

/// The layer above: the hash of each pair.
pub open spec fn parent_layer(layer: Seq<[u8; 32]>) -> Seq<[u8; 32]> {
    let p = padded_layer(layer);
    Seq::new(p.len() / 2, |i: int| digest(p[2 * i]@ + p[2 * i + 1]@))
}

/// The root of a Merkle tree over `layer`; of no leaves, the hash of no bytes.
pub open spec fn merkle_root(layer: Seq<[u8; 32]>) -> [u8; 32]
    decreases layer.len(),
{
    if layer.len() == 0 {
        digest(Seq::empty())
    } else if layer.len() == 1 {
        layer[0]
    } else {
        merkle_root(parent_layer(layer))
    }
}

/// The hash of each pair of nodes.
fn combine_pairs(layer: &Vec<[u8; 32]>) -> (r: Vec<[u8; 32]>)
    requires
        layer@.len() % 2 == 0,
    ensures
        r@ == Seq::new(
            layer@.len() / 2,
            |i: int| digest(layer@[2 * i]@ + layer@[2 * i + 1]@),
        ),
{
    let mut r: Vec<[u8; 32]> = Vec::new();
    let mut i: usize = 0;
    let n: usize = layer.len() / 2;
    while i < n
        invariant
            i <= n,
            n == layer@.len() / 2,
            layer@.len() % 2 == 0,
            r@.len() == i,
            forall|j: int|
                0 <= j < i ==> r@[j] == digest(layer@[2 * j]@ + layer@[2 * j + 1]@),
        decreases n - i,
    {
        let mut pair: Vec<u8> = Vec::new();
        assert(2 * i + 1 < layer.len());
        layer[2 * i].write(&mut pair);
        layer[2 * i + 1].write(&mut pair);
        assert(pair@ =~= layer@[2 * i]@ + layer@[2 * i + 1]@);
        r.push(hash(pair.as_slice()));
        i += 1;
    }
    r
}

/// The Merkle root of a block's transactions over their ids.
pub fn tx_root(transactions: &[Transaction]) -> (r: [u8; 32])
    requires
        forall|i: int| 0 <= i < transactions@.len() ==> (#[trigger] transactions@[i])@.encodable(),
    ensures
        r == merkle_root(ids(transaction_views(transactions@))),
{
    let ghost leaves = ids(transaction_views(transactions@));
    if transactions.len() == 0 {
        let none: Vec<u8> = Vec::new();
        return hash(none.as_slice());
    }
    let mut layer: Vec<[u8; 32]> = Vec::new();
    let mut i: usize = 0;
    while i < transactions.len()
        invariant
            i <= transactions@.len(),
            layer@.len() == i,
            forall|j: int| 0 <= j < i ==> layer@[j] == transactions@[j]@.id(),
            forall|j: int|
                0 <= j < transactions@.len() ==> (#[trigger] transactions@[j])@.encodable(),
        decreases transactions.len() - i,
    {
        layer.push(txid(&transactions[i]));
        i += 1;
    }
    assert(layer@ =~= leaves);
    while layer.len() > 1
        invariant
            layer@.len() > 0,
            merkle_root(layer@) == merkle_root(leaves),
        decreases layer.len(),
    {
        let ghost before = layer@;
        if layer.len() % 2 == 1 {
            let last = layer[layer.len() - 1];
            layer.push(last);
        }
        assert(layer@ =~= padded_layer(before));
        layer = combine_pairs(&layer);
        assert(layer@ =~= parent_layer(before));
    }
    layer[0]
}

/// The hash of a header.
pub open spec fn header_hash(header: BlockHeader) -> [u8; 32] {
    digest(<BlockHeader as Canonical>::bytes(header))
}

/// The hash of a header: what a child block names as its parent, and what proof of work is
/// judged on.
pub fn block_header_hash(header: &BlockHeader) -> (r: [u8; 32])
    ensures
        r == header_hash(*header),
{
    hash_of(header)
}

/// A block's hash: that of its header.
pub fn block_hash(block: &Block) -> (r: [u8; 32])
    ensures
        r == block@.hash(),
{
    block_header_hash(&block.header)
}

/// The hash that mining looks for: that of the header, under the name mining uses.
pub fn pow_hash(header: &BlockHeader) -> (r: [u8; 32])
    ensures
        r == header_hash(*header),
{
    block_header_hash(header)
}

/// Whether a hash meets a target, both read as 256-bit big-endian integers. The lower the
/// target, the harder.
pub fn meets_target(hash: &[u8; 32], target: &[u8; 32]) -> (r: bool)
    ensures
        r == (be_value(hash@) <= be_value(target@)),
{
    be_at_most(hash.as_slice(), target.as_slice())
}

/// The signing bytes cover the chain, every input's outpoint and public key, and every output:
/// two transactions with the same signing bytes differ in signatures at most.
pub proof fn signing_bytes_cover_all_but_signatures(a: TransactionView, b: TransactionView)
    requires
        a.encodable(),
        b.encodable(),
        signing_preimage(a) == signing_preimage(b),
    ensures
        a.chain_id == b.chain_id,
        a.outputs == b.outputs,
        a.inputs.len() == b.inputs.len(),
        forall|i: int|
            0 <= i < a.inputs.len() ==> (#[trigger] a.inputs[i]).prev_out == b.inputs[i].prev_out
                && a.inputs[i].public_key == b.inputs[i].public_key,
{
    lemma_signed_parts_encodable(a);
    lemma_signed_parts_encodable(b);
    encoding_is_injective::<SigningPreimage>(signed_parts(a), signed_parts(b));
    let x = signed_parts(a).1.0;
    let y = signed_parts(b).1.0;
    assert forall|i: int| 0 <= i < a.inputs.len() implies (#[trigger] a.inputs[i]).prev_out
        == b.inputs[i].prev_out && a.inputs[i].public_key == b.inputs[i].public_key by {
        assert(x[i] == signed_part(a.inputs[i]));
        assert(y[i] == signed_part(b.inputs[i]));
    }
}

/// Signing does not change what is signed: the signing bytes do not depend on the signatures.
pub proof fn signing_bytes_ignore_signatures(a: TransactionView, b: TransactionView)
    requires
        a.chain_id == b.chain_id,
        a.outputs == b.outputs,
        a.inputs.len() == b.inputs.len(),
        forall|i: int|
            0 <= i < a.inputs.len() ==> signed_part(#[trigger] a.inputs[i]) == signed_part(
                b.inputs[i],
            ),
    ensures
        signing_preimage(a) == signing_preimage(b),
{
    assert(signed_parts(a).1.0 =~= signed_parts(b).1.0);
}

/// An odd layer has the root of the layer with its last node doubled.
pub proof fn odd_layer_doubles_its_last_node(layer: Seq<[u8; 32]>)
    requires
        layer.len() > 1,
        layer.len() % 2 == 1,
    ensures
        merkle_root(layer) == merkle_root(layer.push(layer.last())),
{
    let even = layer.push(layer.last());
    assert(padded_layer(even) == even);
    assert(parent_layer(layer) =~= parent_layer(even));
}

/// Layers of one length whose parents are the same are the same, or two byte strings have one
/// hash.
proof fn lemma_parents_commit(a: Seq<[u8; 32]>, b: Seq<[u8; 32]>)
    requires
        a.len() == b.len(),
        parent_layer(a) == parent_layer(b),
    ensures
        a == b || exists|x: Seq<u8>, y: Seq<u8>| x != y && #[trigger] digest(x) == #[trigger] digest(
            y,
        ),
{
    let p = padded_layer(a);
    let q = padded_layer(b);
    if !(exists|x: Seq<u8>, y: Seq<u8>| x != y && #[trigger] digest(x) == #[trigger] digest(y)) {
        assert forall|i: int| 0 <= i < a.len() implies a[i] == b[i] by {
            let k = i / 2;
            let x = p[2 * k]@ + p[2 * k + 1]@;
            let y = q[2 * k]@ + q[2 * k + 1]@;
            assert(parent_layer(a)[k] == digest(x));
            assert(parent_layer(b)[k] == digest(y));
            assert(digest(x) == digest(y));
            assert(x == y);
            assert(x.take(32) =~= p[2 * k]@);
            assert(y.take(32) =~= q[2 * k]@);
            assert(x.skip(32) =~= p[2 * k + 1]@);
            assert(y.skip(32) =~= q[2 * k + 1]@);
            crate::bytes::lemma_array_ext(p[2 * k], q[2 * k]);
            crate::bytes::lemma_array_ext(p[2 * k + 1], q[2 * k + 1]);
            assert(i == 2 * k || i == 2 * k + 1);
            assert(p[i] == a[i] && q[i] == b[i]);
        }
        assert(a =~= b);
    }
}

/// A root commits to every leaf: two lists of one length with one root are the same at every
/// position, or two byte strings have one hash.
pub proof fn root_commits_to_every_leaf(a: Seq<[u8; 32]>, b: Seq<[u8; 32]>)
    requires
        a.len() == b.len(),
        merkle_root(a) == merkle_root(b),
    ensures
        a == b || exists|x: Seq<u8>, y: Seq<u8>| x != y && #[trigger] digest(x) == #[trigger] digest(
            y,
        ),
    decreases a.len(),
{
    if a.len() == 0 {
        assert(a =~= b);
    } else if a.len() == 1 {
        assert(a =~= b);
    } else {
        root_commits_to_every_leaf(parent_layer(a), parent_layer(b));
        if parent_layer(a) == parent_layer(b) {
            lemma_parents_commit(a, b);
        }
    }
}

proof fn lemma_parent_of_halves(a: Seq<[u8; 32]>, b: Seq<[u8; 32]>)
    requires
        a.len() % 2 == 0,
        b.len() % 2 == 0,
    ensures
        parent_layer(a + b) == parent_layer(a) + parent_layer(b),
{
    let all = a + b;
    let n = a.len() / 2;
    assert forall|i: int| 0 <= i < parent_layer(all).len() implies parent_layer(all)[i] == (
    parent_layer(a) + parent_layer(b))[i] by {
        if i < n {
            assert(all[2 * i] == a[2 * i] && all[2 * i + 1] == a[2 * i + 1]);
        } else {
            let j = i - n;
            assert(all[2 * i] == b[2 * j] && all[2 * i + 1] == b[2 * j + 1]);
        }
    }
    assert(parent_layer(all) =~= parent_layer(a) + parent_layer(b));
}

/// The root over twice 2^k leaves is the hash of the root over the first half followed by the root
/// over the second.
pub proof fn root_is_made_of_the_roots_of_its_halves(a: Seq<[u8; 32]>, b: Seq<[u8; 32]>, k: nat)
    requires
        a.len() == pow2(k),
        b.len() == pow2(k),
    ensures
        merkle_root(a + b) == digest(merkle_root(a)@ + merkle_root(b)@),
    decreases k,
{
    lemma2_to64();
    if k == 0 {
        let all = a + b;
        let top = parent_layer(all);
        assert(top.len() == 1);
        assert(top[0] == digest(a[0]@ + b[0]@));
        assert(merkle_root(top) == top[0]);
        assert(merkle_root(a) == a[0]);
        assert(merkle_root(b) == b[0]);
    } else {
        lemma_pow2_adds(1, (k - 1) as nat);
        lemma_pow2_pos((k - 1) as nat);
        assert(a.len() == 2 * pow2((k - 1) as nat));
        lemma_parent_of_halves(a, b);
        root_is_made_of_the_roots_of_its_halves(parent_layer(a), parent_layer(b), (k - 1) as nat);
        assert(merkle_root(a + b) == merkle_root(parent_layer(a + b)));
    }
}

/// The root over no leaves is the hash of no bytes, and that over one leaf is the leaf.
pub proof fn smallest_roots(leaf: [u8; 32])
    ensures
        merkle_root(Seq::empty()) == digest(Seq::empty()),
        merkle_root(seq![leaf]) == leaf,
{
}

/// Values that can be encoded and whose encodings have one hash are the same value, or two byte
/// strings have one hash.
pub proof fn hash_commits_to_the_value<T: Canonical>(a: T::Model, b: T::Model)
    requires
        T::encodable(a),
        T::encodable(b),
        digest(T::bytes(a)) == digest(T::bytes(b)),
    ensures
        a == b || exists|x: Seq<u8>, y: Seq<u8>| x != y && #[trigger] digest(x) == #[trigger] digest(
            y,
        ),
{
    if T::bytes(a) == T::bytes(b) {
        encoding_is_injective::<T>(a, b);
    }
}

/// A transaction's id commits to all of the transaction.
pub proof fn id_commits_to_the_transaction(a: TransactionView, b: TransactionView)
    requires
        a.encodable(),
        b.encodable(),
        a.id() == b.id(),
    ensures
        a == b || exists|x: Seq<u8>, y: Seq<u8>| x != y && #[trigger] digest(x) == #[trigger] digest(
            y,
        ),
{
    hash_commits_to_the_value::<Transaction>(a, b);
}

/// A header's hash commits to all of the header.
pub proof fn hash_commits_to_the_header(a: BlockHeader, b: BlockHeader)
    requires
        header_hash(a) == header_hash(b),
    ensures
        a == b || exists|x: Seq<u8>, y: Seq<u8>| x != y && #[trigger] digest(x) == #[trigger] digest(
            y,
        ),
{
    hash_commits_to_the_value::<BlockHeader>(a, b);
}

/// The root in a header commits to every transaction of the block, the coinbase and all others:
/// lists of one length with one root hold the same transactions at every position, or two byte
/// strings have one hash.
pub proof fn root_commits_to_every_transaction(a: Seq<TransactionView>, b: Seq<TransactionView>)
    requires
        a.len() == b.len(),
        merkle_root(ids(a)) == merkle_root(ids(b)),
        forall|i: int| 0 <= i < a.len() ==> (#[trigger] a[i]).encodable(),
        forall|i: int| 0 <= i < b.len() ==> (#[trigger] b[i]).encodable(),
    ensures
        a == b || exists|x: Seq<u8>, y: Seq<u8>| x != y && #[trigger] digest(x) == #[trigger] digest(
            y,
        ),
{
    root_commits_to_every_leaf(ids(a), ids(b));
    if !(exists|x: Seq<u8>, y: Seq<u8>| x != y && #[trigger] digest(x) == #[trigger] digest(y)) {
        assert forall|i: int| 0 <= i < a.len() implies a[i] == b[i] by {
            assert(ids(a)[i] == a[i].id());
            assert(ids(b)[i] == b[i].id());
            id_commits_to_the_transaction(a[i], b[i]);
        }
        assert(a =~= b);
    }
}

} // verus!
