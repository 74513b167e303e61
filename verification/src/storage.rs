//! The ledger on a key-value store: unspent outputs, blocks, indices, and what it takes to undo
//! a block.
//!
//! [`Ledger`] is what the bytes in the store mean. Every write goes out as one batch, so a ledger
//! is never half changed.

use vstd::prelude::*;
use vstd::utf8::encode_utf8;

use crate::bytes::{
    be_bytes, be_value, lemma_array_ext, lemma_array_of, lemma_be_bytes_len, lemma_be_round_trip,
    lemma_be_value_bytes, lemma_pow256, part, to_array, to_vec, u32_from_be, u32_to_be, u64_from_be,
    u64_to_be,
};
use crate::codec::{
    block_hash, decode, decoded, decoding_inverts_encoding, encode, ids, lemma_block_encodable,
    txid, CodecError, CodecErrorView, Decodable,
};
use crate::collections::{has_key, inserted};
use crate::crypto::{digest, hash, Address};
use crate::encoding::Canonical;
use crate::kv::{
    after_op, after_ops, lemma_after_ops_concat, lists_column, op_views, pair_views, Column, KvMap,
    KvOp, KvOpView, KvStore,
};
use crate::state::{changed, ErrorText, StateStore, StoreView};
use crate::types::{
    transaction_views, Block, BlockView, OutPoint, Transaction, TransactionView, TxOut,
};

verus! {

/// Why the store could not be read or written.
#[derive(Debug, Clone, PartialEq, Eq)]
pub enum StorageError {
    /// The database failed, with its own text.
    RocksDb(String),
    /// What is stored does not decode.
    Codec(CodecError),
}

/// [`StorageError`] with its text as a character sequence.
#[verifier::ext_equal]
pub enum StorageErrorView {
    RocksDb(Seq<char>),
    Codec(CodecErrorView),
}

impl View for StorageError {
    type V = StorageErrorView;

    open spec fn view(&self) -> StorageErrorView {
        match self {
            StorageError::RocksDb(t) => StorageErrorView::RocksDb(t@),
            StorageError::Codec(e) => StorageErrorView::Codec(e@),
        }
    }
}

impl ErrorText for StorageError {
    open spec fn text(&self) -> Seq<char> {
        match self {
            StorageError::RocksDb(t) => "error de RocksDB: "@ + t@,
            StorageError::Codec(e) => "error de (de)serialización: "@ + e.text(),
        }
    }

    fn describe(&self) -> (r: String) {
        match self {
            StorageError::RocksDb(t) => {
                let mut r = "error de RocksDB: ".to_owned();
                r.append(t.as_str());
                r
            },
            StorageError::Codec(e) => {
                let mut r = "error de (de)serialización: ".to_owned();
                r.append(e.describe().as_str());
                r
            },
        }
    }
}

/// The key of an outpoint: its transaction id, then its number in four bytes, so that the
/// outputs of one transaction stand together.
pub open spec fn utxo_key(op: OutPoint) -> Seq<u8> {
    op.txid@ + be_bytes(op.vout as nat, 4)
}

/// The key of a height: eight bytes, so that heights stand in order.
pub open spec fn height_key(height: u64) -> Seq<u8> {
    be_bytes(height as nat, 8)
}

/// The key of the latest height.
pub open spec fn latest_key() -> Seq<u8> {
    encode_utf8("latest_height"@)
}

/// Keys of different outpoints are different.
pub proof fn lemma_utxo_key_injective(a: OutPoint, b: OutPoint)
    requires
        utxo_key(a) == utxo_key(b),
    ensures
        a == b,
{
    lemma_be_bytes_len(a.vout as nat, 4);
    lemma_be_bytes_len(b.vout as nat, 4);
    assert(utxo_key(a).take(32) =~= a.txid@);
    assert(utxo_key(b).take(32) =~= b.txid@);
    assert(utxo_key(a).skip(32) =~= be_bytes(a.vout as nat, 4));
    assert(utxo_key(b).skip(32) =~= be_bytes(b.vout as nat, 4));
    lemma_array_ext(a.txid, b.txid);
    lemma_pow256();
    lemma_be_round_trip(a.vout as nat, 4);
    lemma_be_round_trip(b.vout as nat, 4);
}

/// Keys of different heights are different.
pub proof fn lemma_height_key_injective(a: u64, b: u64)
    requires
        height_key(a) == height_key(b),
    ensures
        a == b,
{
    lemma_pow256();
    lemma_be_round_trip(a as nat, 8);
    lemma_be_round_trip(b as nat, 8);
}

fn utxo_key_bytes(op: &OutPoint) -> (r: Vec<u8>)
    ensures
        r@ == utxo_key(*op),
{
    let mut key = to_vec(op.txid.as_slice());
    let tail = u32_to_be(op.vout);
    key.extend_from_slice(tail.as_slice());
    assert(key@ =~= utxo_key(*op));
    key
}

fn height_key_bytes(height: u64) -> (r: Vec<u8>)
    ensures
        r@ == height_key(height),
{
    let digits = u64_to_be(height);
    to_vec(digits.as_slice())
}

/// The list of outputs that a block spent.
pub type UndoList = Vec<(OutPoint, TxOut)>;

/// The output that bytes stand for.
pub open spec fn stored_output(value: Seq<u8>) -> TxOut {
    decoded::<TxOut>(value).unwrap()
}

/// The block that bytes stand for.
pub open spec fn stored_block(value: Seq<u8>) -> BlockView {
    decoded::<Block>(value).unwrap()
}

/// The height that bytes stand for.
pub open spec fn stored_height(value: Seq<u8>) -> u64 {
    be_value(value) as u64
}

/// The list of spent outputs that bytes stand for.
pub open spec fn stored_undo(value: Seq<u8>) -> Seq<(OutPoint, TxOut)> {
    decoded::<UndoList>(value).unwrap()
}

/// What the store says of the chain.
#[verifier::ext_equal]
pub struct Ledger {
    pub utxos: Map<OutPoint, TxOut>,
    pub blocks: Map<u64, BlockView>,
    pub heights: Map<[u8; 32], u64>,
    pub latest: Option<u64>,
    pub undo: Map<u64, Seq<(OutPoint, TxOut)>>,
    pub tx_heights: Map<[u8; 32], u64>,
}

/// The meaning of the bytes in a store.
#[verifier::opaque]
pub open spec fn ledger_of(kv: KvMap) -> Ledger {
    Ledger {
        utxos: Map::new(
            |op: OutPoint| kv.contains_key((Column::Utxos, utxo_key(op))),
            |op: OutPoint| stored_output(kv[(Column::Utxos, utxo_key(op))]),
        ),
        blocks: Map::new(
            |h: u64| kv.contains_key((Column::Blocks, height_key(h))),
            |h: u64| stored_block(kv[(Column::Blocks, height_key(h))]),
        ),
        heights: Map::new(
            |x: [u8; 32]| kv.contains_key((Column::BlockHashIndex, x@)),
            |x: [u8; 32]| stored_height(kv[(Column::BlockHashIndex, x@)]),
        ),
        latest: if kv.contains_key((Column::Meta, latest_key())) {
            Some(stored_height(kv[(Column::Meta, latest_key())]))
        } else {
            None
        },
        undo: Map::new(
            |h: u64| kv.contains_key((Column::Undo, height_key(h))),
            |h: u64| stored_undo(kv[(Column::Undo, height_key(h))]),
        ),
        tx_heights: Map::new(
            |x: [u8; 32]| kv.contains_key((Column::TxIndex, x@)),
            |x: [u8; 32]| stored_height(kv[(Column::TxIndex, x@)]),
        ),
    }
}

/// A key and value that the ledger's writes put into a column: keys and heights of their fixed
/// lengths.
pub open spec fn entry_shaped(column: Column, key: Seq<u8>, value: Seq<u8>) -> bool {
    match column {
        Column::Utxos => key.len() == 36,
        Column::Meta => value.len() == 8,
        Column::Blocks => key.len() == 8,
        Column::BlockHashIndex => key.len() == 32 && value.len() == 8,
        Column::Undo => key.len() == 8,
        Column::TxIndex => key.len() == 32 && value.len() == 8,
    }
}

/// A value that decodes as what its column holds.
pub open spec fn entry_decodes(column: Column, value: Seq<u8>) -> bool {
    match column {
        Column::Utxos => decoded::<TxOut>(value) is Some,
        Column::Blocks => decoded::<Block>(value) is Some,
        Column::Undo => decoded::<UndoList>(value) is Some,
        _ => true,
    }
}

/// All keys and heights have their fixed lengths.
pub open spec fn shaped(kv: KvMap) -> bool {
    forall|c: Column, k: Seq<u8>| #[trigger]
        kv.contains_key((c, k)) ==> entry_shaped(c, k, kv[(c, k)])
}

/// All keys and heights have their fixed lengths, and all values decode.
pub open spec fn sound(kv: KvMap) -> bool {
    &&& shaped(kv)
    &&& forall|c: Column, k: Seq<u8>| #[trigger]
        kv.contains_key((c, k)) ==> entry_decodes(c, kv[(c, k)])
}

/// Everything in a column has its fixed lengths and decodes.
pub open spec fn column_sound(kv: KvMap, column: Column) -> bool {
    forall|k: Seq<u8>| #[trigger]
        kv.contains_key((column, k)) ==> entry_shaped(column, k, kv[(column, k)])
            && entry_decodes(column, kv[(column, k)])
}

fn entry_is_sound(column: Column, key: &Vec<u8>, value: &Vec<u8>) -> (r: bool)
    ensures
        r == (entry_shaped(column, key@, value@) && entry_decodes(column, value@)),
{
    match column {
        Column::Utxos => key.len() == 36 && match decode::<TxOut>(value.as_slice()) {
            Ok(_) => true,
            Err(_) => false,
        },
        Column::Meta => value.len() == 8,
        Column::Blocks => key.len() == 8 && match decode::<Block>(value.as_slice()) {
            Ok(_) => true,
            Err(_) => false,
        },
        Column::BlockHashIndex => key.len() == 32 && value.len() == 8,
        Column::Undo => key.len() == 8 && match decode::<UndoList>(value.as_slice()) {
            Ok(_) => true,
            Err(_) => false,
        },
        Column::TxIndex => key.len() == 32 && value.len() == 8,
    }
}

/// One write of a value that belongs keeps a store sound.
pub open spec fn op_sound(op: KvOpView) -> bool {
    match op {
        KvOpView::Put { column, key, value } => entry_shaped(column, key, value) && entry_decodes(
            column,
            value,
        ),
        KvOpView::Delete { .. } => true,
    }
}

proof fn lemma_ops_sound(kv: KvMap, ops: Seq<KvOpView>)
    requires
        forall|i: int| 0 <= i < ops.len() ==> op_sound(#[trigger] ops[i]),
    ensures
        shaped(kv) ==> shaped(after_ops(kv, ops)),
        sound(kv) ==> sound(after_ops(kv, ops)),
    decreases ops.len(),
{
    if ops.len() > 0 {
        let front = ops.drop_last();
        assert forall|i: int| 0 <= i < front.len() implies op_sound(#[trigger] front[i]) by {
            assert(ops[i] == front[i]);
        }
        lemma_ops_sound(kv, front);
        assert(op_sound(ops[ops.len() - 1]));
    }
}

// Writes, by what they mean.

pub open spec fn put_output(op: OutPoint, output: TxOut) -> KvOpView {
    KvOpView::Put {
        column: Column::Utxos,
        key: utxo_key(op),
        value: <TxOut as Canonical>::bytes(output),
    }
}

pub open spec fn drop_output(op: OutPoint) -> KvOpView {
    KvOpView::Delete { column: Column::Utxos, key: utxo_key(op) }
}

pub open spec fn put_block_at(height: u64, block: BlockView) -> KvOpView {
    KvOpView::Put {
        column: Column::Blocks,
        key: height_key(height),
        value: <Block as Canonical>::bytes(block),
    }
}

pub open spec fn drop_block_at(height: u64) -> KvOpView {
    KvOpView::Delete { column: Column::Blocks, key: height_key(height) }
}

pub open spec fn put_hash(hash: [u8; 32], height: u64) -> KvOpView {
    KvOpView::Put { column: Column::BlockHashIndex, key: hash@, value: height_key(height) }
}

pub open spec fn drop_hash(hash: [u8; 32]) -> KvOpView {
    KvOpView::Delete { column: Column::BlockHashIndex, key: hash@ }
}

pub open spec fn put_latest(height: u64) -> KvOpView {
    KvOpView::Put { column: Column::Meta, key: latest_key(), value: height_key(height) }
}

pub open spec fn drop_latest() -> KvOpView {
    KvOpView::Delete { column: Column::Meta, key: latest_key() }
}

pub open spec fn put_undo(height: u64, undo: Seq<(OutPoint, TxOut)>) -> KvOpView {
    KvOpView::Put {
        column: Column::Undo,
        key: height_key(height),
        value: <UndoList as Canonical>::bytes(undo),
    }
}

pub open spec fn drop_undo(height: u64) -> KvOpView {
    KvOpView::Delete { column: Column::Undo, key: height_key(height) }
}

pub open spec fn put_tx(id: [u8; 32], height: u64) -> KvOpView {
    KvOpView::Put { column: Column::TxIndex, key: id@, value: height_key(height) }
}

pub open spec fn drop_tx(id: [u8; 32]) -> KvOpView {
    KvOpView::Delete { column: Column::TxIndex, key: id@ }
}

proof fn lemma_height_round_trip(height: u64)
    ensures
        stored_height(height_key(height)) == height,
        height_key(height).len() == 8,
{
    lemma_pow256();
    lemma_be_round_trip(height as nat, 8);
    lemma_be_bytes_len(height as nat, 8);
}

proof fn lemma_put_output(kv: KvMap, op: OutPoint, output: TxOut)
    ensures
        op_sound(put_output(op, output)),
        ledger_of(after_op(kv, put_output(op, output))) == (Ledger {
            utxos: ledger_of(kv).utxos.insert(op, output),
            ..ledger_of(kv)
        }),
{
    reveal(ledger_of);
    lemma_be_bytes_len(op.vout as nat, 4);
    decoding_inverts_encoding::<TxOut>(output);
    let after = after_op(kv, put_output(op, output));
    assert forall|x: OutPoint| utxo_key(x) == utxo_key(op) implies x == op by {
        lemma_utxo_key_injective(x, op);
    }
    assert(ledger_of(after).utxos =~= ledger_of(kv).utxos.insert(op, output));
    assert(ledger_of(after) =~= (Ledger {
        utxos: ledger_of(kv).utxos.insert(op, output),
        ..ledger_of(kv)
    }));
}

proof fn lemma_drop_output(kv: KvMap, op: OutPoint)
    ensures
        ledger_of(after_op(kv, drop_output(op))) == (Ledger {
            utxos: ledger_of(kv).utxos.remove(op),
            ..ledger_of(kv)
        }),
{
    reveal(ledger_of);
    let after = after_op(kv, drop_output(op));
    assert forall|x: OutPoint| utxo_key(x) == utxo_key(op) implies x == op by {
        lemma_utxo_key_injective(x, op);
    }
    assert(ledger_of(after).utxos =~= ledger_of(kv).utxos.remove(op));
    assert(ledger_of(after) =~= (Ledger {
        utxos: ledger_of(kv).utxos.remove(op),
        ..ledger_of(kv)
    }));
}

proof fn lemma_put_block_at(kv: KvMap, height: u64, block: BlockView)
    requires
        block.encodable(),
    ensures
        op_sound(put_block_at(height, block)),
        ledger_of(after_op(kv, put_block_at(height, block))) == (Ledger {
            blocks: ledger_of(kv).blocks.insert(height, block),
            ..ledger_of(kv)
        }),
{
    reveal(ledger_of);
    lemma_height_round_trip(height);
    decoding_inverts_encoding::<Block>(block);
    let after = after_op(kv, put_block_at(height, block));
    assert forall|x: u64| height_key(x) == height_key(height) implies x == height by {
        lemma_height_key_injective(x, height);
    }
    assert(ledger_of(after).blocks =~= ledger_of(kv).blocks.insert(height, block));
    assert(ledger_of(after) =~= (Ledger {
        blocks: ledger_of(kv).blocks.insert(height, block),
        ..ledger_of(kv)
    }));
}

proof fn lemma_drop_block_at(kv: KvMap, height: u64)
    ensures
        ledger_of(after_op(kv, drop_block_at(height))) == (Ledger {
            blocks: ledger_of(kv).blocks.remove(height),
            ..ledger_of(kv)
        }),
{
    reveal(ledger_of);
    let after = after_op(kv, drop_block_at(height));
    assert forall|x: u64| height_key(x) == height_key(height) implies x == height by {
        lemma_height_key_injective(x, height);
    }
    assert(ledger_of(after).blocks =~= ledger_of(kv).blocks.remove(height));
    assert(ledger_of(after) =~= (Ledger {
        blocks: ledger_of(kv).blocks.remove(height),
        ..ledger_of(kv)
    }));
}

proof fn lemma_put_hash(kv: KvMap, hash: [u8; 32], height: u64)
    ensures
        op_sound(put_hash(hash, height)),
        ledger_of(after_op(kv, put_hash(hash, height))) == (Ledger {
            heights: ledger_of(kv).heights.insert(hash, height),
            ..ledger_of(kv)
        }),
{
    reveal(ledger_of);
    lemma_height_round_trip(height);
    let after = after_op(kv, put_hash(hash, height));
    assert forall|x: [u8; 32]| x@ == hash@ implies x == hash by {
        lemma_array_ext(x, hash);
    }
    assert(ledger_of(after).heights =~= ledger_of(kv).heights.insert(hash, height));
    assert(ledger_of(after) =~= (Ledger {
        heights: ledger_of(kv).heights.insert(hash, height),
        ..ledger_of(kv)
    }));
}

proof fn lemma_drop_hash(kv: KvMap, hash: [u8; 32])
    ensures
        ledger_of(after_op(kv, drop_hash(hash))) == (Ledger {
            heights: ledger_of(kv).heights.remove(hash),
            ..ledger_of(kv)
        }),
{
    reveal(ledger_of);
    let after = after_op(kv, drop_hash(hash));
    assert forall|x: [u8; 32]| x@ == hash@ implies x == hash by {
        lemma_array_ext(x, hash);
    }
    assert(ledger_of(after).heights =~= ledger_of(kv).heights.remove(hash));
    assert(ledger_of(after) =~= (Ledger {
        heights: ledger_of(kv).heights.remove(hash),
        ..ledger_of(kv)
    }));
}

proof fn lemma_put_latest(kv: KvMap, height: u64)
    ensures
        op_sound(put_latest(height)),
        ledger_of(after_op(kv, put_latest(height))) == (Ledger {
            latest: Some(height),
            ..ledger_of(kv)
        }),
{
    reveal(ledger_of);
    lemma_height_round_trip(height);
    assert(ledger_of(after_op(kv, put_latest(height))) =~= (Ledger {
        latest: Some(height),
        ..ledger_of(kv)
    }));
}

proof fn lemma_drop_latest(kv: KvMap)
    ensures
        ledger_of(after_op(kv, drop_latest())) == (Ledger { latest: None, ..ledger_of(kv) }),
{
    reveal(ledger_of);
    assert(ledger_of(after_op(kv, drop_latest())) =~= (Ledger { latest: None, ..ledger_of(kv) }));
}

proof fn lemma_put_undo(kv: KvMap, height: u64, undo: Seq<(OutPoint, TxOut)>)
    requires
        <UndoList as Canonical>::encodable(undo),
    ensures
        op_sound(put_undo(height, undo)),
        ledger_of(after_op(kv, put_undo(height, undo))) == (Ledger {
            undo: ledger_of(kv).undo.insert(height, undo),
            ..ledger_of(kv)
        }),
{
    reveal(ledger_of);
    lemma_height_round_trip(height);
    decoding_inverts_encoding::<UndoList>(undo);
    let after = after_op(kv, put_undo(height, undo));
    assert forall|x: u64| height_key(x) == height_key(height) implies x == height by {
        lemma_height_key_injective(x, height);
    }
    assert(ledger_of(after).undo =~= ledger_of(kv).undo.insert(height, undo));
    assert(ledger_of(after) =~= (Ledger {
        undo: ledger_of(kv).undo.insert(height, undo),
        ..ledger_of(kv)
    }));
}

proof fn lemma_drop_undo(kv: KvMap, height: u64)
    ensures
        ledger_of(after_op(kv, drop_undo(height))) == (Ledger {
            undo: ledger_of(kv).undo.remove(height),
            ..ledger_of(kv)
        }),
{
    reveal(ledger_of);
    let after = after_op(kv, drop_undo(height));
    assert forall|x: u64| height_key(x) == height_key(height) implies x == height by {
        lemma_height_key_injective(x, height);
    }
    assert(ledger_of(after).undo =~= ledger_of(kv).undo.remove(height));
    assert(ledger_of(after) =~= (Ledger {
        undo: ledger_of(kv).undo.remove(height),
        ..ledger_of(kv)
    }));
}

proof fn lemma_put_tx(kv: KvMap, id: [u8; 32], height: u64)
    ensures
        op_sound(put_tx(id, height)),
        ledger_of(after_op(kv, put_tx(id, height))) == (Ledger {
            tx_heights: ledger_of(kv).tx_heights.insert(id, height),
            ..ledger_of(kv)
        }),
{
    reveal(ledger_of);
    lemma_height_round_trip(height);
    let after = after_op(kv, put_tx(id, height));
    assert forall|x: [u8; 32]| x@ == id@ implies x == id by {
        lemma_array_ext(x, id);
    }
    assert(ledger_of(after).tx_heights =~= ledger_of(kv).tx_heights.insert(id, height));
    assert(ledger_of(after) =~= (Ledger {
        tx_heights: ledger_of(kv).tx_heights.insert(id, height),
        ..ledger_of(kv)
    }));
}

proof fn lemma_drop_tx(kv: KvMap, id: [u8; 32])
    ensures
        ledger_of(after_op(kv, drop_tx(id))) == (Ledger {
            tx_heights: ledger_of(kv).tx_heights.remove(id),
            ..ledger_of(kv)
        }),
{
    reveal(ledger_of);
    let after = after_op(kv, drop_tx(id));
    assert forall|x: [u8; 32]| x@ == id@ implies x == id by {
        lemma_array_ext(x, id);
    }
    assert(ledger_of(after).tx_heights =~= ledger_of(kv).tx_heights.remove(id));
    assert(ledger_of(after) =~= (Ledger {
        tx_heights: ledger_of(kv).tx_heights.remove(id),
        ..ledger_of(kv)
    }));
}

/// The writes that take out spent outputs and put in created ones.
pub open spec fn change_ops(spent: Seq<OutPoint>, created: Seq<(OutPoint, TxOut)>) -> Seq<KvOpView> {
    spent.map_values(|op: OutPoint| drop_output(op)) + created.map_values(
        |p: (OutPoint, TxOut)| put_output(p.0, p.1),
    )
}

/// The writes that index transactions under a height.
pub open spec fn index_ops(ids: Seq<[u8; 32]>, height: u64) -> Seq<KvOpView> {
    ids.map_values(|id: [u8; 32]| put_tx(id, height))
}

/// The writes that add a block: its changes to the outputs, the block, its indices, and what it
/// takes to undo it.
pub open spec fn commit_ops(
    block: BlockView,
    spent: Seq<OutPoint>,
    created: Seq<(OutPoint, TxOut)>,
    undo: Seq<(OutPoint, TxOut)>,
) -> Seq<KvOpView> {
    let height = block.header.height;
    change_ops(spent, created) + seq![
        put_block_at(height, block),
        put_hash(block.hash(), height),
        put_latest(height),
        put_undo(height, undo),
    ] + index_ops(ids(block.transactions), height)
}

/// The ids under one height.
pub open spec fn at_height(ids: Seq<[u8; 32]>, height: u64) -> Seq<([u8; 32], u64)> {
    ids.map_values(|id: [u8; 32]| (id, height))
}

impl Ledger {
    /// The ledger after a block with these changes.
    pub open spec fn committed(
        self,
        block: BlockView,
        spent: Seq<OutPoint>,
        created: Seq<(OutPoint, TxOut)>,
        undo: Seq<(OutPoint, TxOut)>,
    ) -> Ledger {
        let height = block.header.height;
        Ledger {
            utxos: changed(self.utxos, spent, created),
            blocks: self.blocks.insert(height, block),
            heights: self.heights.insert(block.hash(), height),
            latest: Some(height),
            undo: self.undo.insert(height, undo),
            tx_heights: inserted(self.tx_heights, at_height(ids(block.transactions), height)),
        }
    }

    /// The ledger after storing a block without applying it.
    pub open spec fn with_block(self, block: BlockView) -> Ledger {
        let height = block.header.height;
        Ledger {
            blocks: self.blocks.insert(height, block),
            heights: self.heights.insert(block.hash(), height),
            latest: Some(height),
            ..self
        }
    }

    /// What was spent by the block at `height`.
    pub open spec fn undo_at(self, height: u64) -> Seq<(OutPoint, TxOut)> {
        match self.undo.get(height) {
            Some(list) => list,
            None => Seq::empty(),
        }
    }

    /// The ledger after undoing its latest block: what the block spent is back, what it created is
    /// gone, also where the block itself spent it, and the one before it is the latest.
    pub open spec fn undone(self) -> Ledger {
        let height = self.latest.unwrap();
        let block = self.blocks[height];
        Ledger {
            utxos: inserted(self.utxos, self.undo_at(height)).remove_keys(
                created_by(block.transactions),
            ),
            blocks: self.blocks.remove(height),
            heights: self.heights.remove(block.hash()),
            latest: if height == 0 {
                None
            } else {
                Some((height - 1) as u64)
            },
            undo: self.undo.remove(height),
            tx_heights: self.tx_heights.remove_keys(ids(block.transactions).to_set()),
        }
    }
}

/// `op` is an output of one of the transactions.
pub open spec fn creates(txs: Seq<TransactionView>, op: OutPoint) -> bool {
    exists|i: int|
        0 <= i < txs.len() && (#[trigger] txs[i]).id() == op.txid && op.vout < txs[i].outputs.len()
}

/// The outpoints of the outputs of some transactions.
pub open spec fn created_by(txs: Seq<TransactionView>) -> Set<OutPoint> {
    Set::new(|op: OutPoint| creates(txs, op))
}

/// The outpoints of a transaction's outputs.
pub open spec fn own_outpoints(id: [u8; 32], count: nat) -> Seq<OutPoint> {
    Seq::new(count, |i: int| OutPoint { txid: id, vout: i as u32 })
}

/// The writes that take out what some transactions created, and their index entries.
pub open spec fn forget_ops(txs: Seq<TransactionView>) -> Seq<KvOpView>
    decreases txs.len(),
{
    if txs.len() == 0 {
        Seq::empty()
    } else {
        let tx = txs.last();
        forget_ops(txs.drop_last()) + own_outpoints(tx.id(), tx.outputs.len()).map_values(
            |op: OutPoint| drop_output(op),
        ).push(drop_tx(tx.id()))
    }
}

/// The writes that undo a block.
pub open spec fn undo_ops(block: BlockView, height: u64, undo: Seq<(OutPoint, TxOut)>) -> Seq<
    KvOpView,
> {
    undo.map_values(|p: (OutPoint, TxOut)| put_output(p.0, p.1)) + forget_ops(block.transactions)
        + seq![
        if height == 0 {
            drop_latest()
        } else {
            put_latest((height - 1) as u64)
        },
        drop_block_at(height),
        drop_hash(block.hash()),
        drop_undo(height),
    ]
}

proof fn lemma_drops(kv: KvMap, spent: Seq<OutPoint>)
    ensures
        ledger_of(after_ops(kv, spent.map_values(|op: OutPoint| drop_output(op)))) == (Ledger {
            utxos: ledger_of(kv).utxos.remove_keys(spent.to_set()),
            ..ledger_of(kv)
        }),
    decreases spent.len(),
{
    let ops = spent.map_values(|op: OutPoint| drop_output(op));
    let l = ledger_of(kv);
    if spent.len() == 0 {
        assert(ops =~= Seq::<KvOpView>::empty());
        assert(l.utxos.remove_keys(spent.to_set()) =~= l.utxos);
    } else {
        let front = spent.drop_last();
        lemma_drops(kv, front);
        assert(ops.drop_last() =~= front.map_values(|op: OutPoint| drop_output(op)));
        assert(ops.last() == drop_output(spent.last()));
        lemma_drop_output(after_ops(kv, ops.drop_last()), spent.last());
        assert forall|k: OutPoint| #[trigger]
            spent.to_set().contains(k) == (front.to_set().contains(k) || k == spent.last()) by {
            if front.contains(k) {
                let i = choose|i: int| 0 <= i < front.len() && front[i] == k;
                assert(spent[i] == k);
            }
            if spent.contains(k) {
                let i = choose|i: int| 0 <= i < spent.len() && spent[i] == k;
                if i < front.len() {
                    assert(front[i] == k);
                }
            }
            assert(spent[spent.len() - 1] == spent.last());
        }
        assert(l.utxos.remove_keys(front.to_set()).remove(spent.last()) =~= l.utxos.remove_keys(
            spent.to_set(),
        ));
    }
}

proof fn lemma_puts(kv: KvMap, created: Seq<(OutPoint, TxOut)>)
    ensures
        ledger_of(
            after_ops(kv, created.map_values(|p: (OutPoint, TxOut)| put_output(p.0, p.1))),
        ) == (Ledger { utxos: inserted(ledger_of(kv).utxos, created), ..ledger_of(kv) }),
    decreases created.len(),
{
    let ops = created.map_values(|p: (OutPoint, TxOut)| put_output(p.0, p.1));
    if created.len() == 0 {
        assert(ops =~= Seq::<KvOpView>::empty());
    } else {
        let front = created.drop_last();
        lemma_puts(kv, front);
        assert(ops.drop_last() =~= front.map_values(
            |p: (OutPoint, TxOut)| put_output(p.0, p.1),
        ));
        assert(ops.last() == put_output(created.last().0, created.last().1));
        lemma_put_output(
            after_ops(kv, ops.drop_last()),
            created.last().0,
            created.last().1,
        );
    }
}

proof fn lemma_change_ops(kv: KvMap, spent: Seq<OutPoint>, created: Seq<(OutPoint, TxOut)>)
    ensures
        ledger_of(after_ops(kv, change_ops(spent, created))) == (Ledger {
            utxos: changed(ledger_of(kv).utxos, spent, created),
            ..ledger_of(kv)
        }),
        forall|i: int|
            0 <= i < change_ops(spent, created).len() ==> op_sound(
                #[trigger] change_ops(spent, created)[i],
            ),
{
    let drops = spent.map_values(|op: OutPoint| drop_output(op));
    let puts = created.map_values(|p: (OutPoint, TxOut)| put_output(p.0, p.1));
    lemma_after_ops_concat(kv, drops, puts);
    lemma_drops(kv, spent);
    lemma_puts(after_ops(kv, drops), created);
    let all = change_ops(spent, created);
    assert forall|i: int| 0 <= i < all.len() implies op_sound(#[trigger] all[i]) by {
        if i < drops.len() {
            assert(all[i] == drops[i]);
        } else {
            let p = created[i - drops.len()];
            assert(all[i] == put_output(p.0, p.1));
            lemma_put_output(kv, p.0, p.1);
        }
    }
}

proof fn lemma_index_ops(kv: KvMap, list: Seq<[u8; 32]>, height: u64)
    ensures
        ledger_of(after_ops(kv, index_ops(list, height))) == (Ledger {
            tx_heights: inserted(ledger_of(kv).tx_heights, at_height(list, height)),
            ..ledger_of(kv)
        }),
    decreases list.len(),
{
    let ops = index_ops(list, height);
    let pairs = at_height(list, height);
    if list.len() == 0 {
        assert(ops =~= Seq::<KvOpView>::empty());
        assert(pairs =~= Seq::<([u8; 32], u64)>::empty());
    } else {
        let front = list.drop_last();
        lemma_index_ops(kv, front, height);
        assert(ops.drop_last() =~= index_ops(front, height));
        assert(pairs.drop_last() =~= at_height(front, height));
        assert(ops.last() == put_tx(list.last(), height));
        lemma_put_tx(after_ops(kv, ops.drop_last()), list.last(), height);
    }
}

/// Four writes in a row.
proof fn lemma_four_ops(kv: KvMap, a: KvOpView, b: KvOpView, c: KvOpView, d: KvOpView)
    ensures
        after_ops(kv, seq![a, b, c, d]) == after_op(
            after_op(after_op(after_op(kv, a), b), c),
            d,
        ),
{
    let four = seq![a, b, c, d];
    let three = seq![a, b, c];
    let two = seq![a, b];
    let one = seq![a];
    assert(four.drop_last() =~= three);
    assert(three.drop_last() =~= two);
    assert(two.drop_last() =~= one);
    assert(one.drop_last() =~= Seq::<KvOpView>::empty());
    assert(after_ops(kv, one.drop_last()) == kv);
    assert(after_ops(kv, one) == after_op(kv, a));
    assert(after_ops(kv, two) == after_op(after_op(kv, a), b));
    assert(after_ops(kv, three) == after_op(after_op(after_op(kv, a), b), c));
}

/// The writes of a new block keep a store sound.
proof fn lemma_commit_ops_sound(
    kv: KvMap,
    block: BlockView,
    spent: Seq<OutPoint>,
    created: Seq<(OutPoint, TxOut)>,
    undo: Seq<(OutPoint, TxOut)>,
)
    requires
        block.encodable(),
        undo.len() <= u32::MAX,
    ensures
        shaped(kv) ==> shaped(after_ops(kv, commit_ops(block, spent, created, undo))),
        sound(kv) ==> sound(after_ops(kv, commit_ops(block, spent, created, undo))),
{
    let height = block.header.height;
    let first = change_ops(spent, created);
    let middle = seq![
        put_block_at(height, block),
        put_hash(block.hash(), height),
        put_latest(height),
        put_undo(height, undo),
    ];
    lemma_change_ops(kv, spent, created);
    lemma_put_block_at(kv, height, block);
    lemma_put_hash(kv, block.hash(), height);
    lemma_put_latest(kv, height);
    lemma_put_undo(kv, height, undo);
    let all = commit_ops(block, spent, created, undo);
    assert forall|i: int| 0 <= i < all.len() implies op_sound(#[trigger] all[i]) by {
        if i < first.len() {
            assert(all[i] == first[i]);
        } else if i < first.len() + 4 {
            assert(all[i] == middle[i - first.len()]);
        } else {
            let id = ids(block.transactions)[i - first.len() - 4];
            assert(all[i] == put_tx(id, height));
            lemma_put_tx(kv, id, height);
        }
    }
    lemma_ops_sound(kv, all);
}

/// What the writes of a new block mean.
proof fn lemma_commit_ops(
    kv: KvMap,
    block: BlockView,
    spent: Seq<OutPoint>,
    created: Seq<(OutPoint, TxOut)>,
    undo: Seq<(OutPoint, TxOut)>,
)
    requires
        block.encodable(),
        undo.len() <= u32::MAX,
    ensures
        ledger_of(after_ops(kv, commit_ops(block, spent, created, undo))) == ledger_of(
            kv,
        ).committed(block, spent, created, undo),
        shaped(kv) ==> shaped(after_ops(kv, commit_ops(block, spent, created, undo))),
        sound(kv) ==> sound(after_ops(kv, commit_ops(block, spent, created, undo))),
{
    let height = block.header.height;
    let first = change_ops(spent, created);
    let middle = seq![
        put_block_at(height, block),
        put_hash(block.hash(), height),
        put_latest(height),
        put_undo(height, undo),
    ];
    let last = index_ops(ids(block.transactions), height);
    lemma_change_ops(kv, spent, created);
    lemma_after_ops_concat(kv, first, middle);
    lemma_after_ops_concat(kv, first + middle, last);
    let kv1 = after_ops(kv, first);
    let kv2 = after_op(kv1, put_block_at(height, block));
    let kv3 = after_op(kv2, put_hash(block.hash(), height));
    let kv4 = after_op(kv3, put_latest(height));
    let kv5 = after_op(kv4, put_undo(height, undo));
    lemma_put_block_at(kv1, height, block);
    lemma_put_hash(kv2, block.hash(), height);
    lemma_put_latest(kv3, height);
    lemma_put_undo(kv4, height, undo);
    lemma_four_ops(
        kv1,
        put_block_at(height, block),
        put_hash(block.hash(), height),
        put_latest(height),
        put_undo(height, undo),
    );
    lemma_index_ops(kv5, ids(block.transactions), height);
    assert(ledger_of(after_ops(kv, commit_ops(block, spent, created, undo))) =~= ledger_of(
        kv,
    ).committed(block, spent, created, undo));
    lemma_commit_ops_sound(kv, block, spent, created, undo);
}

proof fn lemma_forget_ops(kv: KvMap, txs: Seq<TransactionView>)
    requires
        forall|i: int| 0 <= i < txs.len() ==> (#[trigger] txs[i]).outputs.len() <= u32::MAX,
    ensures
        ledger_of(after_ops(kv, forget_ops(txs))) == (Ledger {
            utxos: ledger_of(kv).utxos.remove_keys(created_by(txs)),
            tx_heights: ledger_of(kv).tx_heights.remove_keys(ids(txs).to_set()),
            ..ledger_of(kv)
        }),
        forall|i: int| 0 <= i < forget_ops(txs).len() ==> op_sound(#[trigger] forget_ops(txs)[i]),
    decreases txs.len(),
{
    let l = ledger_of(kv);
    if txs.len() == 0 {
        assert(created_by(txs) =~= Set::<OutPoint>::empty());
        assert(ids(txs).to_set() =~= Set::<[u8; 32]>::empty());
        assert(l.utxos.remove_keys(created_by(txs)) =~= l.utxos);
        assert(l.tx_heights.remove_keys(ids(txs).to_set()) =~= l.tx_heights);
    } else {
        let front = txs.drop_last();
        let tx = txs.last();
        let n = txs.len() - 1;
        assert forall|i: int| 0 <= i < front.len() implies (#[trigger] front[i]).outputs.len()
            <= u32::MAX by {
            assert(front[i] == txs[i]);
        }
        lemma_forget_ops(kv, front);
        let own = own_outpoints(tx.id(), tx.outputs.len());
        let drops = own.map_values(|op: OutPoint| drop_output(op));
        let kv1 = after_ops(kv, forget_ops(front));
        let kv2 = after_ops(kv1, drops);
        lemma_after_ops_concat(kv, forget_ops(front), drops.push(drop_tx(tx.id())));
        assert(drops.push(drop_tx(tx.id())).drop_last() =~= drops);
        lemma_drops(kv1, own);
        lemma_drop_tx(kv2, tx.id());
        assert(txs[n] == tx);
        assert(tx.outputs.len() <= u32::MAX);
        assert forall|op: OutPoint| #[trigger]
            created_by(txs).contains(op) == (created_by(front).contains(op) || own.to_set().contains(
                op,
            )) by {
            if creates(front, op) {
                let i = choose|i: int|
                    0 <= i < front.len() && (#[trigger] front[i]).id() == op.txid && op.vout
                        < front[i].outputs.len();
                assert(txs[i].id() == op.txid);
            }
            if creates(txs, op) {
                let i = choose|i: int|
                    0 <= i < txs.len() && (#[trigger] txs[i]).id() == op.txid && op.vout
                        < txs[i].outputs.len();
                if i < n {
                    assert(front[i].id() == op.txid);
                } else {
                    assert(own[op.vout as int] == op);
                }
            }
            if own.contains(op) {
                let j = choose|j: int| 0 <= j < own.len() && own[j] == op;
                assert(txs[n].id() == op.txid);
            }
        }
        assert(l.utxos.remove_keys(created_by(front)).remove_keys(own.to_set())
            =~= l.utxos.remove_keys(created_by(txs)));
        assert forall|id: [u8; 32]| #[trigger]
            ids(txs).to_set().contains(id) == (ids(front).to_set().contains(id) || id
                == tx.id()) by {
            if ids(front).contains(id) {
                let i = choose|i: int| 0 <= i < ids(front).len() && ids(front)[i] == id;
                assert(ids(txs)[i] == id);
            }
            if ids(txs).contains(id) {
                let i = choose|i: int| 0 <= i < ids(txs).len() && ids(txs)[i] == id;
                if i < n {
                    assert(ids(front)[i] == id);
                }
            }
            assert(ids(txs)[n] == tx.id());
        }
        assert(l.tx_heights.remove_keys(ids(front).to_set()).remove(tx.id())
            =~= l.tx_heights.remove_keys(ids(txs).to_set()));
        let all = forget_ops(txs);
        assert forall|i: int| 0 <= i < all.len() implies op_sound(#[trigger] all[i]) by {
            if i < forget_ops(front).len() {
                assert(all[i] == forget_ops(front)[i]);
            } else if i < forget_ops(front).len() + drops.len() {
                assert(all[i] == drops[i - forget_ops(front).len()]);
            }
        }
    }
}

/// What the writes that undo the latest block mean.
proof fn lemma_undo_ops(kv: KvMap, block: BlockView, height: u64, undo: Seq<(OutPoint, TxOut)>)
    requires
        forall|i: int|
            0 <= i < block.transactions.len() ==> (
            #[trigger] block.transactions[i]).outputs.len() <= u32::MAX,
    ensures
        ledger_of(after_ops(kv, undo_ops(block, height, undo))) == (Ledger {
            utxos: inserted(ledger_of(kv).utxos, undo).remove_keys(
                created_by(block.transactions),
            ),
            blocks: ledger_of(kv).blocks.remove(height),
            heights: ledger_of(kv).heights.remove(block.hash()),
            latest: if height == 0 {
                None
            } else {
                Some((height - 1) as u64)
            },
            undo: ledger_of(kv).undo.remove(height),
            tx_heights: ledger_of(kv).tx_heights.remove_keys(ids(block.transactions).to_set()),
        }),
        shaped(kv) ==> shaped(after_ops(kv, undo_ops(block, height, undo))),
        sound(kv) ==> sound(after_ops(kv, undo_ops(block, height, undo))),
{
    let first = undo.map_values(|p: (OutPoint, TxOut)| put_output(p.0, p.1));
    let middle = forget_ops(block.transactions);
    let step = if height == 0 {
        drop_latest()
    } else {
        put_latest((height - 1) as u64)
    };
    let last = seq![step, drop_block_at(height), drop_hash(block.hash()), drop_undo(height)];
    lemma_after_ops_concat(kv, first, middle);
    lemma_after_ops_concat(kv, first + middle, last);
    lemma_puts(kv, undo);
    lemma_forget_ops(after_ops(kv, first), block.transactions);
    let kv1 = after_ops(after_ops(kv, first), middle);
    let kv2 = after_op(kv1, step);
    let kv3 = after_op(kv2, drop_block_at(height));
    let kv4 = after_op(kv3, drop_hash(block.hash()));
    let kv5 = after_op(kv4, drop_undo(height));
    if height == 0 {
        lemma_drop_latest(kv1);
    } else {
        lemma_put_latest(kv1, (height - 1) as u64);
    }
    lemma_drop_block_at(kv2, height);
    lemma_drop_hash(kv3, block.hash());
    lemma_drop_undo(kv4, height);
    lemma_four_ops(kv1, step, drop_block_at(height), drop_hash(block.hash()), drop_undo(height));
    let all = undo_ops(block, height, undo);
    assert forall|i: int| 0 <= i < all.len() implies op_sound(#[trigger] all[i]) by {
        if i < first.len() {
            let p = undo[i];
            assert(all[i] == put_output(p.0, p.1));
            lemma_put_output(kv, p.0, p.1);
        } else if i < first.len() + middle.len() {
            assert(all[i] == middle[i - first.len()]);
        } else {
            assert(all[i] == last[i - first.len() - middle.len()]);
        }
    }
    lemma_ops_sound(kv, all);
}

/// The error of bytes that do not decode.
pub open spec fn undecodable<T: Decodable>(bytes: Seq<u8>) -> StorageErrorView {
    StorageErrorView::Codec(CodecErrorView::Borsh(T::refusal(bytes)))
}

/// What reading the block at a height gives.
pub open spec fn block_at(kv: KvMap, height: u64) -> Result<Option<BlockView>, StorageErrorView> {
    match kv.get((Column::Blocks, height_key(height))) {
        None => Ok(None),
        Some(value) => match decoded::<Block>(value) {
            Some(block) => Ok(Some(block)),
            None => Err(undecodable::<Block>(value)),
        },
    }
}

/// What reading the block with a hash gives.
pub open spec fn block_with_hash(kv: KvMap, hash: [u8; 32]) -> Result<
    Option<BlockView>,
    StorageErrorView,
> {
    match kv.get((Column::BlockHashIndex, hash@)) {
        None => Ok(None),
        Some(value) => block_at(kv, stored_height(value)),
    }
}

/// What reading the outputs that a block spent gives.
pub open spec fn undo_list_at(kv: KvMap, height: u64) -> Result<
    Seq<(OutPoint, TxOut)>,
    StorageErrorView,
> {
    match kv.get((Column::Undo, height_key(height))) {
        None => Ok(Seq::empty()),
        Some(value) => match decoded::<UndoList>(value) {
            Some(list) => Ok(list),
            None => Err(undecodable::<UndoList>(value)),
        },
    }
}

/// The first of the transactions with an id.
pub open spec fn first_with_id(txs: Seq<TransactionView>, id: [u8; 32]) -> TransactionView
    decreases txs.len(),
{
    if txs.len() <= 1 || txs[0].id() == id {
        txs[0]
    } else {
        first_with_id(txs.skip(1), id)
    }
}

/// What looking a transaction up gives: its block's height and hash, and the transaction.
pub open spec fn transaction_with_id(kv: KvMap, id: [u8; 32]) -> Result<
    Option<(u64, [u8; 32], TransactionView)>,
    StorageErrorView,
> {
    match kv.get((Column::TxIndex, id@)) {
        None => Ok(None),
        Some(value) => match block_at(kv, stored_height(value)) {
            Err(e) => Err(e),
            Ok(None) => Ok(None),
            Ok(Some(block)) => Ok(
                Some(
                    (stored_height(value), block.hash(), first_with_id(block.transactions, id)),
                ),
            ),
        },
    }
}

/// The index entry of a transaction, if there is one, leads to a block, and the block holds the
/// transaction.
pub open spec fn index_holds(kv: KvMap, id: [u8; 32]) -> bool {
    kv.contains_key((Column::TxIndex, id@)) ==> {
        match block_at(kv, stored_height(kv[(Column::TxIndex, id@)])) {
            Err(_) => true,
            Ok(None) => false,
            Ok(Some(block)) => ids(block.transactions).contains(id),
        }
    }
}

/// Keys and values one after the other.
pub open spec fn flattened(list: Seq<(Seq<u8>, Seq<u8>)>) -> Seq<u8>
    decreases list.len(),
{
    if list.len() == 0 {
        Seq::empty()
    } else {
        flattened(list.drop_last()) + list.last().0 + list.last().1
    }
}

/// The outpoint that a key stands for.
pub open spec fn outpoint_of_key(key: Seq<u8>) -> OutPoint {
    OutPoint {
        txid: crate::bytes::array_of(key.subrange(0, 32)),
        vout: be_value(key.subrange(32, 36)) as u32,
    }
}

/// The outputs in a list that belong to an address, in order; an output that does not decode
/// spoils the list.
pub open spec fn owned_in(list: Seq<(Seq<u8>, Seq<u8>)>, owner: Address) -> Result<
    Seq<(OutPoint, TxOut)>,
    StorageErrorView,
>
    decreases list.len(),
{
    if list.len() == 0 {
        Ok(Seq::empty())
    } else {
        match owned_in(list.drop_last(), owner) {
            Err(e) => Err(e),
            Ok(found) => match decoded::<TxOut>(list.last().1) {
                None => Err(undecodable::<TxOut>(list.last().1)),
                Some(output) => if output.pubkey_hash == owner {
                    Ok(found.push((outpoint_of_key(list.last().0), output)))
                } else {
                    Ok(found)
                },
            },
        }
    }
}

/// An error that only a store that can fail gives.
pub open spec fn is_failure(e: StorageErrorView, reliable: bool) -> bool {
    e is RocksDb && !reliable
}

/// The view of an optional block.
pub open spec fn block_option(b: Option<Block>) -> Option<BlockView> {
    match b {
        Some(b) => Some(b@),
        None => None,
    }
}

/// A sound store gives the blocks of its ledger.
pub proof fn lemma_block_at(kv: KvMap, height: u64)
    requires
        sound(kv),
    ensures
        block_at(kv, height) == Ok::<Option<BlockView>, StorageErrorView>(
            ledger_of(kv).blocks.get(height),
        ),
        ledger_of(kv).blocks.contains_key(height) ==> ledger_of(kv).blocks[height].encodable(),
{
    reveal(ledger_of);
    let k = (Column::Blocks, height_key(height));
    if kv.contains_key(k) {
        assert(entry_decodes(Column::Blocks, kv[k]));
        let b = decoded::<Block>(kv[k]).unwrap();
        assert(<Block as Canonical>::encodable(b) && <Block as Canonical>::bytes(b) == kv[k]);
    }
}

/// A sound store gives the undo lists of its ledger.
pub proof fn lemma_undo_list_at(kv: KvMap, height: u64)
    requires
        sound(kv),
    ensures
        undo_list_at(kv, height) == Ok::<Seq<(OutPoint, TxOut)>, StorageErrorView>(
            ledger_of(kv).undo_at(height),
        ),
{
    reveal(ledger_of);
    let k = (Column::Undo, height_key(height));
    if kv.contains_key(k) {
        assert(entry_decodes(Column::Undo, kv[k]));
    }
}

/// A sound store gives, for a hash, the block that its ledger has under that hash.
pub proof fn lemma_block_with_hash(kv: KvMap, hash: [u8; 32])
    requires
        sound(kv),
    ensures
        block_with_hash(kv, hash) == Ok::<Option<BlockView>, StorageErrorView>(
            match ledger_of(kv).heights.get(hash) {
                Some(height) => ledger_of(kv).blocks.get(height),
                None => None,
            },
        ),
{
    reveal(ledger_of);
    if kv.contains_key((Column::BlockHashIndex, hash@)) {
        lemma_block_at(kv, stored_height(kv[(Column::BlockHashIndex, hash@)]));
    }
}

/// A sound store leads from a transaction's index entry to the block that its ledger has there.
pub proof fn lemma_index_holds(kv: KvMap, id: [u8; 32])
    requires
        sound(kv),
        ledger_of(kv).tx_heights.contains_key(id) ==> {
            let height = ledger_of(kv).tx_heights[id];
            &&& ledger_of(kv).blocks.contains_key(height)
            &&& ids(ledger_of(kv).blocks[height].transactions).contains(id)
        },
    ensures
        index_holds(kv, id),
{
    reveal(ledger_of);
    if kv.contains_key((Column::TxIndex, id@)) {
        lemma_block_at(kv, stored_height(kv[(Column::TxIndex, id@)]));
    }
}

/// The ledger on a key-value store.
pub struct RocksStorage<D: KvStore> {
    db: D,
}

fn put_op(column: Column, key: Vec<u8>, value: Vec<u8>) -> (r: KvOp)
    ensures
        r@ == (KvOpView::Put { column, key: key@, value: value@ }),
{
    KvOp::Put { column, key, value }
}

fn delete_op(column: Column, key: Vec<u8>) -> (r: KvOp)
    ensures
        r@ == (KvOpView::Delete { column, key: key@ }),
{
    KvOp::Delete { column, key }
}

fn latest_key_bytes() -> (r: Vec<u8>)
    ensures
        r@ == latest_key(),
{
    to_vec("latest_height".as_bytes())
}

/// Appends the writes that take out spent outputs and put in created ones.
fn push_changes(ops: &mut Vec<KvOp>, spent: &Vec<OutPoint>, created: &Vec<(OutPoint, TxOut)>)
    ensures
        op_views(final(ops)@) == op_views(old(ops)@) + change_ops(spent@, created@),
{
    let ghost start = op_views(ops@);
    let ghost drops = spent@.map_values(|op: OutPoint| drop_output(op));
    let mut i: usize = 0;
    assert(start + drops.take(0) =~= start);
    while i < spent.len()
        invariant
            i <= spent@.len(),
            drops == spent@.map_values(|op: OutPoint| drop_output(op)),
            op_views(ops@) == start + drops.take(i as int),
        decreases spent.len() - i,
    {
        let ghost before = op_views(ops@);
        ops.push(delete_op(Column::Utxos, utxo_key_bytes(&spent[i])));
        assert(op_views(ops@) =~= before.push(drops[i as int]));
        assert(drops.take(i + 1) =~= drops.take(i as int).push(drops[i as int]));
        assert(op_views(ops@) =~= start + drops.take(i + 1));
        i += 1;
    }
    assert(drops.take(drops.len() as int) =~= drops);
    push_outputs(ops, created);
    assert(op_views(ops@) =~= start + change_ops(spent@, created@));
}

/// Appends the writes that put in some outputs.
fn push_outputs(ops: &mut Vec<KvOp>, created: &Vec<(OutPoint, TxOut)>)
    ensures
        op_views(final(ops)@) == op_views(old(ops)@) + created@.map_values(
            |p: (OutPoint, TxOut)| put_output(p.0, p.1),
        ),
{
    let ghost start = op_views(ops@);
    let ghost puts = created@.map_values(|p: (OutPoint, TxOut)| put_output(p.0, p.1));
    let mut i: usize = 0;
    assert(start + puts.take(0) =~= start);
    while i < created.len()
        invariant
            i <= created@.len(),
            puts == created@.map_values(|p: (OutPoint, TxOut)| put_output(p.0, p.1)),
            op_views(ops@) == start + puts.take(i as int),
        decreases created.len() - i,
    {
        let ghost before = op_views(ops@);
        ops.push(put_op(Column::Utxos, utxo_key_bytes(&created[i].0), encode(&created[i].1)));
        assert(op_views(ops@) =~= before.push(puts[i as int]));
        assert(puts.take(i + 1) =~= puts.take(i as int).push(puts[i as int]));
        assert(op_views(ops@) =~= start + puts.take(i + 1));
        i += 1;
    }
    assert(puts.take(puts.len() as int) =~= puts);
}

/// Appends the writes that take out what some transactions created, and their index entries.
fn push_forgets(ops: &mut Vec<KvOp>, txs: &Vec<Transaction>)
    requires
        forall|i: int| 0 <= i < txs@.len() ==> (#[trigger] txs@[i])@.encodable(),
    ensures
        op_views(final(ops)@) == op_views(old(ops)@) + forget_ops(transaction_views(txs@)),
{
    let ghost start = op_views(ops@);
    let ghost views = transaction_views(txs@);
    let mut i: usize = 0;
    assert(views.take(0) =~= Seq::<TransactionView>::empty());
    assert(start + forget_ops(views.take(0)) =~= start);
    while i < txs.len()
        invariant
            i <= txs@.len(),
            views == transaction_views(txs@),
            forall|k: int| 0 <= k < txs@.len() ==> (#[trigger] txs@[k])@.encodable(),
            op_views(ops@) == start + forget_ops(views.take(i as int)),
        decreases txs.len() - i,
    {
        let tx = &txs[i];
        let id = txid(tx);
        let ghost at = op_views(ops@);
        let ghost own = own_outpoints(id, tx@.outputs.len());
        let ghost drops = own.map_values(|op: OutPoint| drop_output(op));
        let count: u32 = tx.outputs.len() as u32;
        let mut vout: u32 = 0;
        assert(at + drops.take(0) =~= at);
        while vout < count
            invariant
                vout <= count,
                count == own.len(),
                own == own_outpoints(id, count as nat),
                drops == own.map_values(|op: OutPoint| drop_output(op)),
                op_views(ops@) == at + drops.take(vout as int),
            decreases count - vout,
        {
            let ghost before = op_views(ops@);
            let op = OutPoint { txid: id, vout };
            ops.push(delete_op(Column::Utxos, utxo_key_bytes(&op)));
            assert(own[vout as int] == op);
            assert(op_views(ops@) =~= before.push(drops[vout as int]));
            assert(drops.take(vout + 1) =~= drops.take(vout as int).push(drops[vout as int]));
            assert(op_views(ops@) =~= at + drops.take(vout + 1));
            vout += 1;
        }
        assert(drops.take(count as int) =~= drops);
        let ghost before = op_views(ops@);
        ops.push(delete_op(Column::TxIndex, to_vec(id.as_slice())));
        proof {
            assert(op_views(ops@) =~= before.push(drop_tx(id)));
            let next = views.take(i + 1);
            assert(next.drop_last() =~= views.take(i as int));
            assert(next.last() == tx@);
            assert(op_views(ops@) =~= start + forget_ops(next));
        }
        i += 1;
    }
    assert(views.take(views.len() as int) =~= views);
}

impl<D: KvStore> RocksStorage<D> {
    /// What the database holds.
    pub closed spec fn kv(&self) -> KvMap {
        self.db.kv()
    }

    /// The database can be used.
    pub closed spec fn usable(&self) -> bool {
        self.db.wf()
    }

    /// The database never fails.
    pub closed spec fn never_fails(&self) -> bool {
        self.db.reliable()
    }

    /// The ledger.
    pub open spec fn ledger(&self) -> Ledger {
        ledger_of(self.kv())
    }

    /// The storage on a database that is open.
    pub fn from_db(db: D) -> (r: RocksStorage<D>)
        requires
            db.wf(),
        ensures
            r.usable(),
            r.kv() == db.kv(),
            r.never_fails() == db.reliable(),
    {
        RocksStorage { db }
    }

    /// Whether everything in a column has its fixed lengths and decodes.
    fn column_is_sound(&self, column: Column) -> (r: Result<bool, StorageError>)
        requires
            self.usable(),
        ensures
            match r {
                Ok(good) => good == column_sound(self.kv(), column),
                Err(e) => is_failure(e@, self.never_fails()),
            },
    {
        let list = match self.db.entries(column) {
            Ok(list) => list,
            Err(e) => return Err(StorageError::RocksDb(e)),
        };
        let ghost views = pair_views(list@);
        let mut i: usize = 0;
        while i < list.len()
            invariant
                i <= list@.len(),
                views == pair_views(list@),
                lists_column(views, self.kv(), column),
                forall|j: int|
                    0 <= j < i ==> entry_shaped(column, (#[trigger] views[j]).0, views[j].1)
                        && entry_decodes(column, views[j].1),
            decreases list.len() - i,
        {
            assert(views[i as int] == (list@[i as int].0@, list@[i as int].1@));
            if !entry_is_sound(column, &list[i].0, &list[i].1) {
                assert(self.kv().contains_key((column, views[i as int].0)));
                return Ok(false);
            }
            i += 1;
        }
        proof {
            assert forall|k: Seq<u8>| #[trigger] self.kv().contains_key((column, k)) implies
                entry_shaped(column, k, self.kv()[(column, k)]) && entry_decodes(
                column,
                self.kv()[(column, k)],
            ) by {
                assert(has_key(views, k));
                let j = choose|j: int| 0 <= j < views.len() && (#[trigger] views[j]).0 == k;
                assert(self.kv()[(column, views[j].0)] == views[j].1);
            }
        }
        Ok(true)
    }

    /// Whether everything in the store has its fixed lengths and decodes, as it does where nothing
    /// but this storage has written.
    pub fn is_sound(&self) -> (r: Result<bool, StorageError>)
        requires
            self.usable(),
        ensures
            match r {
                Ok(good) => good == sound(self.kv()),
                Err(e) => is_failure(e@, self.never_fails()),
            },
    {
        let columns: [Column; 6] = [
            Column::Utxos,
            Column::Meta,
            Column::Blocks,
            Column::BlockHashIndex,
            Column::Undo,
            Column::TxIndex,
        ];
        let mut i: usize = 0;
        while i < 6
            invariant
                i <= 6,
                self.usable(),
                columns@ == seq![
                    Column::Utxos,
                    Column::Meta,
                    Column::Blocks,
                    Column::BlockHashIndex,
                    Column::Undo,
                    Column::TxIndex,
                ],
                forall|j: int| 0 <= j < i ==> column_sound(self.kv(), #[trigger] columns@[j]),
            decreases 6 - i,
        {
            match self.column_is_sound(columns[i]) {
                Ok(true) => {},
                Ok(false) => {
                    assert(!column_sound(self.kv(), columns@[i as int]));
                    return Ok(false);
                },
                Err(e) => return Err(e),
            }
            i += 1;
        }
        proof {
            assert forall|c: Column| #[trigger] column_sound(self.kv(), c) by {
                let j: int = match c {
                    Column::Utxos => 0,
                    Column::Meta => 1,
                    Column::Blocks => 2,
                    Column::BlockHashIndex => 3,
                    Column::Undo => 4,
                    Column::TxIndex => 5,
                };
                assert(column_sound(self.kv(), columns@[j]));
            }
            assert forall|c: Column, k: Seq<u8>| #[trigger] self.kv().contains_key((c, k)) implies
                entry_shaped(c, k, self.kv()[(c, k)]) && entry_decodes(c, self.kv()[(c, k)]) by {
                assert(column_sound(self.kv(), c));
            }
        }
        Ok(true)
    }

    /// The heights that have an entry among the blocks or among the lists of spent outputs.
    pub fn heights_in(&self, column: Column) -> (r: Result<Vec<u64>, StorageError>)
        requires
            self.usable(),
            shaped(self.kv()),
            column == Column::Blocks || column == Column::Undo,
        ensures
            match r {
                Ok(list) => {
                    &&& column == Column::Blocks ==> forall|h: u64| #[trigger]
                        list@.contains(h) <==> self.ledger().blocks.contains_key(h)
                    &&& column == Column::Undo ==> forall|h: u64| #[trigger]
                        list@.contains(h) <==> self.ledger().undo.contains_key(h)
                },
                Err(e) => is_failure(e@, self.never_fails()),
            },
    {
        let list = match self.db.entries(column) {
            Ok(list) => list,
            Err(e) => return Err(StorageError::RocksDb(e)),
        };
        let ghost views = pair_views(list@);
        let mut heights: Vec<u64> = Vec::new();
        let mut i: usize = 0;
        while i < list.len()
            invariant
                i <= list@.len(),
                views == pair_views(list@),
                lists_column(views, self.kv(), column),
                shaped(self.kv()),
                column == Column::Blocks || column == Column::Undo,
                heights@.len() == i,
                forall|j: int| 0 <= j < i ==> height_key(#[trigger] heights@[j]) == views[j].0,
            decreases list.len() - i,
        {
            proof {
                assert(views[i as int] == (list@[i as int].0@, list@[i as int].1@));
                assert(self.kv().contains_key((column, views[i as int].0)));
                assert(entry_shaped(column, views[i as int].0, views[i as int].1));
                lemma_be_value_bytes(views[i as int].0);
            }
            heights.push(u64_from_be(list[i].0.as_slice()));
            i += 1;
        }
        proof {
            reveal(ledger_of);
            assert forall|h: u64| #[trigger]
                heights@.contains(h) <==> self.kv().contains_key((column, height_key(h))) by {
                if heights@.contains(h) {
                    let j = choose|j: int| 0 <= j < heights@.len() && heights@[j] == h;
                    assert(views[j].0 == height_key(h));
                }
                if self.kv().contains_key((column, height_key(h))) {
                    assert(has_key(views, height_key(h)));
                    let j = choose|j: int|
                        0 <= j < views.len() && (#[trigger] views[j]).0 == height_key(h);
                    lemma_height_key_injective(heights@[j], h);
                }
            }
        }
        Ok(heights)
    }

    /// The entries of the index of blocks by hash, or of transactions by id.
    pub fn index_in(&self, column: Column) -> (r: Result<Vec<([u8; 32], u64)>, StorageError>)
        requires
            self.usable(),
            shaped(self.kv()),
            column == Column::BlockHashIndex || column == Column::TxIndex,
        ensures
            match r {
                Ok(list) => {
                    &&& column == Column::BlockHashIndex ==> forall|x: [u8; 32], h: u64| #[trigger]
                        list@.contains((x, h)) <==> self.ledger().heights.get(x) == Some(h)
                    &&& column == Column::TxIndex ==> forall|x: [u8; 32], h: u64| #[trigger]
                        list@.contains((x, h)) <==> self.ledger().tx_heights.get(x) == Some(h)
                },
                Err(e) => is_failure(e@, self.never_fails()),
            },
    {
        let list = match self.db.entries(column) {
            Ok(list) => list,
            Err(e) => return Err(StorageError::RocksDb(e)),
        };
        let ghost views = pair_views(list@);
        let mut found: Vec<([u8; 32], u64)> = Vec::new();
        let mut i: usize = 0;
        while i < list.len()
            invariant
                i <= list@.len(),
                views == pair_views(list@),
                lists_column(views, self.kv(), column),
                shaped(self.kv()),
                column == Column::BlockHashIndex || column == Column::TxIndex,
                found@.len() == i,
                forall|j: int|
                    0 <= j < i ==> (#[trigger] found@[j]).0@ == views[j].0 && found@[j].1
                        == stored_height(views[j].1),
            decreases list.len() - i,
        {
            proof {
                assert(views[i as int] == (list@[i as int].0@, list@[i as int].1@));
                assert(self.kv().contains_key((column, views[i as int].0)));
                assert(entry_shaped(column, views[i as int].0, views[i as int].1));
            }
            let key: [u8; 32] = to_array(list[i].0.as_slice());
            found.push((key, u64_from_be(list[i].1.as_slice())));
            i += 1;
        }
        proof {
            reveal(ledger_of);
            assert forall|x: [u8; 32], h: u64| #[trigger]
                found@.contains((x, h)) <==> (self.kv().contains_key((column, x@))
                    && stored_height(self.kv()[(column, x@)]) == h) by {
                if found@.contains((x, h)) {
                    let j = choose|j: int| 0 <= j < found@.len() && found@[j] == (x, h);
                    assert(views[j].0 == x@);
                }
                if self.kv().contains_key((column, x@)) {
                    assert(has_key(views, x@));
                    let j = choose|j: int| 0 <= j < views.len() && (#[trigger] views[j]).0 == x@;
                    lemma_array_ext(found@[j].0, x);
                    assert(found@[j] == (x, stored_height(self.kv()[(column, x@)])));
                }
            }
        }
        Ok(found)
    }

    /// Writes a batch.
    fn write_batch(&mut self, ops: Vec<KvOp>) -> (r: Result<(), StorageError>)
        requires
            old(self).usable(),
        ensures
            final(self).usable(),
            final(self).never_fails() == old(self).never_fails(),
            match r {
                Ok(_) => final(self).kv() == after_ops(old(self).kv(), op_views(ops@)),
                Err(e) => final(self).kv() == old(self).kv() && is_failure(
                    e@,
                    old(self).never_fails(),
                ),
            },
    {
        match self.db.write(ops) {
            Ok(_) => Ok(()),
            Err(e) => Err(StorageError::RocksDb(e)),
        }
    }

    /// Stores a block without applying it, as for the first block of a chain: its indices and the
    /// latest height change, the outputs do not.
    pub fn put_block(&mut self, block: &Block) -> (r: Result<(), StorageError>)
        requires
            old(self).usable(),
            block@.encodable(),
        ensures
            final(self).usable(),
            final(self).never_fails() == old(self).never_fails(),
            match r {
                Ok(_) => {
                    &&& final(self).ledger() == old(self).ledger().with_block(block@)
                    &&& shaped(old(self).kv()) ==> shaped(final(self).kv())
                    &&& sound(old(self).kv()) ==> sound(final(self).kv())
                },
                Err(e) => final(self).kv() == old(self).kv() && is_failure(
                    e@,
                    old(self).never_fails(),
                ),
            },
    {
        let height = block.header.height;
        let hash = block_hash(block);
        let ghost kv = self.kv();
        let mut ops: Vec<KvOp> = Vec::new();
        ops.push(put_op(Column::Blocks, height_key_bytes(height), encode(block)));
        ops.push(
            put_op(Column::BlockHashIndex, to_vec(hash.as_slice()), height_key_bytes(height)),
        );
        ops.push(put_op(Column::Meta, latest_key_bytes(), height_key_bytes(height)));
        proof {
            let views = op_views(ops@);
            let want = seq![
                put_block_at(height, block@),
                put_hash(hash, height),
                put_latest(height),
            ];
            assert(views =~= want);
            let kv1 = after_op(kv, put_block_at(height, block@));
            let kv2 = after_op(kv1, put_hash(hash, height));
            let kv3 = after_op(kv2, put_latest(height));
            lemma_put_block_at(kv, height, block@);
            lemma_put_hash(kv1, hash, height);
            lemma_put_latest(kv2, height);
            assert(after_ops(kv, views) == kv3) by {
                reveal_with_fuel(after_ops, 4);
                assert(want.drop_last() =~= seq![
                    put_block_at(height, block@),
                    put_hash(hash, height),
                ]);
                assert(want.drop_last().drop_last() =~= seq![put_block_at(height, block@)]);
                assert(want.drop_last().drop_last().drop_last() =~= Seq::<KvOpView>::empty());
            }
            lemma_ops_sound(kv, views);
        }
        self.write_batch(ops)
    }

    /// The block at a height.
    pub fn get_block(&self, height: u64) -> (r: Result<Option<Block>, StorageError>)
        requires
            self.usable(),
        ensures
            match r {
                Ok(b) => {
                    &&& block_at(self.kv(), height) == Ok::<Option<BlockView>, StorageErrorView>(
                        block_option(b),
                    )
                    &&& b is Some ==> b->0@.encodable()
                },
                Err(e) => is_failure(e@, self.never_fails()) || block_at(self.kv(), height) == Err::<
                    Option<BlockView>,
                    StorageErrorView,
                >(e@),
            },
    {
        let key = height_key_bytes(height);
        match self.db.get(Column::Blocks, key.as_slice()) {
            Ok(Some(bytes)) => {
                match decode::<Block>(bytes.as_slice()) {
                    Ok(block) => Ok(Some(block)),
                    Err(e) => Err(StorageError::Codec(e)),
                }
            },
            Ok(None) => Ok(None),
            Err(e) => Err(StorageError::RocksDb(e)),
        }
    }

    /// The block with a hash.
    pub fn get_block_by_hash(&self, hash: &[u8; 32]) -> (r: Result<Option<Block>, StorageError>)
        requires
            self.usable(),
            shaped(self.kv()),
        ensures
            match r {
                Ok(b) => {
                    &&& block_with_hash(self.kv(), *hash) == Ok::<
                        Option<BlockView>,
                        StorageErrorView,
                    >(block_option(b))
                    &&& b is Some ==> b->0@.encodable()
                },
                Err(e) => is_failure(e@, self.never_fails()) || block_with_hash(self.kv(), *hash)
                    == Err::<Option<BlockView>, StorageErrorView>(e@),
            },
    {
        match self.db.get(Column::BlockHashIndex, hash.as_slice()) {
            Ok(Some(bytes)) => {
                proof {
                    let k = (Column::BlockHashIndex, hash@);
                    assert(entry_shaped(Column::BlockHashIndex, hash@, self.kv()[k]));
                }
                let height = u64_from_be(bytes.as_slice());
                self.get_block(height)
            },
            Ok(None) => Ok(None),
            Err(e) => Err(StorageError::RocksDb(e)),
        }
    }

    /// The height of the latest block, if there is one.
    pub fn latest_height(&self) -> (r: Result<Option<u64>, StorageError>)
        requires
            self.usable(),
            shaped(self.kv()),
        ensures
            match r {
                Ok(h) => h == self.ledger().latest,
                Err(e) => is_failure(e@, self.never_fails()),
            },
    {
        let key = latest_key_bytes();
        match self.db.get(Column::Meta, key.as_slice()) {
            Ok(Some(bytes)) => {
                proof {
                    let k = (Column::Meta, latest_key());
                    reveal(ledger_of);
                    assert(entry_shaped(Column::Meta, latest_key(), self.kv()[k]));
                }
                Ok(Some(u64_from_be(bytes.as_slice())))
            },
            Ok(None) => {
                proof {
                    reveal(ledger_of);
                }
                Ok(None)
            },
            Err(e) => Err(StorageError::RocksDb(e)),
        }
    }

    /// A hash over all unspent outputs in key order. It tells apart ledgers that differ; it is no
    /// rule of the chain.
    pub fn state_root(&self) -> (r: Result<[u8; 32], StorageError>)
        requires
            self.usable(),
        ensures
            match r {
                Ok(root) => exists|list: Seq<(Seq<u8>, Seq<u8>)>| #[trigger]
                    lists_column(list, self.kv(), Column::Utxos) && root == digest(
                        flattened(list),
                    ),
                Err(e) => is_failure(e@, self.never_fails()),
            },
    {
        let list = match self.db.entries(Column::Utxos) {
            Ok(list) => list,
            Err(e) => return Err(StorageError::RocksDb(e)),
        };
        let ghost views = pair_views(list@);
        let mut all: Vec<u8> = Vec::new();
        let mut i: usize = 0;
        assert(views.take(0) =~= Seq::<(Seq<u8>, Seq<u8>)>::empty());
        while i < list.len()
            invariant
                i <= list@.len(),
                views == pair_views(list@),
                all@ == flattened(views.take(i as int)),
            decreases list.len() - i,
        {
            let ghost before = all@;
            all.extend_from_slice(list[i].0.as_slice());
            all.extend_from_slice(list[i].1.as_slice());
            proof {
                let next = views.take(i + 1);
                assert(next.drop_last() =~= views.take(i as int));
                assert(next.last() == views[i as int]);
                assert(all@ =~= before + views[i as int].0 + views[i as int].1);
            }
            i += 1;
        }
        assert(views.take(views.len() as int) =~= views);
        assert(lists_column(views, self.kv(), Column::Utxos));
        Ok(hash(all.as_slice()))
    }

    /// The unspent outputs that belong to an address, in key order.
    pub fn list_utxos_for(&self, owner: &Address) -> (r: Result<
        Vec<(OutPoint, TxOut)>,
        StorageError,
    >)
        requires
            self.usable(),
            shaped(self.kv()),
        ensures
            match r {
                Ok(found) => exists|list: Seq<(Seq<u8>, Seq<u8>)>| #[trigger]
                    lists_column(list, self.kv(), Column::Utxos) && owned_in(list, *owner) == Ok::<
                        Seq<(OutPoint, TxOut)>,
                        StorageErrorView,
                    >(found@),
                Err(e) => is_failure(e@, self.never_fails()) || exists|
                    list: Seq<(Seq<u8>, Seq<u8>)>,
                | #[trigger]
                    lists_column(list, self.kv(), Column::Utxos) && owned_in(list, *owner) == Err::<
                        Seq<(OutPoint, TxOut)>,
                        StorageErrorView,
                    >(e@),
            },
    {
        let list = match self.db.entries(Column::Utxos) {
            Ok(list) => list,
            Err(e) => return Err(StorageError::RocksDb(e)),
        };
        let ghost views = pair_views(list@);
        let mut found: Vec<(OutPoint, TxOut)> = Vec::new();
        let mut i: usize = 0;
        assert(views.take(0) =~= Seq::<(Seq<u8>, Seq<u8>)>::empty());
        assert(lists_column(views, self.kv(), Column::Utxos));
        while i < list.len()
            invariant
                i <= list@.len(),
                shaped(self.kv()),
                views == pair_views(list@),
                lists_column(views, self.kv(), Column::Utxos),
                owned_in(views.take(i as int), *owner) == Ok::<
                    Seq<(OutPoint, TxOut)>,
                    StorageErrorView,
                >(found@),
            decreases list.len() - i,
        {
            let key = list[i].0.as_slice();
            let value = list[i].1.as_slice();
            proof {
                let next = views.take(i + 1);
                assert(next.drop_last() =~= views.take(i as int));
                assert(next.last() == views[i as int]);
                assert(views[i as int].0 == key@);
                let k = (Column::Utxos, views[i as int].0);
                assert(self.kv().contains_key(k));
                assert(entry_shaped(Column::Utxos, views[i as int].0, self.kv()[k]));
            }
            let output = match decode::<TxOut>(value) {
                Ok(output) => output,
                Err(e) => {
                    proof {
                        lemma_owned_in_err(views, *owner, i + 1);
                    }
                    return Err(StorageError::Codec(e));
                },
            };
            if output.pubkey_hash == *owner {
                let txid: [u8; 32] = to_array(part(key, 0, 32));
                let vout: u32 = u32_from_be(part(key, 32, 36));
                proof {
                    lemma_array_of(txid);
                }
                found.push((OutPoint { txid, vout }, output));
            }
            i += 1;
        }
        assert(views.take(views.len() as int) =~= views);
        Ok(found)
    }

    /// A transaction that is in a block: the block's height and hash, and the transaction.
    pub fn get_transaction(&self, id: &[u8; 32]) -> (r: Result<
        Option<(u64, [u8; 32], Transaction)>,
        StorageError,
    >)
        requires
            self.usable(),
            shaped(self.kv()),
            index_holds(self.kv(), *id),
        ensures
            match r {
                Ok(found) => transaction_with_id(self.kv(), *id) == Ok::<
                    Option<(u64, [u8; 32], TransactionView)>,
                    StorageErrorView,
                >(
                    match found {
                        Some(f) => Some((f.0, f.1, f.2@)),
                        None => None,
                    },
                ),
                Err(e) => is_failure(e@, self.never_fails()) || transaction_with_id(self.kv(), *id)
                    == Err::<Option<(u64, [u8; 32], TransactionView)>, StorageErrorView>(e@),
            },
    {
        let bytes = match self.db.get(Column::TxIndex, id.as_slice()) {
            Ok(Some(bytes)) => bytes,
            Ok(None) => return Ok(None),
            Err(e) => return Err(StorageError::RocksDb(e)),
        };
        proof {
            let k = (Column::TxIndex, id@);
            assert(entry_shaped(Column::TxIndex, id@, self.kv()[k]));
        }
        let height = u64_from_be(bytes.as_slice());
        let block = match self.get_block(height) {
            Ok(Some(block)) => block,
            Ok(None) => return Ok(None),
            Err(e) => return Err(e),
        };
        let found_hash = block_hash(&block);
        let ghost views = block@.transactions;
        let mut i: usize = 0;
        proof {
            lemma_block_encodable(block@);
            assert(views.skip(0) =~= views);
        }
        while i < block.transactions.len()
            invariant
                i < block.transactions@.len() || !ids(views).contains(*id),
                i <= block.transactions@.len(),
                views == block@.transactions,
                views == transaction_views(block.transactions@),
                ids(views).contains(*id),
                transaction_with_id(self.kv(), *id) == Ok::<
                    Option<(u64, [u8; 32], TransactionView)>,
                    StorageErrorView,
                >(Some((height, found_hash, first_with_id(views, *id)))),
                forall|k: int| 0 <= k < views.len() ==> (#[trigger] views[k]).encodable(),
                forall|k: int| 0 <= k < i ==> (#[trigger] views[k]).id() != *id,
                first_with_id(views, *id) == first_with_id(views.skip(i as int), *id),
            decreases block.transactions.len() - i,
        {
            let tx = &block.transactions[i];
            assert(views[i as int] == tx@);
            let this = txid(tx);
            if crate::bytes::same_array(&this, id) {
                assert(views.skip(i as int)[0] == tx@);
                return Ok(Some((height, found_hash, tx.duplicate())));
            }
            proof {
                let k = choose|k: int| 0 <= k < ids(views).len() && ids(views)[k] == *id;
                assert(views[k].id() == *id);
                assert(k > i);
                let rest = views.skip(i as int);
                assert(rest[0] == tx@);
                assert(rest.skip(1) =~= views.skip(i + 1));
            }
            i += 1;
        }
        Ok(None)
    }

    /// The outputs that the block at a height spent.
    fn get_undo(&self, height: u64) -> (r: Result<Vec<(OutPoint, TxOut)>, StorageError>)
        requires
            self.usable(),
        ensures
            match r {
                Ok(list) => undo_list_at(self.kv(), height) == Ok::<
                    Seq<(OutPoint, TxOut)>,
                    StorageErrorView,
                >(list@),
                Err(e) => is_failure(e@, self.never_fails()) || undo_list_at(self.kv(), height)
                    == Err::<Seq<(OutPoint, TxOut)>, StorageErrorView>(e@),
            },
    {
        let key = height_key_bytes(height);
        match self.db.get(Column::Undo, key.as_slice()) {
            Ok(Some(bytes)) => {
                match decode::<UndoList>(bytes.as_slice()) {
                    Ok(list) => {
                        assert(list.model() =~= list@);
                        Ok(list)
                    },
                    Err(e) => Err(StorageError::Codec(e)),
                }
            },
            Ok(None) => {
                let none: Vec<(OutPoint, TxOut)> = Vec::new();
                Ok(none)
            },
            Err(e) => Err(StorageError::RocksDb(e)),
        }
    }

    /// Writes everything that a new block brings as one batch: the changes to the outputs, which
    /// have been checked before, the block, its indices, and what it takes to undo it.
    pub fn commit_block(
        &mut self,
        block: &Block,
        spent: Vec<OutPoint>,
        created: Vec<(OutPoint, TxOut)>,
        undo: Vec<(OutPoint, TxOut)>,
    ) -> (r: Result<(), StorageError>)
        requires
            old(self).usable(),
            block@.encodable(),
            undo@.len() <= u32::MAX,
        ensures
            final(self).usable(),
            final(self).never_fails() == old(self).never_fails(),
            match r {
                Ok(_) => {
                    &&& final(self).kv() == after_ops(
                        old(self).kv(),
                        commit_ops(block@, spent@, created@, undo@),
                    )
                    &&& final(self).ledger() == old(self).ledger().committed(
                        block@,
                        spent@,
                        created@,
                        undo@,
                    )
                    &&& shaped(old(self).kv()) ==> shaped(final(self).kv())
                    &&& sound(old(self).kv()) ==> sound(final(self).kv())
                },
                Err(e) => final(self).kv() == old(self).kv() && is_failure(
                    e@,
                    old(self).never_fails(),
                ),
            },
    {
        let height = block.header.height;
        let hash = block_hash(block);
        let ghost kv = self.kv();
        let mut ops: Vec<KvOp> = Vec::new();
        push_changes(&mut ops, &spent, &created);
        let ghost first = change_ops(spent@, created@);
        assert(op_views(ops@) =~= first);
        ops.push(put_op(Column::Blocks, height_key_bytes(height), encode(block)));
        ops.push(
            put_op(Column::BlockHashIndex, to_vec(hash.as_slice()), height_key_bytes(height)),
        );
        ops.push(put_op(Column::Meta, latest_key_bytes(), height_key_bytes(height)));
        assert(undo.model() =~= undo@);
        ops.push(put_op(Column::Undo, height_key_bytes(height), encode(&undo)));
        let ghost middle = seq![
            put_block_at(height, block@),
            put_hash(hash, height),
            put_latest(height),
            put_undo(height, undo@),
        ];
        assert(op_views(ops@) =~= first + middle);
        let ghost base = op_views(ops@);
        let ghost list = ids(block@.transactions);
        let ghost last = index_ops(list, height);
        let mut i: usize = 0;
        proof {
            lemma_block_encodable(block@);
            assert(base + last.take(0) =~= base);
        }
        while i < block.transactions.len()
            invariant
                i <= block.transactions@.len(),
                list == ids(block@.transactions),
                last == index_ops(list, height),
                block@.encodable(),
                op_views(ops@) == base + last.take(i as int),
            decreases block.transactions.len() - i,
        {
            let ghost before = op_views(ops@);
            proof {
                lemma_block_encodable(block@);
                assert(block@.transactions[i as int] == block.transactions@[i as int]@);
            }
            let id = txid(&block.transactions[i]);
            ops.push(put_op(Column::TxIndex, to_vec(id.as_slice()), height_key_bytes(height)));
            assert(list[i as int] == id);
            assert(op_views(ops@) =~= before.push(last[i as int]));
            assert(last.take(i + 1) =~= last.take(i as int).push(last[i as int]));
            assert(op_views(ops@) =~= base + last.take(i + 1));
            i += 1;
        }
        proof {
            assert(last.take(last.len() as int) =~= last);
            assert(op_views(ops@) =~= commit_ops(block@, spent@, created@, undo@));
            lemma_commit_ops(kv, block@, spent@, created@, undo@);
        }
        self.write_batch(ops)
    }

    /// Undoes the latest block as one batch: what it spent comes back, what it created goes, its
    /// indices go, and the block before it is the latest. Gives the block back.
    pub fn undo_latest_block(&mut self) -> (r: Result<Block, StorageError>)
        requires
            old(self).usable(),
            shaped(old(self).kv()),
            old(self).ledger().latest is Some,
            old(self).ledger().blocks.contains_key(old(self).ledger().latest->0),
        ensures
            final(self).usable(),
            final(self).never_fails() == old(self).never_fails(),
            ({
                let height = old(self).ledger().latest->0;
                let block = block_at(old(self).kv(), height);
                let undo = undo_list_at(old(self).kv(), height);
                match r {
                    Ok(b) => {
                        &&& block == Ok::<Option<BlockView>, StorageErrorView>(Some(b@))
                        &&& b@.encodable()
                        &&& undo is Ok
                        &&& final(self).kv() == after_ops(
                            old(self).kv(),
                            undo_ops(b@, height, undo->Ok_0),
                        )
                        &&& shaped(final(self).kv())
                        &&& sound(old(self).kv()) ==> {
                            &&& sound(final(self).kv())
                            &&& b@ == old(self).ledger().blocks[height]
                            &&& final(self).ledger() == old(self).ledger().undone()
                        }
                    },
                    Err(e) => {
                        &&& final(self).kv() == old(self).kv()
                        &&& is_failure(e@, old(self).never_fails()) || block == Err::<
                            Option<BlockView>,
                            StorageErrorView,
                        >(e@) || undo == Err::<Seq<(OutPoint, TxOut)>, StorageErrorView>(e@)
                    },
                }
            }),
    {
        let ghost kv = self.kv();
        proof {
            reveal(ledger_of);
        }
        let height = match self.latest_height() {
            Ok(Some(height)) => height,
            Ok(None) => {
                let empty = StorageError::Codec(CodecError::Borsh(String::new()));
                return Err(empty);
            },
            Err(e) => return Err(e),
        };
        let block = match self.get_block(height) {
            Ok(Some(block)) => block,
            Ok(None) => {
                let missing = StorageError::Codec(CodecError::Borsh(String::new()));
                return Err(missing);
            },
            Err(e) => return Err(e),
        };
        let undo = match self.get_undo(height) {
            Ok(undo) => undo,
            Err(e) => return Err(e),
        };
        let hash = block_hash(&block);
        let mut ops: Vec<KvOp> = Vec::new();
        proof {
            lemma_block_encodable(block@);
            assert forall|i: int| 0 <= i < block.transactions@.len() implies (
            #[trigger] block.transactions@[i])@.encodable() by {
                assert(block@.transactions[i] == block.transactions@[i]@);
            }
        }
        push_outputs(&mut ops, &undo);
        push_forgets(&mut ops, &block.transactions);
        let ghost base = op_views(ops@);
        if height == 0 {
            ops.push(delete_op(Column::Meta, latest_key_bytes()));
        } else {
            ops.push(put_op(Column::Meta, latest_key_bytes(), height_key_bytes(height - 1)));
        }
        ops.push(delete_op(Column::Blocks, height_key_bytes(height)));
        ops.push(delete_op(Column::BlockHashIndex, to_vec(hash.as_slice())));
        ops.push(delete_op(Column::Undo, height_key_bytes(height)));
        proof {
            assert(op_views(ops@) =~= undo_ops(block@, height, undo@));
            assert forall|i: int| 0 <= i < block@.transactions.len() implies (
            #[trigger] block@.transactions[i]).outputs.len() <= u32::MAX by {
                assert(block@.transactions[i].encodable());
            }
            lemma_undo_ops(kv, block@, height, undo@);
            if sound(kv) {
                lemma_block_at(kv, height);
                lemma_undo_list_at(kv, height);
            }
        }
        match self.write_batch(ops) {
            Ok(_) => Ok(block),
            Err(e) => Err(e),
        }
    }
}

/// An output that does not decode spoils every longer list.
proof fn lemma_owned_in_err(list: Seq<(Seq<u8>, Seq<u8>)>, owner: Address, n: int)
    requires
        0 <= n <= list.len(),
        owned_in(list.take(n), owner) is Err,
    ensures
        owned_in(list, owner) == owned_in(list.take(n), owner),
    decreases list.len() - n,
{
    if n == list.len() {
        assert(list.take(n) =~= list);
    } else {
        assert(list.take(n + 1).drop_last() =~= list.take(n));
        lemma_owned_in_err(list, owner, n + 1);
    }
}

impl<D: KvStore> StateStore for RocksStorage<D> {
    type Error = StorageError;

    type Aside = Ledger;

    /// The ledger without its outputs.
    open spec fn aside(&self) -> Ledger {
        Ledger { utxos: Map::empty(), ..self.ledger() }
    }

    open spec fn wf(&self) -> bool {
        self.usable() && sound(self.kv())
    }

    open spec fn contents(&self) -> StoreView {
        StoreView {
            base: self.ledger().utxos,
            created: Map::empty(),
            spent: Set::empty(),
            layered: false,
            reliable: self.never_fails(),
        }
    }

    fn get_utxo(&self, outpoint: &OutPoint) -> (r: Option<TxOut>) {
        let key = utxo_key_bytes(outpoint);
        proof {
            reveal(ledger_of);
        }
        match self.db.read(Column::Utxos, key.as_slice()) {
            Some(bytes) => {
                proof {
                    let k = (Column::Utxos, utxo_key(*outpoint));
                    assert(entry_decodes(Column::Utxos, self.kv()[k]));
                }
                match decode::<TxOut>(bytes.as_slice()) {
                    Ok(output) => Some(output),
                    Err(_) => None,
                }
            },
            None => None,
        }
    }

    fn apply_changes(&mut self, spent: Vec<OutPoint>, created: Vec<(OutPoint, TxOut)>) -> (r:
        Result<(), StorageError>)
        ensures
            r is Ok ==> final(self).ledger() == (Ledger {
                utxos: changed(old(self).ledger().utxos, spent@, created@),
                ..old(self).ledger()
            }),
            r is Err ==> final(self).kv() == old(self).kv() && is_failure(
                r->Err_0@,
                old(self).never_fails(),
            ),
    {
        let ghost kv = self.kv();
        let mut ops: Vec<KvOp> = Vec::new();
        push_changes(&mut ops, &spent, &created);
        proof {
            assert(op_views(ops@) =~= change_ops(spent@, created@));
            lemma_change_ops(kv, spent@, created@);
            lemma_ops_sound(kv, change_ops(spent@, created@));
        }
        self.write_batch(ops)
    }
}

/// Looking for an id among transactions that have it gives one of them, with that id.
proof fn lemma_first_with_id(txs: Seq<TransactionView>, id: [u8; 32], i: int)
    requires
        0 <= i < txs.len(),
        txs[i].id() == id,
    ensures
        first_with_id(txs, id).id() == id,
        txs.contains(first_with_id(txs, id)),
    decreases txs.len(),
{
    if txs.len() <= 1 || txs[0].id() == id {
        assert(txs[0] == first_with_id(txs, id));
    } else {
        let rest = txs.skip(1);
        assert(rest[i - 1] == txs[i]);
        lemma_first_with_id(rest, id, i - 1);
        let k = choose|k: int| 0 <= k < rest.len() && rest[k] == first_with_id(rest, id);
        assert(txs[k + 1] == first_with_id(txs, id));
    }
}

/// A block that was committed is read back under its height and under its hash, with what it takes
/// to undo it; it is the latest, and each of its transactions is found under its id, with the
/// height and the hash of the block. What is stored under other heights stays.
pub proof fn committed_block_is_read_back(
    kv: KvMap,
    block: BlockView,
    spent: Seq<OutPoint>,
    created: Seq<(OutPoint, TxOut)>,
    undo: Seq<(OutPoint, TxOut)>,
)
    requires
        sound(kv),
        block.encodable(),
        undo.len() <= u32::MAX,
    ensures
        ({
            let after = after_ops(kv, commit_ops(block, spent, created, undo));
            let height = block.header.height;
            let txs = block.transactions;
            &&& sound(after)
            &&& block_at(after, height) == Ok::<_, StorageErrorView>(Some(block))
            &&& block_with_hash(after, block.hash()) == Ok::<_, StorageErrorView>(Some(block))
            &&& undo_list_at(after, height) == Ok::<_, StorageErrorView>(undo)
            &&& ledger_of(after).latest == Some(height)
            &&& forall|h: u64| h != height ==> #[trigger] block_at(after, h) == block_at(kv, h)
            &&& forall|i: int|
                0 <= i < txs.len() ==> {
                    let found = transaction_with_id(after, (#[trigger] txs[i]).id());
                    let (h, hash, tx) = found->Ok_0->0;
                    &&& found is Ok && found->Ok_0 is Some
                    &&& h == height
                    &&& hash == block.hash()
                    &&& tx.id() == txs[i].id()
                    &&& txs.contains(tx)
                }
        }),
{
    let after = after_ops(kv, commit_ops(block, spent, created, undo));
    let height = block.header.height;
    let txs = block.transactions;
    lemma_commit_ops(kv, block, spent, created, undo);
    let ledger = ledger_of(after);
    lemma_block_at(after, height);
    lemma_block_with_hash(after, block.hash());
    lemma_undo_list_at(after, height);
    assert forall|h: u64| h != height implies #[trigger] block_at(after, h) == block_at(kv, h) by {
        lemma_block_at(after, h);
        lemma_block_at(kv, h);
        assert(ledger.blocks.get(h) == ledger_of(kv).blocks.get(h));
    }
    assert forall|i: int| 0 <= i < txs.len() implies {
        let found = transaction_with_id(after, (#[trigger] txs[i]).id());
        let (h, hash, tx) = found->Ok_0->0;
        &&& found is Ok && found->Ok_0 is Some
        &&& h == height
        &&& hash == block.hash()
        &&& tx.id() == txs[i].id()
        &&& txs.contains(tx)
    } by {
        let id = txs[i].id();
        let list = ids(txs);
        assert(at_height(list, height)[i].0 == id);
        crate::chain::lemma_indexed_height(ledger_of(kv).tx_heights, list, height, id);
        assert(ledger.tx_heights.get(id) == Some(height));
        reveal(ledger_of);
        lemma_first_with_id(txs, id, i);
    }
}

} // verus!
