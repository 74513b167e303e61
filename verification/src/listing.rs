//! What can be read off the store: whose outputs are listed, and what the root over them tells.

use vstd::prelude::*;

use crate::bytes::{be_value, lemma_be_value_bytes, lemma_pow256};
use crate::codec::decoded;
use crate::collections::has_key;
use crate::crypto::{digest, Address};
use crate::encoding::Canonical;
use crate::kv::{bytes_before, column_list_is_unique, lists_column, Column, KvMap};
use crate::storage::{
    entry_decodes, entry_shaped, flattened, ledger_of, outpoint_of_key, owned_in, sound,
    stored_output, utxo_key,
};
use crate::types::{OutPoint, TxOut};

verus! {

/// There is an array of any 32 bytes.
pub(crate) proof fn lemma_array_of_32(s: Seq<u8>)
    requires
        s.len() == 32,
    ensures
        crate::bytes::array_of::<32>(s)@ == s,
{
    let a: [u8; 32] = [
        s[0], s[1], s[2], s[3], s[4], s[5], s[6], s[7],
        s[8], s[9], s[10], s[11], s[12], s[13], s[14], s[15],
        s[16], s[17], s[18], s[19], s[20], s[21], s[22], s[23],
        s[24], s[25], s[26], s[27], s[28], s[29], s[30], s[31],
    ];
    assert(a@ =~= s);
}

/// A key of an output is the key of the outpoint that it stands for.
proof fn lemma_key_of_outpoint(key: Seq<u8>)
    requires
        key.len() == 36,
    ensures
        utxo_key(outpoint_of_key(key)) == key,
{
    let tail = key.subrange(32, 36);
    lemma_array_of_32(key.subrange(0, 32));
    lemma_be_value_bytes(tail);
    lemma_pow256();
    assert(be_value(tail) <= u32::MAX);
    assert(utxo_key(outpoint_of_key(key)) =~= key);
}

/// An output is listed for its owner, and only for them, exactly where it is unspent; and it is
/// listed once.
pub proof fn listed_outputs_are_the_owned_ones(
    kv: KvMap,
    list: Seq<(Seq<u8>, Seq<u8>)>,
    owner: Address,
)
    requires
        sound(kv),
        lists_column(list, kv, Column::Utxos),
    ensures
        owned_in(list, owner) is Ok,
        forall|op: OutPoint, output: TxOut| #[trigger]
            owned_in(list, owner)->Ok_0.contains((op, output)) <==> ledger_of(kv).utxos.get(op)
                == Some(output) && output.pubkey_hash == owner,
        forall|i: int, j: int|
            0 <= i < j < owned_in(list, owner)->Ok_0.len() ==> (#[trigger] owned_in(
                list,
                owner,
            )->Ok_0[i]).0 != (#[trigger] owned_in(list, owner)->Ok_0[j]).0,
{
    assert forall|i: int| 0 <= i < list.len() implies entry_shaped(
        Column::Utxos,
        (#[trigger] list[i]).0,
        list[i].1,
    ) && entry_decodes(Column::Utxos, list[i].1) by {
        assert(kv.contains_key((Column::Utxos, list[i].0)));
    }
    assert forall|i: int, j: int| 0 <= i < j < list.len() implies (#[trigger] list[i]).0 != (
    #[trigger] list[j]).0 by {
        assert(bytes_before(list[i].0, list[j].0));
        crate::kv::lemma_bytes_before_irreflexive(list[i].0);
    }
    lemma_owned(list, owner);
    let found = owned_in(list, owner)->Ok_0;
    reveal(ledger_of);
    assert forall|op: OutPoint, output: TxOut| #[trigger] found.contains((op, output))
        <==> ledger_of(kv).utxos.get(op) == Some(output) && output.pubkey_hash == owner by {
        if found.contains((op, output)) {
            let i = choose|i: int|
                0 <= i < list.len() && outpoint_of_key((#[trigger] list[i]).0) == op
                    && stored_output(list[i].1) == output && output.pubkey_hash == owner;
            lemma_key_of_outpoint(list[i].0);
            assert(kv.contains_key((Column::Utxos, utxo_key(op))));
        }
        if ledger_of(kv).utxos.get(op) == Some(output) && output.pubkey_hash == owner {
            let key = utxo_key(op);
            assert(kv.contains_key((Column::Utxos, key)));
            assert(has_key(list, key));
            let i = choose|i: int| 0 <= i < list.len() && (#[trigger] list[i]).0 == key;
            lemma_key_of_outpoint(key);
            crate::storage::lemma_utxo_key_injective(outpoint_of_key(key), op);
            assert(outpoint_of_key(list[i].0) == op && stored_output(list[i].1) == output);
        }
    }
}

proof fn lemma_owned(list: Seq<(Seq<u8>, Seq<u8>)>, owner: Address)
    requires
        forall|i: int|
            0 <= i < list.len() ==> entry_shaped(
                Column::Utxos,
                (#[trigger] list[i]).0,
                list[i].1,
            ) && entry_decodes(Column::Utxos, list[i].1),
        forall|i: int, j: int|
            0 <= i < j < list.len() ==> (#[trigger] list[i]).0 != (#[trigger] list[j]).0,
    ensures
        owned_in(list, owner) is Ok,
        forall|op: OutPoint, output: TxOut| #[trigger]
            owned_in(list, owner)->Ok_0.contains((op, output)) <==> exists|i: int|
                0 <= i < list.len() && outpoint_of_key((#[trigger] list[i]).0) == op
                    && stored_output(list[i].1) == output && output.pubkey_hash == owner,
        forall|i: int, j: int|
            0 <= i < j < owned_in(list, owner)->Ok_0.len() ==> (#[trigger] owned_in(
                list,
                owner,
            )->Ok_0[i]).0 != (#[trigger] owned_in(list, owner)->Ok_0[j]).0,
    decreases list.len(),
{
    if list.len() > 0 {
        let front = list.drop_last();
        let last = list.last();
        assert forall|i: int| 0 <= i < front.len() implies entry_shaped(
            Column::Utxos,
            (#[trigger] front[i]).0,
            front[i].1,
        ) && entry_decodes(Column::Utxos, front[i].1) by {
            assert(front[i] == list[i]);
        }
        assert forall|i: int, j: int| 0 <= i < j < front.len() implies (#[trigger] front[i]).0 != (
        #[trigger] front[j]).0 by {
            assert(front[i] == list[i] && front[j] == list[j]);
        }
        lemma_owned(front, owner);
        let before = owned_in(front, owner)->Ok_0;
        let found = owned_in(list, owner)->Ok_0;
        let output = stored_output(last.1);
        let op = outpoint_of_key(last.0);
        assert(list[list.len() - 1] == last);
        assert(entry_decodes(Column::Utxos, list[list.len() - 1].1));
        assert forall|i: int| 0 <= i < before.len() implies (#[trigger] before[i]).0 != op by {
            assert(before.contains((before[i].0, before[i].1)));
            let (o, x) = before[i];
            let k = choose|k: int|
                0 <= k < front.len() && outpoint_of_key((#[trigger] front[k]).0) == o
                    && stored_output(front[k].1) == x && x.pubkey_hash == owner;
            assert(front[k] == list[k]);
            assert(list[k].0 != list[list.len() - 1].0);
            lemma_key_of_outpoint(front[k].0);
            lemma_key_of_outpoint(last.0);
        }
        assert forall|o: OutPoint, x: TxOut| #[trigger] found.contains((o, x)) <==> exists|i: int|
            0 <= i < list.len() && outpoint_of_key((#[trigger] list[i]).0) == o && stored_output(
                list[i].1,
            ) == x && x.pubkey_hash == owner by {
            if found.contains((o, x)) {
                let n = choose|n: int| 0 <= n < found.len() && found[n] == (o, x);
                if n < before.len() {
                    assert(before[n] == (o, x));
                    assert(before.contains((o, x)));
                    let k = choose|k: int|
                        0 <= k < front.len() && outpoint_of_key((#[trigger] front[k]).0) == o
                            && stored_output(front[k].1) == x && x.pubkey_hash == owner;
                    assert(front[k] == list[k]);
                } else {
                    assert(outpoint_of_key(list[list.len() - 1].0) == o);
                }
            }
            if exists|i: int|
                0 <= i < list.len() && outpoint_of_key((#[trigger] list[i]).0) == o
                    && stored_output(list[i].1) == x && x.pubkey_hash == owner {
                let k = choose|i: int|
                    0 <= i < list.len() && outpoint_of_key((#[trigger] list[i]).0) == o
                        && stored_output(list[i].1) == x && x.pubkey_hash == owner;
                if k < front.len() {
                    assert(front[k] == list[k]);
                    assert(before.contains((o, x)));
                    let n = choose|n: int| 0 <= n < before.len() && before[n] == (o, x);
                    assert(found[n] == (o, x));
                } else {
                    assert(found.last() == (o, x));
                    assert(found[found.len() - 1] == (o, x));
                }
            }
        }
        assert forall|i: int, j: int| 0 <= i < j < found.len() implies (#[trigger] found[i]).0 != (
        #[trigger] found[j]).0 by {
            assert(found[i] == before[i]);
            if j < before.len() {
                assert(found[j] == before[j]);
            }
        }
    }
}

/// Two stores with the same unspent outputs have the same root over them, whatever else they hold
/// and however they came to it.
pub proof fn same_outputs_have_one_root(
    a: KvMap,
    b: KvMap,
    list_a: Seq<(Seq<u8>, Seq<u8>)>,
    list_b: Seq<(Seq<u8>, Seq<u8>)>,
)
    requires
        sound(a),
        sound(b),
        ledger_of(a).utxos == ledger_of(b).utxos,
        lists_column(list_a, a, Column::Utxos),
        lists_column(list_b, b, Column::Utxos),
    ensures
        digest(flattened(list_a)) == digest(flattened(list_b)),
{
    assert(lists_column(list_a, b, Column::Utxos)) by {
        assert forall|i: int| 0 <= i < list_a.len() implies b.contains_key(
            (Column::Utxos, (#[trigger] list_a[i]).0),
        ) && b[(Column::Utxos, list_a[i].0)] == list_a[i].1 by {
            lemma_same_entry(a, b, list_a[i].0);
        }
        assert forall|k: Seq<u8>| #[trigger] b.contains_key((Column::Utxos, k)) implies has_key(
            list_a,
            k,
        ) by {
            lemma_same_entry(b, a, k);
        }
    }
    column_list_is_unique(list_a, list_b, b, Column::Utxos);
}

proof fn lemma_same_entry(a: KvMap, b: KvMap, key: Seq<u8>)
    requires
        sound(a),
        sound(b),
        ledger_of(a).utxos == ledger_of(b).utxos,
        a.contains_key((Column::Utxos, key)),
    ensures
        b.contains_key((Column::Utxos, key)),
        a[(Column::Utxos, key)] == b[(Column::Utxos, key)],
{
    reveal(ledger_of);
    let op = outpoint_of_key(key);
    lemma_key_of_outpoint(key);
    assert(ledger_of(a).utxos.contains_key(op));
    assert(ledger_of(b).utxos.contains_key(op));
    let (x, y) = (a[(Column::Utxos, key)], b[(Column::Utxos, key)]);
    assert(ledger_of(a).utxos[op] == ledger_of(b).utxos[op]);
    assert(entry_decodes(Column::Utxos, x) && entry_decodes(Column::Utxos, y));
    assert(utxo_key(op) == key);
    assert(ledger_of(a).utxos[op] == stored_output(x));
    assert(ledger_of(b).utxos[op] == stored_output(y));
    let m = stored_output(x);
    assert(decoded::<TxOut>(x) == Some(m) && decoded::<TxOut>(y) == Some(m));
    assert(<TxOut as Canonical>::bytes(m) == x && <TxOut as Canonical>::bytes(m) == y);
}

/// An output takes up 36 bytes.
proof fn lemma_output_len(m: TxOut)
    ensures
        <TxOut as Canonical>::bytes(m).len() == 36,
{
    crate::bytes::lemma_le_bytes_len(m.amount as nat, 16);
}

/// Entries whose keys and values have fixed lengths can be told apart in a row.
proof fn lemma_flattened_injective(a: Seq<(Seq<u8>, Seq<u8>)>, b: Seq<(Seq<u8>, Seq<u8>)>)
    requires
        forall|i: int|
            0 <= i < a.len() ==> (#[trigger] a[i]).0.len() == 36 && a[i].1.len() == 36,
        forall|i: int|
            0 <= i < b.len() ==> (#[trigger] b[i]).0.len() == 36 && b[i].1.len() == 36,
        flattened(a) == flattened(b),
    ensures
        a == b,
    decreases a.len(),
{
    lemma_flattened_len(a);
    lemma_flattened_len(b);
    if a.len() > 0 {
        let (x, y) = (a.last(), b.last());
        let (s, t) = (flattened(a.drop_last()), flattened(b.drop_last()));
        let all = flattened(a);
        let n = all.len() as int;
        assert(a[a.len() - 1] == x && b[b.len() - 1] == y);
        assert forall|i: int| 0 <= i < a.drop_last().len() implies (
        #[trigger] a.drop_last()[i]).0.len() == 36 && a.drop_last()[i].1.len() == 36 by {
            assert(a.drop_last()[i] == a[i]);
        }
        assert forall|i: int| 0 <= i < b.drop_last().len() implies (
        #[trigger] b.drop_last()[i]).0.len() == 36 && b.drop_last()[i].1.len() == 36 by {
            assert(b.drop_last()[i] == b[i]);
        }
        lemma_flattened_len(a.drop_last());
        lemma_flattened_len(b.drop_last());
        assert(all == s + x.0 + x.1 && all == t + y.0 + y.1);
        assert(all.subrange(0, n - 72) =~= s && all.subrange(0, n - 72) =~= t);
        assert(all.subrange(n - 72, n - 36) =~= x.0 && all.subrange(n - 72, n - 36) =~= y.0);
        assert(all.subrange(n - 36, n) =~= x.1 && all.subrange(n - 36, n) =~= y.1);
        lemma_flattened_injective(a.drop_last(), b.drop_last());
        assert(a.drop_last().push(x) =~= a);
        assert(b.drop_last().push(y) =~= b);
    } else {
        assert(a =~= b);
    }
}

proof fn lemma_flattened_len(a: Seq<(Seq<u8>, Seq<u8>)>)
    requires
        forall|i: int|
            0 <= i < a.len() ==> (#[trigger] a[i]).0.len() == 36 && a[i].1.len() == 36,
    ensures
        flattened(a).len() == 72 * a.len(),
    decreases a.len(),
{
    if a.len() > 0 {
        assert(a[a.len() - 1] == a.last());
        assert forall|i: int| 0 <= i < a.drop_last().len() implies (
        #[trigger] a.drop_last()[i]).0.len() == 36 && a.drop_last()[i].1.len() == 36 by {
            assert(a.drop_last()[i] == a[i]);
        }
        lemma_flattened_len(a.drop_last());
    }
}

/// Two stores with the same root over their unspent outputs have the same unspent outputs, unless
/// two different byte strings have the same hash.
pub proof fn root_tells_ledgers_apart(
    a: KvMap,
    b: KvMap,
    list_a: Seq<(Seq<u8>, Seq<u8>)>,
    list_b: Seq<(Seq<u8>, Seq<u8>)>,
)
    requires
        sound(a),
        sound(b),
        lists_column(list_a, a, Column::Utxos),
        lists_column(list_b, b, Column::Utxos),
        digest(flattened(list_a)) == digest(flattened(list_b)),
    ensures
        ledger_of(a).utxos == ledger_of(b).utxos || exists|x: Seq<u8>, y: Seq<u8>|
            x != y && #[trigger] digest(x) == #[trigger] digest(y),
{
    if flattened(list_a) == flattened(list_b) {
        lemma_entries_have_36_bytes(a, list_a);
        lemma_entries_have_36_bytes(b, list_b);
        lemma_flattened_injective(list_a, list_b);
        reveal(ledger_of);
        assert forall|op: OutPoint| #[trigger]
            ledger_of(a).utxos.get(op) == ledger_of(b).utxos.get(op) by {
            let key = utxo_key(op);
            if a.contains_key((Column::Utxos, key)) {
                assert(has_key(list_a, key));
                let i = choose|i: int| 0 <= i < list_a.len() && (#[trigger] list_a[i]).0 == key;
                assert(list_b[i].0 == key);
            }
            if b.contains_key((Column::Utxos, key)) {
                assert(has_key(list_b, key));
                let i = choose|i: int| 0 <= i < list_b.len() && (#[trigger] list_b[i]).0 == key;
                assert(list_a[i].0 == key);
            }
        }
        crate::state::lemma_same_gets(ledger_of(a).utxos, ledger_of(b).utxos);
    }
}

proof fn lemma_entries_have_36_bytes(kv: KvMap, list: Seq<(Seq<u8>, Seq<u8>)>)
    requires
        sound(kv),
        lists_column(list, kv, Column::Utxos),
    ensures
        forall|i: int|
            0 <= i < list.len() ==> (#[trigger] list[i]).0.len() == 36 && list[i].1.len() == 36,
{
    assert forall|i: int| 0 <= i < list.len() implies (#[trigger] list[i]).0.len() == 36
        && list[i].1.len() == 36 by {
        assert(kv.contains_key((Column::Utxos, list[i].0)));
        assert(entry_shaped(Column::Utxos, list[i].0, list[i].1));
        assert(entry_decodes(Column::Utxos, list[i].1));
        let m = stored_output(list[i].1);
        assert(<TxOut as Canonical>::bytes(m) == list[i].1);
        lemma_output_len(m);
    }
}

/// The outputs of an owner are listed in the order of their keys: by the transaction's id, and by
/// their number within it.
pub proof fn outputs_are_listed_in_key_order(
    kv: KvMap,
    list: Seq<(Seq<u8>, Seq<u8>)>,
    owner: Address,
    i: int,
    j: int,
)
    requires
        sound(kv),
        lists_column(list, kv, Column::Utxos),
        owned_in(list, owner) is Ok,
        0 <= i < j < owned_in(list, owner)->Ok_0.len(),
    ensures
        bytes_before(
            utxo_key(owned_in(list, owner)->Ok_0[i].0),
            utxo_key(owned_in(list, owner)->Ok_0[j].0),
        ),
{
    let places = lemma_owned_places(list, owner);
    let (a, b) = (places[i], places[j]);
    lemma_entries_have_36_bytes(kv, list);
    lemma_key_of_outpoint(list[a].0);
    lemma_key_of_outpoint(list[b].0);
    assert(bytes_before(list[a].0, list[b].0));
}

/// Where in the list the outputs of an owner stand.
proof fn lemma_owned_places(list: Seq<(Seq<u8>, Seq<u8>)>, owner: Address) -> (places: Seq<int>)
    requires
        owned_in(list, owner) is Ok,
    ensures
        places.len() == owned_in(list, owner)->Ok_0.len(),
        forall|k: int|
            0 <= k < places.len() ==> 0 <= #[trigger] places[k] < list.len() && outpoint_of_key(
                list[places[k]].0,
            ) == owned_in(list, owner)->Ok_0[k].0,
        forall|k: int, l: int|
            0 <= k < l < places.len() ==> #[trigger] places[k] < #[trigger] places[l],
    decreases list.len(),
{
    if list.len() == 0 {
        Seq::empty()
    } else {
        let front = lemma_owned_places(list.drop_last(), owner);
        let before = owned_in(list.drop_last(), owner)->Ok_0;
        if owned_in(list, owner)->Ok_0.len() == before.len() {
            front
        } else {
            front.push(list.len() - 1)
        }
    }
}

} // verus!
