//! The key-value store underneath the ledger: six columns of byte strings, read by key, listed
//! in key order, and written in batches that take effect all at once.

use vstd::prelude::*;

use crate::bytes::{same_bytes, to_vec};
use crate::collections::{
    distinct_keys, has_key, inserted, lemma_inserted_distinct, lemma_inserted_other,
};

verus! {

/// A column of the store.
#[derive(Debug, Clone, Copy, PartialEq, Eq, Structural)]
pub enum Column {
    /// Unspent outputs by outpoint.
    Utxos,
    /// Single values, such as the latest height.
    Meta,
    /// Blocks by height.
    Blocks,
    /// Heights by block hash.
    BlockHashIndex,
    /// What each block spent, by height.
    Undo,
    /// Heights by transaction id.
    TxIndex,
}

/// The name of a column.
pub open spec fn column_name(c: Column) -> Seq<char> {
    match c {
        Column::Utxos => "utxos"@,
        Column::Meta => "meta"@,
        Column::Blocks => "blocks"@,
        Column::BlockHashIndex => "block_hash_index"@,
        Column::Undo => "undo"@,
        Column::TxIndex => "tx_index"@,
    }
}

impl Column {
    /// The name of the column.
    pub fn name(&self) -> (r: &'static str)
        ensures
            r@ == column_name(*self),
    {
        match self {
            Column::Utxos => "utxos",
            Column::Meta => "meta",
            Column::Blocks => "blocks",
            Column::BlockHashIndex => "block_hash_index",
            Column::Undo => "undo",
            Column::TxIndex => "tx_index",
        }
    }
}

/// What a store holds: a value for each key of each column.
pub type KvMap = Map<(Column, Seq<u8>), Seq<u8>>;

/// One write of a batch.
#[derive(Debug, Clone, PartialEq, Eq)]
pub enum KvOp {
    Put { column: Column, key: Vec<u8>, value: Vec<u8> },
    Delete { column: Column, key: Vec<u8> },
}

/// [`KvOp`] with its byte strings as sequences.
#[verifier::ext_equal]
pub enum KvOpView {
    Put { column: Column, key: Seq<u8>, value: Seq<u8> },
    Delete { column: Column, key: Seq<u8> },
}

impl View for KvOp {
    type V = KvOpView;

    open spec fn view(&self) -> KvOpView {
        match self {
            KvOp::Put { column, key, value } => KvOpView::Put {
                column: *column,
                key: key@,
                value: value@,
            },
            KvOp::Delete { column, key } => KvOpView::Delete { column: *column, key: key@ },
        }
    }
}

/// The views of a batch.
pub open spec fn op_views(ops: Seq<KvOp>) -> Seq<KvOpView> {
    ops.map_values(|op: KvOp| op@)
}

/// What one write makes of a store.
pub open spec fn after_op(kv: KvMap, op: KvOpView) -> KvMap {
    match op {
        KvOpView::Put { column, key, value } => kv.insert((column, key), value),
        KvOpView::Delete { column, key } => kv.remove((column, key)),
    }
}

/// What a batch makes of a store, each write in turn.
pub open spec fn after_ops(kv: KvMap, ops: Seq<KvOpView>) -> KvMap
    decreases ops.len(),
{
    if ops.len() == 0 {
        kv
    } else {
        after_op(after_ops(kv, ops.drop_last()), ops.last())
    }
}

/// One batch after another is both in a row.
pub proof fn lemma_after_ops_concat(kv: KvMap, a: Seq<KvOpView>, b: Seq<KvOpView>)
    ensures
        after_ops(kv, a + b) == after_ops(after_ops(kv, a), b),
    decreases b.len(),
{
    if b.len() == 0 {
        assert(a + b =~= a);
    } else {
        lemma_after_ops_concat(kv, a, b.drop_last());
        assert((a + b).drop_last() =~= a + b.drop_last());
        assert((a + b).last() == b.last());
    }
}

/// Byte strings in dictionary order.
pub open spec fn bytes_before(a: Seq<u8>, b: Seq<u8>) -> bool
    decreases a.len(),
{
    if b.len() == 0 {
        false
    } else if a.len() == 0 {
        true
    } else {
        a[0] < b[0] || (a[0] == b[0] && bytes_before(a.skip(1), b.skip(1)))
    }
}

/// Pairs of a list as sequences.
pub open spec fn pair_views(list: Seq<(Vec<u8>, Vec<u8>)>) -> Seq<(Seq<u8>, Seq<u8>)> {
    list.map_values(|p: (Vec<u8>, Vec<u8>)| (p.0@, p.1@))
}

/// The list goes up in key order.
pub open spec fn ascending(list: Seq<(Seq<u8>, Seq<u8>)>) -> bool {
    forall|i: int, j: int|
        0 <= i < j < list.len() ==> bytes_before((#[trigger] list[i]).0, (#[trigger] list[j]).0)
}

/// The list holds exactly what a column holds, in key order.
pub open spec fn lists_column(list: Seq<(Seq<u8>, Seq<u8>)>, kv: KvMap, column: Column) -> bool {
    &&& ascending(list)
    &&& forall|i: int|
        0 <= i < list.len() ==> kv.contains_key((column, (#[trigger] list[i]).0)) && kv[(
            column,
            list[i].0,
        )] == list[i].1
    &&& forall|k: Seq<u8>| #[trigger] kv.contains_key((column, k)) ==> has_key(list, k)
}

/// A value as a sequence.
pub open spec fn value_view(v: Option<Vec<u8>>) -> Option<Seq<u8>> {
    match v {
        Some(b) => Some(b@),
        None => None,
    }
}

/// A key-value store. Reading and writing may fail, with a text that says why; a batch that
/// fails has no effect.
pub trait KvStore: Sized {
    spec fn wf(&self) -> bool;

    /// What the store holds.
    spec fn kv(&self) -> KvMap;

    /// Nothing ever fails.
    spec fn reliable(&self) -> bool;

    /// The value of a key.
    fn get(&self, column: Column, key: &[u8]) -> (r: Result<Option<Vec<u8>>, String>)
        requires
            self.wf(),
        ensures
            match r {
                Ok(v) => value_view(v) == self.kv().get((column, key@)),
                Err(_) => !self.reliable(),
            },
    ;

    /// The value of a key, where failing to read is not to be recovered from.
    fn read(&self, column: Column, key: &[u8]) -> (r: Option<Vec<u8>>)
        requires
            self.wf(),
        ensures
            value_view(r) == self.kv().get((column, key@)),
    ;

    /// Everything in a column, in key order.
    fn entries(&self, column: Column) -> (r: Result<Vec<(Vec<u8>, Vec<u8>)>, String>)
        requires
            self.wf(),
        ensures
            match r {
                Ok(list) => lists_column(pair_views(list@), self.kv(), column),
                Err(_) => !self.reliable(),
            },
    ;

    /// Writes a batch, all or nothing.
    fn write(&mut self, ops: Vec<KvOp>) -> (r: Result<(), String>)
        requires
            old(self).wf(),
        ensures
            final(self).wf(),
            final(self).reliable() == old(self).reliable(),
            match r {
                Ok(_) => final(self).kv() == after_ops(old(self).kv(), op_views(ops@)),
                Err(_) => final(self).kv() == old(self).kv() && !old(self).reliable(),
            },
    ;
}

/// One value in memory.
#[derive(Debug)]
pub struct KvEntry {
    column: Column,
    key: Vec<u8>,
    value: Vec<u8>,
}

impl KvEntry {
    closed spec fn pair(&self) -> ((Column, Seq<u8>), Seq<u8>) {
        ((self.column, self.key@), self.value@)
    }
}

/// A key-value store in memory.
#[derive(Debug)]
pub struct MemoryKv {
    items: Vec<KvEntry>,
}

impl MemoryKv {
    closed spec fn pairs(&self) -> Seq<((Column, Seq<u8>), Seq<u8>)> {
        self.items@.map_values(|e: KvEntry| e.pair())
    }

    closed spec fn contents(&self) -> KvMap {
        inserted(Map::empty(), self.pairs())
    }

    /// An empty store.
    pub fn new() -> (r: MemoryKv)
        ensures
            r.wf(),
            r.kv() == Map::<(Column, Seq<u8>), Seq<u8>>::empty(),
    {
        let r = MemoryKv { items: Vec::new() };
        assert(r.pairs() =~= Seq::empty());
        r
    }

    /// Where a key stands, if it is there.
    fn position(&self, column: Column, key: &[u8]) -> (r: Option<usize>)
        requires
            self.wf(),
        ensures
            match r {
                Some(i) => i < self.items@.len() && self.pairs()[i as int].0 == (column, key@)
                    && self.kv().contains_key((column, key@)) && self.kv()[(column, key@)]
                    == self.items@[i as int].value@,
                None => !self.kv().contains_key((column, key@)) && !has_key(
                    self.pairs(),
                    (column, key@),
                ),
            },
    {
        let mut i: usize = 0;
        while i < self.items.len()
            invariant
                self.wf(),
                i <= self.items@.len(),
                forall|j: int| 0 <= j < i ==> (#[trigger] self.pairs()[j]).0 != (column, key@),
            decreases self.items.len() - i,
        {
            let item = &self.items[i];
            if item.column == column && same_bytes(item.key.as_slice(), key) {
                proof {
                    lemma_inserted_distinct(Map::empty(), self.pairs(), i as int);
                }
                return Some(i);
            }
            assert(self.pairs()[i as int].0 != (column, key@));
            i += 1;
        }
        proof {
            lemma_inserted_other(Map::empty(), self.pairs(), (column, key@));
        }
        None
    }

    fn delete(&mut self, column: Column, key: &[u8])
        requires
            old(self).wf(),
        ensures
            final(self).wf(),
            final(self).kv() == old(self).kv().remove((column, key@)),
            !has_key(final(self).pairs(), (column, key@)),
    {
        let ghost k0 = (column, key@);
        let ghost before = self.pairs();
        match self.position(column, key) {
            Some(i) => {
                self.items.swap_remove(i);
                let ghost after = self.pairs();
                proof {
                    let n = before.len() - 1;
                    assert forall|a: int| 0 <= a < after.len() implies #[trigger] after[a]
                        == before[if a == i {
                        n
                    } else {
                        a
                    }] by {}
                    lemma_swap_removed(before, after, i as int);
                }
            },
            None => {
                assert(self.kv().remove(k0) =~= self.kv());
            },
        }
    }

    fn put(&mut self, column: Column, key: Vec<u8>, value: Vec<u8>)
        requires
            old(self).wf(),
        ensures
            final(self).wf(),
            final(self).kv() == old(self).kv().insert((column, key@), value@),
    {
        let ghost k0 = (column, key@);
        let ghost v0 = value@;
        let ghost start = self.kv();
        self.delete(column, key.as_slice());
        let ghost kept = self.pairs();
        self.items.push(KvEntry { column, key, value });
        proof {
            let now = self.pairs();
            assert(now =~= kept.push((k0, v0)));
            assert(now.drop_last() =~= kept);
            assert(distinct_keys(now)) by {
                assert forall|i: int, j: int| 0 <= i < j < now.len() implies (
                #[trigger] now[i]).0 != (#[trigger] now[j]).0 by {
                    assert(kept[i].0 != k0);
                }
            }
            assert(start.remove(k0).insert(k0, v0) =~= start.insert(k0, v0));
        }
    }

    /// Adds a pair to a list that goes up in key order, at its place.
    fn place(list: &mut Vec<(Vec<u8>, Vec<u8>)>, key: Vec<u8>, value: Vec<u8>)
        requires
            ascending(pair_views(old(list)@)),
            !has_key(pair_views(old(list)@), key@),
        ensures
            ascending(pair_views(final(list)@)),
            exists|at: int|
                0 <= at <= old(list)@.len() && pair_views(final(list)@) == #[trigger] pair_views(
                    old(list)@,
                ).insert(at, (key@, value@)),
    {
        let ghost before = pair_views(list@);
        let ghost new = (key@, value@);
        let mut at: usize = 0;
        while at < list.len() && bytes_less(list[at].0.as_slice(), key.as_slice())
            invariant
                at <= list@.len(),
                forall|j: int|
                    0 <= j < at ==> bytes_before((#[trigger] pair_views(list@)[j]).0, key@),
            decreases list.len() - at,
        {
            at += 1;
        }
        proof {
            assert forall|j: int| at <= j < before.len() implies bytes_before(
                key@,
                (#[trigger] before[j]).0,
            ) by {
                lemma_bytes_before_total(before[at as int].0, key@);
                if at < j {
                    assert(bytes_before(before[at as int].0, before[j].0));
                    lemma_bytes_before_transitive(key@, before[at as int].0, before[j].0);
                }
            }
        }
        list.insert(at, (key, value));
        proof {
            let after = pair_views(list@);
            assert(after =~= before.insert(at as int, new));
            assert forall|i: int, j: int| 0 <= i < j < after.len() implies bytes_before(
                (#[trigger] after[i]).0,
                (#[trigger] after[j]).0,
            ) by {
                let a = if i < at {
                    i
                } else {
                    i - 1
                };
                let b = if j < at {
                    j
                } else {
                    j - 1
                };
                if i != at && j != at {
                    assert(after[i] == before[a]);
                    assert(after[j] == before[b]);
                    assert(bytes_before(before[a].0, before[b].0));
                } else if i == at {
                    assert(after[j] == before[b]);
                } else {
                    assert(after[i] == before[a]);
                }
            }
        }
    }
}

/// Taking one pair out of a list of distinct keys, the last one taking its place, takes its key
/// out of the map.
proof fn lemma_swap_removed(
    before: Seq<((Column, Seq<u8>), Seq<u8>)>,
    after: Seq<((Column, Seq<u8>), Seq<u8>)>,
    i: int,
)
    requires
        distinct_keys(before),
        0 <= i < before.len(),
        after.len() == before.len() - 1,
        forall|a: int|
            0 <= a < after.len() ==> #[trigger] after[a] == before[if a == i {
                before.len() - 1
            } else {
                a
            }],
    ensures
        distinct_keys(after),
        !has_key(after, before[i].0),
        inserted(Map::empty(), after) == inserted(Map::empty(), before).remove(before[i].0),
{
    let n = before.len() - 1;
    let k0 = before[i].0;
    let source = |a: int|
        if a == i {
            n
        } else {
            a
        };
    assert(distinct_keys(after)) by {
        assert forall|a: int, b: int| 0 <= a < b < after.len() implies (
        #[trigger] after[a]).0 != (#[trigger] after[b]).0 by {
            assert(before[source(a)].0 != before[source(b)].0);
        }
    }
    assert forall|a: int| 0 <= a < after.len() implies (#[trigger] after[a]).0 != k0 by {
        assert(before[source(a)].0 != before[i].0);
    }
    let m = inserted(Map::<(Column, Seq<u8>), Seq<u8>>::empty(), before);
    let w = inserted(Map::<(Column, Seq<u8>), Seq<u8>>::empty(), after);
    assert forall|k: (Column, Seq<u8>)| #[trigger] w.get(k) == m.remove(k0).get(k) by {
        if has_key(after, k) {
            let a = choose|a: int| 0 <= a < after.len() && (#[trigger] after[a]).0 == k;
            lemma_inserted_distinct(Map::empty(), after, a);
            lemma_inserted_distinct(Map::empty(), before, source(a));
        } else {
            lemma_inserted_other(Map::empty(), after, k);
            if k != k0 {
                if has_key(before, k) {
                    let x = choose|x: int| 0 <= x < before.len() && (#[trigger] before[x]).0 == k;
                    let a = if x == n {
                        i
                    } else {
                        x
                    };
                    assert(after[a] == before[x]);
                }
                lemma_inserted_other(Map::empty(), before, k);
            }
        }
    }
    crate::state::lemma_same_gets(w, m.remove(k0));
}

/// Of two different byte strings, one comes first.
pub proof fn lemma_bytes_before_total(a: Seq<u8>, b: Seq<u8>)
    ensures
        a == b || bytes_before(a, b) || bytes_before(b, a),
    decreases a.len(),
{
    if a.len() == 0 || b.len() == 0 {
        if a.len() == 0 && b.len() == 0 {
            assert(a =~= b);
        }
    } else if a[0] == b[0] {
        lemma_bytes_before_total(a.skip(1), b.skip(1));
        if a.skip(1) == b.skip(1) {
            assert(a =~= seq![a[0]] + a.skip(1));
            assert(b =~= seq![b[0]] + b.skip(1));
        }
    }
}

pub proof fn lemma_bytes_before_transitive(a: Seq<u8>, b: Seq<u8>, c: Seq<u8>)
    requires
        bytes_before(a, b),
        bytes_before(b, c),
    ensures
        bytes_before(a, c),
    decreases a.len(),
{
    if a.len() > 0 && b.len() > 0 && c.len() > 0 && a[0] == b[0] && b[0] == c[0] {
        lemma_bytes_before_transitive(a.skip(1), b.skip(1), c.skip(1));
    }
}

/// Nothing comes before itself.
pub proof fn lemma_bytes_before_irreflexive(a: Seq<u8>)
    ensures
        !bytes_before(a, a),
    decreases a.len(),
{
    if a.len() > 0 {
        lemma_bytes_before_irreflexive(a.skip(1));
    }
}

/// Whether `a` comes before `b` in dictionary order.
fn bytes_less(a: &[u8], b: &[u8]) -> (r: bool)
    ensures
        r == bytes_before(a@, b@),
{
    let mut i: usize = 0;
    assert(a@.skip(0) =~= a@);
    assert(b@.skip(0) =~= b@);
    while i < a.len() && i < b.len()
        invariant
            i <= a@.len(),
            i <= b@.len(),
            bytes_before(a@, b@) == bytes_before(a@.skip(i as int), b@.skip(i as int)),
        decreases a.len() - i,
    {
        assert(a@.skip(i as int).skip(1) =~= a@.skip(i + 1));
        assert(b@.skip(i as int).skip(1) =~= b@.skip(i + 1));
        if a[i] < b[i] {
            return true;
        }
        if a[i] > b[i] {
            return false;
        }
        i += 1;
    }
    i < b.len()
}

impl KvStore for MemoryKv {
    closed spec fn wf(&self) -> bool {
        distinct_keys(self.pairs())
    }

    closed spec fn kv(&self) -> KvMap {
        self.contents()
    }

    open spec fn reliable(&self) -> bool {
        true
    }

    fn get(&self, column: Column, key: &[u8]) -> (r: Result<Option<Vec<u8>>, String>) {
        Ok(self.read(column, key))
    }

    fn read(&self, column: Column, key: &[u8]) -> (r: Option<Vec<u8>>) {
        match self.position(column, key) {
            Some(i) => Some(to_vec(self.items[i].value.as_slice())),
            None => None,
        }
    }

    fn entries(&self, column: Column) -> (r: Result<Vec<(Vec<u8>, Vec<u8>)>, String>) {
        let mut list: Vec<(Vec<u8>, Vec<u8>)> = Vec::new();
        let mut i: usize = 0;
        assert(pair_views(list@) =~= Seq::<(Seq<u8>, Seq<u8>)>::empty());
        while i < self.items.len()
            invariant
                self.wf(),
                i <= self.items@.len(),
                ascending(pair_views(list@)),
                forall|a: int|
                    0 <= a < pair_views(list@).len() ==> lists_item(
                        self.pairs().take(i as int),
                        column,
                        #[trigger] pair_views(list@)[a],
                    ),
                forall|x: int|
                    0 <= x < i && (#[trigger] self.pairs()[x]).0.0 == column ==> has_key(
                        pair_views(list@),
                        self.pairs()[x].0.1,
                    ),
            decreases self.items.len() - i,
        {
            let item = &self.items[i];
            let ghost pairs = self.pairs();
            let ghost before = pair_views(list@);
            let ghost seen = pairs.take(i as int);
            let ghost more = pairs.take(i + 1);
            proof {
                assert forall|p: (Seq<u8>, Seq<u8>)| #[trigger]
                    lists_item(seen, column, p) implies lists_item(more, column, p) by {
                    let x = choose|x: int|
                        0 <= x < seen.len() && #[trigger] seen[x] == ((column, p.0), p.1);
                    assert(more[x] == ((column, p.0), p.1));
                }
            }
            if item.column == column {
                let key = to_vec(item.key.as_slice());
                let value = to_vec(item.value.as_slice());
                let ghost new = (key@, value@);
                proof {
                    assert(pairs[i as int] == ((column, new.0), new.1));
                    assert(more[i as int] == ((column, new.0), new.1));
                    if has_key(before, new.0) {
                        let a = choose|a: int|
                            0 <= a < before.len() && (#[trigger] before[a]).0 == new.0;
                        assert(lists_item(seen, column, before[a]));
                        let x = choose|x: int|
                            0 <= x < seen.len() && #[trigger] seen[x] == (
                                (column, before[a].0),
                                before[a].1,
                            );
                        assert(pairs[x].0 != pairs[i as int].0);
                    }
                }
                MemoryKv::place(&mut list, key, value);
                proof {
                    let after = pair_views(list@);
                    let at = choose|at: int|
                        0 <= at <= before.len() && after == #[trigger] before.insert(at, new);
                    assert forall|a: int| 0 <= a < after.len() implies lists_item(
                        more,
                        column,
                        #[trigger] after[a],
                    ) by {
                        if a < at {
                            assert(after[a] == before[a]);
                        } else if a > at {
                            assert(after[a] == before[a - 1]);
                        } else {
                            assert(after[a] == new);
                        }
                    }
                    assert forall|x: int|
                        0 <= x < i + 1 && (#[trigger] pairs[x]).0.0 == column implies has_key(
                        after,
                        pairs[x].0.1,
                    ) by {
                        if x == i {
                            assert(after[at] == new);
                        } else {
                            let a = choose|a: int|
                                0 <= a < before.len() && (#[trigger] before[a]).0
                                    == pairs[x].0.1;
                            if a < at {
                                assert(after[a] == before[a]);
                            } else {
                                assert(after[a + 1] == before[a]);
                            }
                        }
                    }
                }
            }
            i += 1;
        }
        proof {
            let pairs = self.pairs();
            let views = pair_views(list@);
            assert(pairs.take(i as int) =~= pairs);
            assert forall|a: int| 0 <= a < views.len() implies self.kv().contains_key(
                (column, (#[trigger] views[a]).0),
            ) && self.kv()[(column, views[a].0)] == views[a].1 by {
                assert(lists_item(pairs, column, views[a]));
                let x = choose|x: int|
                    0 <= x < pairs.len() && #[trigger] pairs[x] == (
                        (column, views[a].0),
                        views[a].1,
                    );
                lemma_inserted_distinct(Map::empty(), pairs, x);
            }
            assert forall|k: Seq<u8>| #[trigger] self.kv().contains_key((column, k)) implies has_key(
                views,
                k,
            ) by {
                if !has_key(pairs, (column, k)) {
                    lemma_inserted_other(Map::empty(), pairs, (column, k));
                    assert(self.kv().get((column, k)) is None);
                }
                let x = choose|x: int| 0 <= x < pairs.len() && (#[trigger] pairs[x]).0 == (column, k);
                assert(pairs[x].0.0 == column);
            }
        }
        Ok(list)
    }

    fn write(&mut self, ops: Vec<KvOp>) -> (r: Result<(), String>) {
        let ghost start = self.kv();
        let ghost views = op_views(ops@);
        let mut i: usize = 0;
        assert(views.take(0) =~= Seq::<KvOpView>::empty());
        while i < ops.len()
            invariant
                self.wf(),
                i <= ops@.len(),
                views == op_views(ops@),
                self.kv() == after_ops(start, views.take(i as int)),
            decreases ops.len() - i,
        {
            proof {
                assert(views.take(i + 1).drop_last() =~= views.take(i as int));
                assert(views.take(i + 1).last() == ops@[i as int]@);
            }
            match &ops[i] {
                KvOp::Put { column, key, value } => {
                    self.put(*column, to_vec(key.as_slice()), to_vec(value.as_slice()));
                },
                KvOp::Delete { column, key } => {
                    self.delete(*column, key.as_slice());
                },
            }
            i += 1;
        }
        assert(views.take(views.len() as int) =~= views);
        Ok(())
    }
}

/// `p` is a key and value of `column` among the pairs.
spec fn lists_item(
    pairs: Seq<((Column, Seq<u8>), Seq<u8>)>,
    column: Column,
    p: (Seq<u8>, Seq<u8>),
) -> bool {
    exists|x: int| 0 <= x < pairs.len() && #[trigger] pairs[x] == ((column, p.0), p.1)
}

/// A column has one list: two lists of what it holds, in key order, are the same.
pub proof fn column_list_is_unique(
    a: Seq<(Seq<u8>, Seq<u8>)>,
    b: Seq<(Seq<u8>, Seq<u8>)>,
    kv: KvMap,
    column: Column,
)
    requires
        lists_column(a, kv, column),
        lists_column(b, kv, column),
    ensures
        a == b,
{
    lemma_sorted_prefix(a, b, kv, column, a.len() as int);
    lemma_sorted_prefix(b, a, kv, column, b.len() as int);
    assert(a =~= b);
}

proof fn lemma_sorted_prefix(
    a: Seq<(Seq<u8>, Seq<u8>)>,
    b: Seq<(Seq<u8>, Seq<u8>)>,
    kv: KvMap,
    column: Column,
    n: int,
)
    requires
        lists_column(a, kv, column),
        lists_column(b, kv, column),
        0 <= n <= a.len(),
    ensures
        n <= b.len(),
        forall|i: int| 0 <= i < n ==> a[i] == b[i],
    decreases n,
{
    if n > 0 {
        lemma_sorted_prefix(a, b, kv, column, n - 1);
        let k = a[n - 1].0;
        assert(kv.contains_key((column, k)));
        let j = choose|j: int| 0 <= j < b.len() && (#[trigger] b[j]).0 == k;
        if j < n - 1 {
            assert(a[j] == b[j]);
            assert(bytes_before(a[j].0, a[n - 1].0));
            lemma_bytes_before_irreflexive(k);
        }
        if j > n - 1 {
            let other = b[n - 1].0;
            assert(kv.contains_key((column, other)));
            let i = choose|i: int| 0 <= i < a.len() && (#[trigger] a[i]).0 == other;
            assert(bytes_before(b[n - 1].0, b[j].0));
            if i < n - 1 {
                assert(a[i] == b[i]);
                assert(bytes_before(b[i].0, b[n - 1].0));
                lemma_bytes_before_irreflexive(other);
            } else if i == n - 1 {
                lemma_bytes_before_irreflexive(k);
            } else {
                assert(bytes_before(a[n - 1].0, a[i].0));
                lemma_bytes_before_transitive(k, other, k);
                lemma_bytes_before_irreflexive(k);
            }
        }
        assert(j == n - 1);
    }
}

/// The last write to a key counts: after a batch a store holds what was put there last, nothing
/// where it was deleted last, and what it held before where no write touches the key.
pub proof fn last_write_counts(kv: KvMap, ops: Seq<KvOpView>, column: Column, key: Seq<u8>, i: int)
    requires
        -1 <= i < ops.len(),
        i >= 0 ==> touches(ops[i], column, key),
        forall|k: int| i < k < ops.len() ==> !touches(#[trigger] ops[k], column, key),
    ensures
        after_ops(kv, ops).get((column, key)) == if i < 0 {
            kv.get((column, key))
        } else {
            match ops[i] {
                KvOpView::Put { column: _, key: _, value } => Some(value),
                KvOpView::Delete { column: _, key: _ } => None,
            }
        },
    decreases ops.len(),
{
    if ops.len() > 0 {
        let front = ops.drop_last();
        if i < ops.len() - 1 {
            assert(!touches(ops[ops.len() - 1], column, key));
            assert forall|k: int| i < k < front.len() implies !touches(
                #[trigger] front[k],
                column,
                key,
            ) by {
                assert(front[k] == ops[k]);
            }
            last_write_counts(kv, front, column, key, i);
        }
    }
}

/// A write is to this key.
pub open spec fn touches(op: KvOpView, column: Column, key: Seq<u8>) -> bool {
    match op {
        KvOpView::Put { column: c, key: k, value: _ } => c == column && k == key,
        KvOpView::Delete { column: c, key: k } => c == column && k == key,
    }
}

/// Different columns have different names.
pub proof fn columns_have_different_names(a: Column, b: Column)
    ensures
        column_name(a) == column_name(b) ==> a == b,
{
    reveal_strlit("utxos");
    reveal_strlit("meta");
    reveal_strlit("blocks");
    reveal_strlit("block_hash_index");
    reveal_strlit("undo");
    reveal_strlit("tx_index");
    assert(column_name(a).len() == column_name(b).len() ==> a == b || column_name(a).len() == 4);
    assert("meta"@[0] == 'm' && "undo"@[0] == 'u');
}

/// Byte strings are ordered as words in a dictionary: where they first differ the smaller byte
/// comes first, and a string comes before those that it is the start of.
pub proof fn first_different_byte_decides(
    start: Seq<u8>,
    x: u8,
    y: u8,
    a: Seq<u8>,
    b: Seq<u8>,
)
    ensures
        x < y ==> bytes_before(start + seq![x] + a, start + seq![y] + b),
        x < y ==> !bytes_before(start + seq![y] + b, start + seq![x] + a),
        bytes_before(start, start + seq![x] + a),
        !bytes_before(start + seq![x] + a, start),
        !bytes_before(start, start),
    decreases start.len(),
{
    let (p, q) = (start + seq![x] + a, start + seq![y] + b);
    if start.len() > 0 {
        let rest = start.skip(1);
        first_different_byte_decides(rest, x, y, a, b);
        assert(p.skip(1) =~= rest + seq![x] + a);
        assert(q.skip(1) =~= rest + seq![y] + b);
    }
}

} // verus!
