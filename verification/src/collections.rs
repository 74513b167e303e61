//! Small maps and sets over vectors, in which no key occurs twice.

use vstd::prelude::*;

use crate::bytes::same_array;
use crate::types::OutPoint;

verus! {

/// A key that can be compared.
pub trait Key: Copy {
    /// Whether two keys are the same.
    fn same(&self, other: &Self) -> (r: bool)
        ensures
            r == (*self == *other),
    ;
}

impl Key for OutPoint {
    fn same(&self, other: &Self) -> (r: bool) {
        self.vout == other.vout && same_array(&self.txid, &other.txid)
    }
}

impl Key for [u8; 32] {
    fn same(&self, other: &Self) -> (r: bool) {
        same_array(self, other)
    }
}

/// The list of pairs, each inserted in turn: a later pair replaces an earlier one of its key.
pub open spec fn inserted<K, V>(m: Map<K, V>, pairs: Seq<(K, V)>) -> Map<K, V>
    decreases pairs.len(),
{
    if pairs.len() == 0 {
        m
    } else {
        inserted(m, pairs.drop_last()).insert(pairs.last().0, pairs.last().1)
    }
}

/// `k` is the key of one of the pairs.
pub open spec fn has_key<K, V>(pairs: Seq<(K, V)>, k: K) -> bool {
    exists|i: int| 0 <= i < pairs.len() && (#[trigger] pairs[i]).0 == k
}

/// No two pairs have the same key.
pub open spec fn distinct_keys<K, V>(pairs: Seq<(K, V)>) -> bool {
    forall|i: int, j: int|
        0 <= i < j < pairs.len() ==> (#[trigger] pairs[i]).0 != (#[trigger] pairs[j]).0
}

/// Inserting pairs changes a key only if one of them has it.
pub proof fn lemma_inserted_other<K, V>(m: Map<K, V>, pairs: Seq<(K, V)>, k: K)
    requires
        !has_key(pairs, k),
    ensures
        inserted(m, pairs).get(k) == m.get(k),
    decreases pairs.len(),
{
    if pairs.len() > 0 {
        assert(pairs[pairs.len() - 1].0 != k);
        assert forall|i: int| 0 <= i < pairs.drop_last().len() implies (
        #[trigger] pairs.drop_last()[i]).0 != k by {
            assert(pairs[i].0 != k);
        }
        lemma_inserted_other(m, pairs.drop_last(), k);
    }
}

/// What pairs make of a key does not depend on the map they are inserted into.
pub proof fn lemma_inserted_key<K, V>(m1: Map<K, V>, m2: Map<K, V>, pairs: Seq<(K, V)>, k: K)
    requires
        has_key(pairs, k),
    ensures
        inserted(m1, pairs).get(k) == inserted(m2, pairs).get(k),
        inserted(m1, pairs).contains_key(k),
    decreases pairs.len(),
{
    let last = pairs.len() - 1;
    if pairs[last].0 != k {
        let i = choose|i: int| 0 <= i < pairs.len() && (#[trigger] pairs[i]).0 == k;
        assert(pairs.drop_last()[i].0 == k);
        lemma_inserted_key(m1, m2, pairs.drop_last(), k);
    }
}

/// Inserting pairs with distinct keys gives each key the value of its pair.
pub proof fn lemma_inserted_distinct<K, V>(m: Map<K, V>, pairs: Seq<(K, V)>, i: int)
    requires
        distinct_keys(pairs),
        0 <= i < pairs.len(),
    ensures
        inserted(m, pairs).contains_key(pairs[i].0),
        inserted(m, pairs)[pairs[i].0] == pairs[i].1,
    decreases pairs.len(),
{
    let front = pairs.drop_last();
    if i < pairs.len() - 1 {
        assert(distinct_keys(front)) by {
            assert forall|a: int, b: int| 0 <= a < b < front.len() implies (
            #[trigger] front[a]).0 != (#[trigger] front[b]).0 by {
                assert(pairs[a].0 != pairs[b].0);
            }
        }
        lemma_inserted_distinct(m, front, i);
        assert(pairs[i].0 != pairs[pairs.len() - 1].0);
    }
}

/// Inserting one list of pairs after another is inserting both in a row.
pub proof fn lemma_inserted_concat<K, V>(m: Map<K, V>, a: Seq<(K, V)>, b: Seq<(K, V)>)
    ensures
        inserted(m, a + b) == inserted(inserted(m, a), b),
    decreases b.len(),
{
    if b.len() == 0 {
        assert(a + b =~= a);
    } else {
        lemma_inserted_concat(m, a, b.drop_last());
        assert((a + b).drop_last() =~= a + b.drop_last());
        assert((a + b).last() == b.last());
    }
}

/// A map held as a list of pairs.
#[derive(Debug)]
pub struct VecMap<K, V> {
    entries: Vec<(K, V)>,
}

impl<K, V> View for VecMap<K, V> {
    type V = Map<K, V>;

    closed spec fn view(&self) -> Map<K, V> {
        inserted(Map::empty(), self.entries@)
    }
}

impl<K: Key, V> VecMap<K, V> {
    /// No key occurs twice.
    pub closed spec fn wf(&self) -> bool {
        distinct_keys(self.entries@)
    }

    /// The empty map.
    pub fn new() -> (r: Self)
        ensures
            r.wf(),
            r@ == Map::<K, V>::empty(),
    {
        VecMap { entries: Vec::new() }
    }

    /// Where `key` stands, if it is there.
    fn position(&self, key: &K) -> (r: Option<usize>)
        requires
            self.wf(),
        ensures
            match r {
                Some(i) => i < self.entries@.len() && self.entries@[i as int].0 == *key
                    && self@.contains_key(*key) && self@[*key] == self.entries@[i as int].1,
                None => !self@.contains_key(*key) && !has_key(self.entries@, *key),
            },
    {
        let mut i: usize = 0;
        while i < self.entries.len()
            invariant
                self.wf(),
                i <= self.entries@.len(),
                forall|j: int| 0 <= j < i ==> (#[trigger] self.entries@[j]).0 != *key,
            decreases self.entries.len() - i,
        {
            if self.entries[i].0.same(key) {
                proof {
                    lemma_inserted_distinct(Map::empty(), self.entries@, i as int);
                }
                return Some(i);
            }
            i += 1;
        }
        proof {
            lemma_inserted_other(Map::empty(), self.entries@, *key);
        }
        None
    }

    /// The value of `key`, if it is there.
    pub fn get(&self, key: &K) -> (r: Option<&V>)
        requires
            self.wf(),
        ensures
            match r {
                Some(v) => self@.contains_key(*key) && *v == self@[*key],
                None => !self@.contains_key(*key),
            },
    {
        match self.position(key) {
            Some(i) => Some(&self.entries[i].1),
            None => None,
        }
    }

    /// Whether `key` is there.
    pub fn contains_key(&self, key: &K) -> (r: bool)
        requires
            self.wf(),
        ensures
            r == self@.contains_key(*key),
    {
        match self.position(key) {
            Some(_) => true,
            None => false,
        }
    }

    /// Gives `key` the value `value`.
    pub fn insert(&mut self, key: K, value: V)
        requires
            old(self).wf(),
        ensures
            final(self).wf(),
            final(self)@ == old(self)@.insert(key, value),
    {
        let ghost before = self.entries@;
        self.remove(&key);
        let ghost kept = self.entries@;
        assert(!has_key(kept, key)) by {
            if has_key(kept, key) {
                lemma_inserted_key(Map::empty(), Map::empty(), kept, key);
            }
        }
        self.entries.push((key, value));
        assert(self.entries@.drop_last() =~= kept);
        assert(distinct_keys(self.entries@)) by {
            assert forall|i: int, j: int| 0 <= i < j < self.entries@.len() implies (
            #[trigger] self.entries@[i]).0 != (#[trigger] self.entries@[j]).0 by {
                assert(kept[i].0 != key);
            }
        }
        assert(self@ =~= inserted(Map::empty(), before).insert(key, value));
    }

    /// Takes `key` out.
    pub fn remove(&mut self, key: &K) -> (r: Option<V>)
        requires
            old(self).wf(),
        ensures
            final(self).wf(),
            final(self)@ == old(self)@.remove(*key),
            r == old(self)@.get(*key),
    {
        match self.position(key) {
            Some(i) => {
                let ghost before = self.entries@;
                let removed = self.entries.swap_remove(i);
                let ghost after = self.entries@;
                proof {
                    let n = before.len() - 1;
                    assert(distinct_keys(after)) by {
                        assert forall|a: int, b: int| 0 <= a < b < after.len() implies (
                        #[trigger] after[a]).0 != (#[trigger] after[b]).0 by {
                            let x = if a == i {
                                n
                            } else {
                                a
                            };
                            let y = if b == i {
                                n
                            } else {
                                b
                            };
                            assert(after[a] == before[x]);
                            assert(after[b] == before[y]);
                            assert(before[x].0 != before[y].0);
                        }
                    }
                    let m = inserted(Map::<K, V>::empty(), before);
                    let w = inserted(Map::<K, V>::empty(), after);
                    assert forall|k: K| #[trigger] w.get(k) == m.remove(*key).get(k) by {
                        if has_key(after, k) {
                            let a = choose|a: int|
                                0 <= a < after.len() && (#[trigger] after[a]).0 == k;
                            let x = if a == i {
                                n
                            } else {
                                a
                            };
                            assert(after[a] == before[x]);
                            assert(before[x].0 != before[i as int].0);
                            lemma_inserted_distinct(Map::empty(), after, a);
                            lemma_inserted_distinct(Map::empty(), before, x);
                        } else {
                            lemma_inserted_other(Map::empty(), after, k);
                            if k != *key {
                                if has_key(before, k) {
                                    let x = choose|x: int|
                                        0 <= x < before.len() && (#[trigger] before[x]).0 == k;
                                    let a = if x == n {
                                        i as int
                                    } else {
                                        x
                                    };
                                    assert(after[a] == before[x]);
                                }
                                lemma_inserted_other(Map::empty(), before, k);
                            }
                        }
                    }
                    assert(w =~= m.remove(*key)) by {
                        assert forall|k: K| w.contains_key(k) == #[trigger] m.remove(
                            *key,
                        ).contains_key(k) by {
                            assert(w.get(k) == m.remove(*key).get(k));
                        }
                        assert forall|k: K| #[trigger] w.contains_key(k) implies w[k] == m.remove(
                            *key,
                        )[k] by {
                            assert(w.get(k) == m.remove(*key).get(k));
                        }
                    }
                }
                Some(removed.1)
            },
            None => {
                assert(self@.remove(*key) =~= self@);
                None
            },
        }
    }

    /// Takes every key of a list out.
    pub fn remove_all(&mut self, keys: &Vec<K>)
        requires
            old(self).wf(),
        ensures
            final(self).wf(),
            final(self)@ == old(self)@.remove_keys(keys@.to_set()),
    {
        let ghost start = self@;
        let mut i: usize = 0;
        proof {
            lemma_empty_to_set(keys@);
            assert(start.remove_keys(keys@.take(0).to_set()) =~= start);
        }
        while i < keys.len()
            invariant
                i <= keys@.len(),
                self.wf(),
                self@ == start.remove_keys(keys@.take(i as int).to_set()),
            decreases keys.len() - i,
        {
            self.remove(&keys[i]);
            proof {
                lemma_to_set_step(keys@, i as int);
                assert(self@ =~= start.remove_keys(keys@.take(i + 1).to_set()));
            }
            i += 1;
        }
        assert(keys@.take(keys@.len() as int) =~= keys@);
    }

    /// How many keys there are.
    pub fn len(&self) -> (r: usize)
        requires
            self.wf(),
        ensures
            r == self@.dom().len(),
            self@.dom().finite(),
    {
        proof {
            lemma_inserted_len(self.entries@);
        }
        self.entries.len()
    }

    /// The pairs, in no particular order.
    pub fn into_entries(self) -> (r: Vec<(K, V)>)
        requires
            self.wf(),
        ensures
            distinct_keys(r@),
            self@ == inserted(Map::<K, V>::empty(), r@),
    {
        self.entries
    }
}

impl<K: Key, V: Copy> VecMap<K, V> {
    /// Puts every pair of a list in, in order.
    pub fn insert_all(&mut self, pairs: &Vec<(K, V)>)
        requires
            old(self).wf(),
        ensures
            final(self).wf(),
            final(self)@ == inserted(old(self)@, pairs@),
    {
        let ghost start = self@;
        let mut i: usize = 0;
        assert(pairs@.take(0) =~= Seq::<(K, V)>::empty());
        while i < pairs.len()
            invariant
                i <= pairs@.len(),
                self.wf(),
                self@ == inserted(start, pairs@.take(i as int)),
            decreases pairs.len() - i,
        {
            self.insert(pairs[i].0, pairs[i].1);
            assert(pairs@.take(i + 1).drop_last() =~= pairs@.take(i as int));
            i += 1;
        }
        assert(pairs@.take(pairs@.len() as int) =~= pairs@);
    }
}

/// The items of a list, one more at a time.
proof fn lemma_to_set_step<K>(items: Seq<K>, i: int)
    requires
        0 <= i < items.len(),
    ensures
        items.take(i + 1).to_set() == items.take(i).to_set().insert(items[i]),
{
    let longer = items.take(i + 1);
    let shorter = items.take(i);
    assert forall|k: K| #[trigger]
        longer.to_set().contains(k) == shorter.to_set().insert(items[i]).contains(k) by {
        if longer.contains(k) {
            let j = choose|j: int| 0 <= j < longer.len() && longer[j] == k;
            if j < i {
                assert(shorter[j] == k);
            }
        }
        if shorter.contains(k) {
            let j = choose|j: int| 0 <= j < shorter.len() && shorter[j] == k;
            assert(longer[j] == k);
        }
        if k == items[i] {
            assert(longer[i] == k);
        }
    }
    assert(longer.to_set() =~= shorter.to_set().insert(items[i]));
}

proof fn lemma_empty_to_set<K>(items: Seq<K>)
    ensures
        items.take(0).to_set() == Set::<K>::empty(),
{
    assert(items.take(0).to_set() =~= Set::<K>::empty());
}

/// As many keys as pairs, if the keys are distinct.
proof fn lemma_inserted_len<K, V>(pairs: Seq<(K, V)>)
    requires
        distinct_keys(pairs),
    ensures
        inserted(Map::<K, V>::empty(), pairs).dom().finite(),
        inserted(Map::<K, V>::empty(), pairs).dom().len() == pairs.len(),
    decreases pairs.len(),
{
    if pairs.len() > 0 {
        let front = pairs.drop_last();
        assert(distinct_keys(front)) by {
            assert forall|a: int, b: int| 0 <= a < b < front.len() implies (
            #[trigger] front[a]).0 != (#[trigger] front[b]).0 by {
                assert(pairs[a].0 != pairs[b].0);
            }
        }
        lemma_inserted_len(front);
        let k = pairs.last().0;
        assert(!has_key(front, k)) by {
            if has_key(front, k) {
                let i = choose|i: int| 0 <= i < front.len() && (#[trigger] front[i]).0 == k;
                assert(pairs[i].0 != pairs[pairs.len() - 1].0);
            }
        }
        lemma_inserted_other(Map::<K, V>::empty(), front, k);
        let m = inserted(Map::<K, V>::empty(), front);
        assert(!m.contains_key(k)) by {
            assert(m.get(k) == Map::<K, V>::empty().get(k));
        }
    }
}

/// A set held as a list.
#[derive(Debug)]
pub struct VecSet<K> {
    items: Vec<K>,
}

impl<K> View for VecSet<K> {
    type V = Set<K>;

    closed spec fn view(&self) -> Set<K> {
        self.items@.to_set()
    }
}

impl<K: Key> VecSet<K> {
    /// No item occurs twice.
    pub closed spec fn wf(&self) -> bool {
        self.items@.no_duplicates()
    }

    /// The empty set.
    pub fn new() -> (r: Self)
        ensures
            r.wf(),
            r@ == Set::<K>::empty(),
    {
        let r = VecSet { items: Vec::new() };
        assert(r@ =~= Set::<K>::empty());
        r
    }

    /// Whether `key` is there.
    pub fn contains(&self, key: &K) -> (r: bool)
        ensures
            r == self@.contains(*key),
    {
        let mut i: usize = 0;
        while i < self.items.len()
            invariant
                i <= self.items@.len(),
                forall|j: int| 0 <= j < i ==> self.items@[j] != *key,
            decreases self.items.len() - i,
        {
            if self.items[i].same(key) {
                assert(self.items@.contains(*key));
                return true;
            }
            i += 1;
        }
        false
    }

    /// Puts `key` in; says whether it was not there before.
    pub fn insert(&mut self, key: K) -> (r: bool)
        requires
            old(self).wf(),
        ensures
            final(self).wf(),
            final(self)@ == old(self)@.insert(key),
            r == !old(self)@.contains(key),
    {
        if self.contains(&key) {
            assert(self@.insert(key) =~= self@);
            return false;
        }
        let ghost before = self.items@;
        self.items.push(key);
        proof {
            assert(before.push(key).to_set() =~= before.to_set().insert(key)) by {
                assert forall|k: K| before.push(key).to_set().contains(k)
                    == before.to_set().insert(key).contains(k) by {
                    if before.contains(k) {
                        let i = choose|i: int| 0 <= i < before.len() && before[i] == k;
                        assert(before.push(key)[i] == k);
                    }
                    if k == key {
                        assert(before.push(key)[before.len() as int] == k);
                    }
                    if before.push(key).contains(k) && k != key {
                        let i = choose|i: int|
                            0 <= i < before.push(key).len() && before.push(key)[i] == k;
                        assert(before[i] == k);
                    }
                }
            }
            assert(before.push(key).no_duplicates()) by {
                assert(!before.contains(key));
                assert forall|i: int, j: int|
                    0 <= i < before.push(key).len() && 0 <= j < before.push(key).len() && i
                        != j implies before.push(key)[i] != before.push(key)[j] by {
                    if i == before.len() {
                        assert(before[j] != key);
                    } else if j == before.len() {
                        assert(before[i] != key);
                    }
                }
            }
        }
        true
    }

    /// Puts every item of a list in.
    pub fn insert_all(&mut self, items: &Vec<K>)
        requires
            old(self).wf(),
        ensures
            final(self).wf(),
            final(self)@ == old(self)@.union(items@.to_set()),
    {
        let ghost start = self@;
        let mut i: usize = 0;
        proof {
            lemma_empty_to_set(items@);
            assert(start.union(Set::empty()) =~= start);
        }
        while i < items.len()
            invariant
                i <= items@.len(),
                self.wf(),
                self@ == start.union(items@.take(i as int).to_set()),
            decreases items.len() - i,
        {
            self.insert(items[i]);
            proof {
                lemma_to_set_step(items@, i as int);
                assert(self@ =~= start.union(items@.take(i + 1).to_set()));
            }
            i += 1;
        }
        assert(items@.take(items@.len() as int) =~= items@);
    }

    /// The items, in no particular order.
    pub fn into_items(self) -> (r: Vec<K>)
        requires
            self.wf(),
        ensures
            r@.no_duplicates(),
            r@.to_set() == self@,
    {
        self.items
    }
}

} // verus!
