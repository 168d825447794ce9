//! A small map kept as rows in the order of their first insertion.

use vstd::prelude::*;

use crate::text::str_eq;
use crate::types::Period;

verus! {

/// A key of a [`Table`]: it stands for a mathematical value, and two keys can
/// be compared.
pub trait Key: Sized {
    /// What the key stands for.
    type Model;

    /// The value that the key stands for.
    spec fn model(&self) -> Self::Model;

    /// Returns whether two keys stand for the same value.
    fn same(&self, other: &Self) -> (r: bool)
        ensures
            r == (self.model() == other.model()),
    ;
}

impl Key for String {
    type Model = Seq<char>;

    open spec fn model(&self) -> Seq<char> {
        self@
    }

    fn same(&self, other: &Self) -> (r: bool) {
        str_eq(self.as_str(), other.as_str())
    }
}

impl Key for u64 {
    type Model = u64;

    open spec fn model(&self) -> u64 {
        *self
    }

    fn same(&self, other: &Self) -> (r: bool) {
        *self == *other
    }
}

impl Key for (String, Period) {
    type Model = (Seq<char>, Period);

    open spec fn model(&self) -> (Seq<char>, Period) {
        (self.0@, self.1)
    }

    fn same(&self, other: &Self) -> (r: bool) {
        self.1 == other.1 && str_eq(self.0.as_str(), other.0.as_str())
    }
}

/// A map from keys to values without duplicate keys.
pub struct Table<K: Key, V> {
    rows: Vec<(K, V)>,
}

/// Whether no two rows have the same key.
pub open spec fn unique_keys<K: Key, V>(rows: Seq<(K, V)>) -> bool {
    forall|i: int, j: int|
        0 <= i < j < rows.len() ==> #[trigger] rows[i].0.model() != #[trigger] rows[j].0.model()
}

/// The map that rows stand for.
pub open spec fn rows_map<K: Key, V>(rows: Seq<(K, V)>) -> Map<K::Model, V>
    decreases rows.len(),
{
    if rows.len() == 0 {
        Map::empty()
    } else {
        rows_map(rows.drop_last()).insert(rows.last().0.model(), rows.last().1)
    }
}

pub proof fn lemma_rows_map_get<K: Key, V>(rows: Seq<(K, V)>, i: int)
    requires
        unique_keys(rows),
        0 <= i < rows.len(),
    ensures
        rows_map(rows).dom().contains(rows[i].0.model()),
        rows_map(rows)[rows[i].0.model()] == rows[i].1,
    decreases rows.len(),
{
    if i < rows.len() - 1 {
        assert(unique_keys(rows.drop_last()));
        lemma_rows_map_get(rows.drop_last(), i);
        assert(rows[i].0.model() != rows.last().0.model());
    }
}

pub proof fn lemma_rows_map_dom<K: Key, V>(rows: Seq<(K, V)>, m: K::Model)
    ensures
        rows_map(rows).dom().contains(m) <==> exists|i: int|
            0 <= i < rows.len() && #[trigger] rows[i].0.model() == m,
    decreases rows.len(),
{
    if rows.len() > 0 {
        let init = rows.drop_last();
        lemma_rows_map_dom(init, m);
        if rows_map(init).dom().contains(m) {
            let i = choose|i: int| 0 <= i < init.len() && #[trigger] init[i].0.model() == m;
            assert(rows[i].0.model() == m);
        }
        if rows.last().0.model() == m {
            assert(rows[rows.len() - 1].0.model() == m);
        }
        if exists|i: int| 0 <= i < rows.len() && #[trigger] rows[i].0.model() == m {
            let i = choose|i: int| 0 <= i < rows.len() && #[trigger] rows[i].0.model() == m;
            if i < rows.len() - 1 {
                assert(init[i].0.model() == m);
            }
        }
    }
}

/// Two row lists with the same keys and values stand for the same map.
proof fn lemma_rows_map_ext<K: Key, V>(rows: Seq<(K, V)>, map: Map<K::Model, V>)
    requires
        unique_keys(rows),
        forall|i: int|
            0 <= i < rows.len() ==> map.dom().contains(#[trigger] rows[i].0.model())
                && map[rows[i].0.model()] == rows[i].1,
        forall|m: K::Model| #[trigger]
            map.dom().contains(m) ==> exists|i: int|
                0 <= i < rows.len() && #[trigger] rows[i].0.model() == m,
    ensures
        rows_map(rows) == map,
{
    assert forall|m: K::Model| rows_map(rows).dom().contains(m) == map.dom().contains(m) by {
        lemma_rows_map_dom(rows, m);
        if rows_map(rows).dom().contains(m) {
            let i = choose|i: int| 0 <= i < rows.len() && #[trigger] rows[i].0.model() == m;
            assert(map.dom().contains(rows[i].0.model()));
        }
    }
    assert forall|m: K::Model| rows_map(rows).dom().contains(m) implies rows_map(rows)[m]
        == map[m] by {
        lemma_rows_map_dom(rows, m);
        let i = choose|i: int| 0 <= i < rows.len() && #[trigger] rows[i].0.model() == m;
        lemma_rows_map_get(rows, i);
    }
    assert(rows_map(rows) =~= map);
}

/// A duplicate-free row list has as many rows as its map has keys.
pub proof fn lemma_rows_map_len<K: Key, V>(rows: Seq<(K, V)>)
    requires
        unique_keys(rows),
    ensures
        rows_map(rows).dom().finite(),
        rows_map(rows).dom().len() == rows.len(),
    decreases rows.len(),
{
    if rows.len() > 0 {
        let init = rows.drop_last();
        assert(unique_keys(init));
        lemma_rows_map_len(init);
        lemma_rows_map_dom(init, rows.last().0.model());
        if rows_map(init).dom().contains(rows.last().0.model()) {
            let i = choose|i: int|
                0 <= i < init.len() && #[trigger] init[i].0.model() == rows.last().0.model();
            assert(rows[i].0.model() != rows[rows.len() - 1].0.model());
        }
        assert(rows_map(rows).dom() =~= rows_map(init).dom().insert(rows.last().0.model()));
    }
}

impl<K: Key, V> View for Table<K, V> {
    type V = Map<K::Model, V>;

    closed spec fn view(&self) -> Map<K::Model, V> {
        rows_map(self.rows@)
    }
}

impl<K: Key, V> Table<K, V> {
    /// The rows in the order of their first insertion.
    pub closed spec fn rows(self) -> Seq<(K, V)> {
        self.rows@
    }

    /// No key occurs twice, and the map is that of the rows.
    pub open spec fn wf(self) -> bool {
        &&& unique_keys(self.rows())
        &&& self@ == rows_map(self.rows())
    }

    /// Creates an empty table.
    pub fn new() -> (r: Table<K, V>)
        ensures
            r.wf(),
            r.rows() == Seq::<(K, V)>::empty(),
            r@ == Map::<K::Model, V>::empty(),
    {
        Table { rows: Vec::new() }
    }

    /// Returns the number of rows.
    pub fn len(&self) -> (r: usize)
        ensures
            r == self.rows().len(),
            self.wf() ==> self@.dom().finite() && r == self@.dom().len(),
    {
        proof {
            if self.wf() {
                lemma_rows_map_len(self.rows@);
            }
        }
        self.rows.len()
    }

    /// Returns whether there are no rows.
    pub fn is_empty(&self) -> (r: bool)
        ensures
            r == (self.rows().len() == 0),
            self.wf() ==> r == (self@ == Map::<K::Model, V>::empty()),
    {
        proof {
            if self.wf() {
                lemma_rows_map_len(self.rows@);
                if self@ == Map::<K::Model, V>::empty() {
                    assert(self@.dom() =~= Set::empty());
                }
                if self.rows@.len() == 0 {
                    assert(self@ =~= Map::<K::Model, V>::empty());
                }
            }
        }
        self.rows.len() == 0
    }

    /// Returns row `i`.
    pub fn row(&self, i: usize) -> (r: &(K, V))
        requires
            i < self.rows().len(),
        ensures
            *r == self.rows()[i as int],
    {
        &self.rows[i]
    }

    fn position(&self, key: &K) -> (r: Option<usize>)
        requires
            self.wf(),
        ensures
            match r {
                Some(i) => i < self.rows@.len() && self.rows@[i as int].0.model() == key.model()
                    && self@.dom().contains(key.model()) && self@[key.model()]
                    == self.rows@[i as int].1,
                None => !self@.dom().contains(key.model()) && forall|i: int|
                    0 <= i < self.rows@.len() ==> #[trigger] self.rows@[i].0.model() != key.model(),
            },
    {
        let mut i: usize = 0;
        while i < self.rows.len()
            invariant
                self.wf(),
                i <= self.rows@.len(),
                forall|k: int|
                    0 <= k < i ==> #[trigger] self.rows@[k].0.model() != key.model(),
            decreases self.rows@.len() - i,
        {
            if self.rows[i].0.same(key) {
                proof {
                    lemma_rows_map_get(self.rows@, i as int);
                }
                return Some(i);
            }
            i = i + 1;
        }
        proof {
            lemma_rows_map_dom(self.rows@, key.model());
        }
        None
    }

    /// Returns the value of a key.
    pub fn get(&self, key: &K) -> (r: Option<&V>)
        requires
            self.wf(),
        ensures
            match r {
                Some(v) => self@.dom().contains(key.model()) && *v == self@[key.model()],
                None => !self@.dom().contains(key.model()),
            },
    {
        match self.position(key) {
            Some(i) => Some(&self.rows[i].1),
            None => None,
        }
    }

    /// Returns whether a key has a value.
    pub fn contains_key(&self, key: &K) -> (r: bool)
        requires
            self.wf(),
        ensures
            r == self@.dom().contains(key.model()),
    {
        self.position(key).is_some()
    }

    /// Gives a key a value, in place of the one it has.
    pub fn insert(&mut self, key: K, value: V)
        requires
            old(self).wf(),
        ensures
            final(self).wf(),
            final(self)@ == old(self)@.insert(key.model(), value),
            final(self).rows().len() == old(self).rows().len() + if old(self)@.dom().contains(
                key.model(),
            ) {
                0int
            } else {
                1int
            },
    {
        let ghost before = self.rows@;
        let ghost target = self@.insert(key.model(), value);
        let ghost m = key.model();
        match self.position(&key) {
            Some(i) => {
                self.rows.set(i, (key, value));
                let ghost after = self.rows@;
                proof {
                    assert(after == before.update(i as int, (key, value)));
                    assert forall|a: int, b: int| 0 <= a < b < after.len() implies #[trigger] after[a].0.model()
                        != #[trigger] after[b].0.model() by {
                        assert(before[a].0.model() != before[b].0.model());
                    }
                    lemma_replaced(before, after, i as int, target);
                }
            },
            None => {
                self.rows.push((key, value));
                proof {
                    assert(self.rows@.drop_last() =~= before);
                    assert forall|a: int, b: int|
                        0 <= a < b < self.rows@.len() implies #[trigger] self.rows@[a].0.model()
                        != #[trigger] self.rows@[b].0.model() by {
                        if b < before.len() {
                            assert(before[a].0.model() != before[b].0.model());
                        } else {
                            assert(before[a].0.model() != m);
                        }
                    }
                }
            },
        }
    }

    /// Removes a key and returns the value it had.
    pub fn remove(&mut self, key: &K) -> (r: Option<V>)
        requires
            old(self).wf(),
        ensures
            final(self).wf(),
            final(self)@ == old(self)@.remove(key.model()),
            match r {
                Some(v) => old(self)@.dom().contains(key.model()) && v == old(self)@[key.model()],
                None => !old(self)@.dom().contains(key.model()),
            },
    {
        let ghost before = self.rows@;
        let ghost target = self@.remove(key.model());
        match self.position(key) {
            Some(i) => {
                let (_, v) = self.rows.remove(i);
                proof {
                    let after = self.rows@;
                    assert forall|a: int, b: int| 0 <= a < b < after.len() implies #[trigger] after[a].0.model()
                        != #[trigger] after[b].0.model() by {
                        let x = if a < i { a } else { a + 1 };
                        let y = if b < i { b } else { b + 1 };
                        assert(before[x].0.model() != before[y].0.model());
                    }
                    lemma_removed(before, after, i as int, target);
                }
                Some(v)
            },
            None => {
                assert(target =~= self@);
                None
            },
        }
    }
}

proof fn lemma_replaced<K: Key, V>(
    before: Seq<(K, V)>,
    after: Seq<(K, V)>,
    i: int,
    target: Map<K::Model, V>,
)
    requires
        unique_keys(before),
        unique_keys(after),
        0 <= i < before.len(),
        after.len() == before.len(),
        after == before.update(i, after[i]),
        after[i].0.model() == before[i].0.model(),
        target == rows_map(before).insert(after[i].0.model(), after[i].1),
    ensures
        rows_map(after) == target,
{
    assert forall|k: int| 0 <= k < after.len() implies target.dom().contains(
        #[trigger] after[k].0.model(),
    ) && target[after[k].0.model()] == after[k].1 by {
        lemma_rows_map_get(before, k);
        if k != i {
            if k < i {
                assert(before[k].0.model() != before[i].0.model());
            } else {
                assert(before[i].0.model() != before[k].0.model());
            }
        }
    }
    assert forall|m: K::Model| #[trigger] target.dom().contains(m) implies exists|k: int|
        0 <= k < after.len() && #[trigger] after[k].0.model() == m by {
        if m == after[i].0.model() {
        } else {
            lemma_rows_map_dom(before, m);
            let k = choose|k: int| 0 <= k < before.len() && #[trigger] before[k].0.model() == m;
            assert(after[k].0.model() == m);
        }
    }
    lemma_rows_map_ext(after, target);
}

proof fn lemma_removed<K: Key, V>(
    before: Seq<(K, V)>,
    after: Seq<(K, V)>,
    i: int,
    target: Map<K::Model, V>,
)
    requires
        unique_keys(before),
        unique_keys(after),
        0 <= i < before.len(),
        after == before.remove(i),
        target == rows_map(before).remove(before[i].0.model()),
    ensures
        rows_map(after) == target,
{
    assert forall|k: int| 0 <= k < after.len() implies target.dom().contains(
        #[trigger] after[k].0.model(),
    ) && target[after[k].0.model()] == after[k].1 by {
        let x = if k < i { k } else { k + 1 };
        lemma_rows_map_get(before, x);
        if x < i {
            assert(before[x].0.model() != before[i].0.model());
        } else {
            assert(before[i].0.model() != before[x].0.model());
        }
    }
    assert forall|m: K::Model| #[trigger] target.dom().contains(m) implies exists|k: int|
        0 <= k < after.len() && #[trigger] after[k].0.model() == m by {
        lemma_rows_map_dom(before, m);
        let x = choose|x: int| 0 <= x < before.len() && #[trigger] before[x].0.model() == m;
        let k = if x < i { x } else { x - 1 };
        assert(after[k].0.model() == m);
    }
    lemma_rows_map_ext(after, target);
}

} // verus!
