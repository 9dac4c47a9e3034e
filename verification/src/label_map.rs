//! A map keyed by label text that remembers the order of insertion.

use crate::text;
use vstd::prelude::*;

verus! {

/// The texts of a sequence, each once, in the order of their first occurrence.
pub open spec fn distinct(labels: Seq<Seq<char>>) -> Seq<Seq<char>>
    decreases labels.len(),
{
    if labels.len() == 0 {
        Seq::empty()
    } else {
        let before = distinct(labels.drop_last());
        if before.contains(labels.last()) {
            before
        } else {
            before.push(labels.last())
        }
    }
}

/// The distinct texts are those of the sequence, none twice.
pub proof fn lemma_distinct(labels: Seq<Seq<char>>)
    ensures
        distinct(labels).no_duplicates(),
        forall|l: Seq<char>| #[trigger] distinct(labels).contains(l) <==> labels.contains(l),
    decreases labels.len(),
{
    if labels.len() > 0 {
        let rest = labels.drop_last();
        let before = distinct(rest);
        lemma_distinct(rest);
        assert forall|l: Seq<char>| #[trigger] distinct(labels).contains(l) <==> labels.contains(
            l,
        ) by {
            if labels.contains(l) {
                let i = labels.index_of(l);
                assert(labels[i] == l);
                if i < rest.len() {
                    assert(rest[i] == l);
                    assert(before.contains(l));
                }
            }
            if rest.contains(l) {
                let i = rest.index_of(l);
                assert(labels[i] == l);
            }
            if before.contains(l) {
                let i = before.index_of(l);
                assert(distinct(labels)[i] == l);
            }
            if distinct(labels).contains(l) && !before.contains(l) {
                let i = distinct(labels).index_of(l);
                assert(distinct(labels)[i] == l);
                if i < before.len() {
                    assert(before[i] == l);
                }
                assert(labels[labels.len() - 1] == l);
            }
            if l == labels.last() && !before.contains(l) {
                assert(distinct(labels)[before.len() as int] == l);
            }
        }
    }
}

/// What one more text adds to the distinct ones.
pub proof fn lemma_distinct_push(labels: Seq<Seq<char>>, label: Seq<char>)
    ensures
        distinct(labels.push(label)) == if labels.contains(label) {
            distinct(labels)
        } else {
            distinct(labels).push(label)
        },
        forall|l: Seq<char>| #[trigger]
            labels.push(label).contains(l) <==> labels.contains(l) || l == label,
{
    lemma_distinct(labels);
    assert(labels.push(label).drop_last() =~= labels);
    assert forall|l: Seq<char>| #[trigger] labels.push(label).contains(l) <==> labels.contains(l)
        || l == label by {
        if labels.contains(l) {
            assert(labels.push(label)[labels.index_of(l)] == l);
        }
        if l == label {
            assert(labels.push(label)[labels.len() as int] == l);
        }
        if labels.push(label).contains(l) {
            let i = labels.push(label).index_of(l);
            assert(labels.push(label)[i] == l);
            if i < labels.len() {
                assert(labels[i] == l);
            }
        }
    }
}

/// What each label maps to, where the value at a position belongs to the label
/// at that position. Where a label stands more than once, its last value counts.
pub open spec fn table<V>(labels: Seq<Seq<char>>, values: Seq<V>) -> Map<Seq<char>, V>
    decreases labels.len(),
{
    if labels.len() == 0 {
        Map::empty()
    } else {
        table(labels.drop_last(), values.drop_last()).insert(labels.last(), values.last())
    }
}

/// A table has the labels as its keys, and each label maps to the value at the
/// last position of the label.
pub proof fn law_table_holds_last<V>(labels: Seq<Seq<char>>, values: Seq<V>)
    requires
        labels.len() == values.len(),
    ensures
        forall|l: Seq<char>| #[trigger]
            table(labels, values).contains_key(l) <==> labels.contains(l),
        forall|i: int|
            0 <= i < labels.len() && !labels.skip(i + 1).contains(labels[i]) ==> table(
                labels,
                values,
            )[#[trigger] labels[i]] == values[i],
    decreases labels.len(),
{
    if labels.len() > 0 {
        let rest = labels.drop_last();
        law_table_holds_last(rest, values.drop_last());
        assert(rest.push(labels.last()) =~= labels);
        lemma_distinct_push(rest, labels.last());
        assert forall|i: int|
            0 <= i < labels.len() && !labels.skip(i + 1).contains(labels[i]) implies table(
            labels,
            values,
        )[#[trigger] labels[i]] == values[i] by {
            if i < rest.len() {
                let after = labels.skip(i + 1);
                assert(after[after.len() - 1] == labels.last());
                assert(labels[i] != labels.last());
                assert(rest[i] == labels[i]);
                if rest.skip(i + 1).contains(rest[i]) {
                    let j = rest.skip(i + 1).index_of(rest[i]);
                    assert(after[j] == rest[i]);
                }
            }
        }
    }
}

/// A map from text to `V`. Each key occurs once, and keys keep the order in
/// which they were first inserted.
#[derive(Debug)]
pub struct LabelMap<V> {
    entries: Vec<(String, V)>,
}

impl<V> LabelMap<V> {
    /// The keys, in the order of their first insertion.
    pub closed spec fn keys(self) -> Seq<Seq<char>> {
        self.entries@.map_values(|e: (String, V)| e.0@)
    }

    /// What each key maps to.
    pub closed spec fn view(&self) -> Map<Seq<char>, V> {
        Map::new(
            |k: Seq<char>| self.keys().contains(k),
            |k: Seq<char>| self.entries@[self.keys().index_of(k)].1,
        )
    }

    #[verifier::type_invariant]
    spec fn keys_are_distinct(self) -> bool {
        self.keys().no_duplicates()
    }

    /// The map has a value exactly for its keys.
    pub broadcast proof fn lemma_keys(self, k: Seq<char>)
        ensures
            #[trigger] self@.contains_key(k) <==> self.keys().contains(k),
    {
    }

    /// An empty map.
    pub fn new() -> (r: Self)
        ensures
            r@ == Map::<Seq<char>, V>::empty(),
            r.keys() == Seq::<Seq<char>>::empty(),
    {
        let r = LabelMap { entries: Vec::new() };
        assert(r.keys() =~= Seq::<Seq<char>>::empty());
        assert(r@ =~= Map::<Seq<char>, V>::empty());
        r
    }

    /// The number of keys. Keys are distinct, and each has a value.
    pub fn len(&self) -> (r: usize)
        ensures
            r == self.keys().len(),
            self.keys().no_duplicates(),
            forall|k: Seq<char>| #[trigger] self@.contains_key(k) <==> self.keys().contains(k),
    {
        proof {
            use_type_invariant(self);
        }
        self.entries.len()
    }

    /// Whether the map holds nothing.
    pub fn is_empty(&self) -> (r: bool)
        ensures
            r == (self.keys().len() == 0),
    {
        self.entries.len() == 0
    }

    /// The key at position `i` of the insertion order.
    pub fn key_at(&self, i: usize) -> (r: &String)
        requires
            i < self.keys().len(),
        ensures
            r@ == self.keys()[i as int],
    {
        &self.entries[i].0
    }

    /// The value of the key at position `i` of the insertion order.
    pub fn value_at(&self, i: usize) -> (r: &V)
        requires
            i < self.keys().len(),
        ensures
            self@.contains_key(self.keys()[i as int]),
            *r == self@[self.keys()[i as int]],
    {
        proof {
            use_type_invariant(self);
            let k = self.keys()[i as int];
            assert(self.keys().contains(k));
            assert(self.keys()[self.keys().index_of(k)] == k);
        }
        &self.entries[i].1
    }

    /// A copy of the keys, in the insertion order.
    pub fn all_keys(&self) -> (r: Vec<String>)
        ensures
            text::texts(r@) == self.keys(),
    {
        let mut r: Vec<String> = Vec::new();
        let n: usize = self.entries.len();
        for i in 0..n
            invariant
                n == self.keys().len(),
                text::texts(r@) == self.keys().take(i as int),
        {
            let ghost before = r@;
            r.push(self.key_at(i).clone());
            assert(text::texts(r@) =~= text::texts(before).push(self.keys()[i as int]));
            assert(self.keys().take(i + 1) =~= self.keys().take(i as int).push(
                self.keys()[i as int],
            ));
        }
        assert(self.keys().take(n as int) =~= self.keys());
        r
    }

    /// The position of `key` in the insertion order.
    fn position(&self, key: &String) -> (r: Option<usize>)
        ensures
            match r {
                Some(i) => i < self.keys().len() && self.keys()[i as int] == key@,
                None => !self.keys().contains(key@),
            },
    {
        let n: usize = self.entries.len();
        for i in 0..n
            invariant
                n == self.entries@.len(),
                forall|j: int| 0 <= j < i ==> #[trigger] self.keys()[j] != key@,
        {
            if self.entries[i].0 == *key {
                return Some(i);
            }
        }
        None
    }

    /// Whether `key` has a value.
    pub fn contains_key(&self, key: &str) -> (r: bool)
        ensures
            r == self@.contains_key(key@),
    {
        let wanted = key.to_owned();
        match self.position(&wanted) {
            Some(i) => {
                assert(self.keys().contains(self.keys()[i as int]));
                true
            },
            None => false,
        }
    }

    /// The value of `key`, if it has one.
    pub fn get(&self, key: &str) -> (r: Option<&V>)
        ensures
            match r {
                Some(v) => self@.contains_key(key@) && *v == self@[key@],
                None => !self@.contains_key(key@),
            },
    {
        let wanted = key.to_owned();
        match self.position(&wanted) {
            Some(i) => Some(self.value_at(i)),
            None => None,
        }
    }

    /// Gives `key` the value `value`. A new key comes last; a known key keeps
    /// its place.
    pub fn insert(&mut self, key: String, value: V)
        ensures
            final(self)@ == old(self)@.insert(key@, value),
            final(self).keys() == if old(self)@.contains_key(key@) {
                old(self).keys()
            } else {
                old(self).keys().push(key@)
            },
    {
        proof {
            use_type_invariant(&*self);
        }
        let ghost before = *self;
        let found = self.position(&key);
        let mut entries: Vec<(String, V)> = Vec::new();
        core::mem::swap(&mut entries, &mut self.entries);
        let ghost name = key@;
        match found {
            Some(i) => {
                entries.set(i, (key, value));
            },
            None => {
                entries.push((key, value));
            },
        }
        let ghost after = LabelMap { entries };
        proof {
            if before.keys().contains(name) {
                assert(after.keys() =~= before.keys());
            } else {
                assert(after.keys() =~= before.keys().push(name));
            }
            assert(after.keys().no_duplicates());
            assert forall|k: Seq<char>| #[trigger] after.keys().contains(k) implies after@[k] == before@.insert(name, value)[k] by {
                let j = after.keys().index_of(k);
                assert(after.keys()[j] == k);
                if k != name {
                    assert(before.keys()[j] == k);
                    assert(before.keys().contains(k));
                    assert(before.keys()[before.keys().index_of(k)] == k);
                }
            }
            assert(after.keys().contains(name)) by {
                match found {
                    Some(i) => assert(after.keys()[i as int] == name),
                    None => assert(after.keys()[after.keys().len() - 1] == name),
                }
            }
            assert forall|k: Seq<char>| before.keys().contains(k) implies after.keys().contains(k) by {
                let j = before.keys().index_of(k);
                assert(before.keys()[j] == k);
                assert(after.keys()[j] == k);
            }
            assert forall|k: Seq<char>| after.keys().contains(k) implies k == name || before.keys().contains(k) by {
                let j = after.keys().index_of(k);
                assert(after.keys()[j] == k);
                if k != name {
                    assert(before.keys()[j] == k);
                }
            }
            assert(after@ =~= before@.insert(name, value));
        }
        self.entries = entries;
    }
}

impl<V: Clone> Clone for LabelMap<V> {
    /// A map with the same keys in the same order, each with a clone of its
    /// value.
    fn clone(&self) -> (r: Self)
        ensures
            r.keys() == self.keys(),
            forall|k: Seq<char>| #[trigger]
                self@.contains_key(k) ==> cloned(self@[k], r@[k]),
    {
        let n: usize = self.len();
        let mut r: LabelMap<V> = LabelMap::new();
        for i in 0..n
            invariant
                n == self.keys().len(),
                self.keys().no_duplicates(),
                forall|k: Seq<char>| #[trigger]
                    self@.contains_key(k) <==> self.keys().contains(k),
                r.keys() == self.keys().take(i as int),
                forall|j: int|
                    0 <= j < i ==> cloned(
                        self@[#[trigger] self.keys()[j]],
                        r@[self.keys()[j]],
                    ),
        {
            let key = self.key_at(i).clone();
            let value = self.value_at(i).clone();
            proof {
                r.lemma_keys(key@);
                if r.keys().contains(key@) {
                    let j = r.keys().index_of(key@);
                    assert(self.keys()[j] == self.keys()[i as int]);
                }
            }
            r.insert(key, value);
            assert(r.keys() =~= self.keys().take(i + 1));
        }
        assert(self.keys().take(n as int) =~= self.keys());
        proof {
            assert forall|k: Seq<char>| #[trigger] self@.contains_key(k) implies cloned(
                self@[k],
                r@[k],
            ) by {
                let j = self.keys().index_of(k);
                assert(self.keys()[j] == k);
            }
        }
        r
    }
}

/// The distinct texts stand in the order of their first occurrence: wherever a
/// text occurs, every text that comes before it among the distinct ones has
/// occurred already.
pub proof fn law_distinct_keeps_first_order(labels: Seq<Seq<char>>, i: int, j: int, q: int)
    requires
        0 <= i < j < distinct(labels).len(),
        0 <= q < labels.len(),
        labels[q] == distinct(labels)[j],
    ensures
        exists|p: int| 0 <= p < q && #[trigger] labels[p] == distinct(labels)[i],
    decreases labels.len(),
{
    let rest = labels.drop_last();
    let before = distinct(rest);
    lemma_distinct(rest);
    lemma_distinct(labels);
    let whole = distinct(labels);
    if j < before.len() {
        assert(before[j] == whole[j] && before[i] == whole[i]);
        if q < rest.len() {
            law_distinct_keeps_first_order(rest, i, j, q);
            let p = choose|p: int| 0 <= p < q && #[trigger] rest[p] == before[i];
            assert(labels[p] == whole[i]);
        } else {
            assert(before.contains(before[i]));
            let p = rest.index_of(before[i]);
            assert(labels[p] == whole[i]);
        }
    } else {
        assert(i < before.len());
        assert(before.contains(before[i]));
        assert(whole[i] == before[i]);
        if q < rest.len() {
            assert(rest[q] == labels.last());
            assert(rest.contains(labels.last()));
            assert(false);
        }
        let p = rest.index_of(before[i]);
        assert(labels[p] == whole[i]);
    }
}

} // verus!
