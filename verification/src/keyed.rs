//! A small map from texts to values.

use vstd::prelude::*;

use crate::text::same_text;

verus! {

/// A map from texts to values, kept as a list in the order of insertion.
pub struct TextMap<V> {
    entries: Vec<(String, V)>,
}

/// The key stands at some position of the list.
pub open spec fn has_key<T>(pairs: Seq<(Seq<char>, T)>, key: Seq<char>) -> bool {
    exists|i: int| 0 <= i < pairs.len() && (#[trigger] pairs[i]).0 == key
}

/// The position of a key.
pub open spec fn key_index<T>(pairs: Seq<(Seq<char>, T)>, key: Seq<char>) -> int {
    choose|i: int| 0 <= i < pairs.len() && (#[trigger] pairs[i]).0 == key
}

/// No key stands at two positions.
pub open spec fn distinct_keys<T>(pairs: Seq<(Seq<char>, T)>) -> bool {
    forall|i: int, j: int|
        0 <= i < pairs.len() && 0 <= j < pairs.len() && (#[trigger] pairs[i]).0 == (
        #[trigger] pairs[j]).0 ==> i == j
}

/// The map that a list of pairs stands for.
pub open spec fn map_of<T>(pairs: Seq<(Seq<char>, T)>) -> Map<Seq<char>, T> {
    Map::new(|key: Seq<char>| has_key(pairs, key), |key: Seq<char>| pairs[key_index(pairs, key)].1)
}

proof fn lemma_map_of_update<T>(pairs: Seq<(Seq<char>, T)>, i: int, value: T)
    requires
        distinct_keys(pairs),
        0 <= i < pairs.len(),
    ensures
        distinct_keys(pairs.update(i, (pairs[i].0, value))),
        map_of(pairs.update(i, (pairs[i].0, value))) == map_of(pairs).insert(pairs[i].0, value),
{
    let key = pairs[i].0;
    let after = pairs.update(i, (key, value));
    assert forall|a: int, b: int|
        0 <= a < after.len() && 0 <= b < after.len() && (#[trigger] after[a]).0 == (
        #[trigger] after[b]).0 implies a == b by {
        assert(pairs[a].0 == pairs[b].0);
    }
    assert forall|k: Seq<char>| #[trigger]
        map_of(after).contains_key(k) <==> map_of(pairs).insert(key, value).contains_key(k) by {
        if has_key(after, k) {
            let j = key_index(after, k);
            assert(pairs[j].0 == k);
        }
        if has_key(pairs, k) {
            let j = key_index(pairs, k);
            assert(after[j].0 == k);
        }
        assert(after[i].0 == key);
    }
    assert forall|k: Seq<char>| #[trigger] map_of(after).contains_key(k) implies map_of(after)[k]
        == map_of(pairs).insert(key, value)[k] by {
        let j = key_index(after, k);
        assert(pairs[j].0 == k);
        if k == key {
            assert(after[i].0 == key);
        } else {
            let m = key_index(pairs, k);
            assert(pairs[m].0 == k);
            assert(m == j);
        }
    }
    assert(map_of(after) =~= map_of(pairs).insert(key, value));
}

proof fn lemma_map_of_push<T>(pairs: Seq<(Seq<char>, T)>, key: Seq<char>, value: T)
    requires
        distinct_keys(pairs),
        !has_key(pairs, key),
    ensures
        distinct_keys(pairs.push((key, value))),
        map_of(pairs.push((key, value))) == map_of(pairs).insert(key, value),
{
    let after = pairs.push((key, value));
    let last = pairs.len() as int;
    assert forall|a: int, b: int|
        0 <= a < after.len() && 0 <= b < after.len() && (#[trigger] after[a]).0 == (
        #[trigger] after[b]).0 implies a == b by {
        if a < last && b < last {
            assert(pairs[a].0 == pairs[b].0);
        } else if a < last {
            assert(pairs[a].0 == key);
        } else if b < last {
            assert(pairs[b].0 == key);
        }
    }
    assert forall|k: Seq<char>| #[trigger]
        map_of(after).contains_key(k) <==> map_of(pairs).insert(key, value).contains_key(k) by {
        if has_key(after, k) {
            let j = key_index(after, k);
            if j < last {
                assert(pairs[j].0 == k);
            }
        }
        if has_key(pairs, k) {
            let j = key_index(pairs, k);
            assert(after[j].0 == k);
        }
        assert(after[last].0 == key);
    }
    assert forall|k: Seq<char>| #[trigger] map_of(after).contains_key(k) implies map_of(after)[k]
        == map_of(pairs).insert(key, value)[k] by {
        let j = key_index(after, k);
        assert(after[j].0 == k);
        if k == key {
            assert(after[last].0 == key);
        } else {
            assert(pairs[j].0 == k);
            let m = key_index(pairs, k);
            assert(pairs[m].0 == k);
        }
    }
    assert(map_of(after) =~= map_of(pairs).insert(key, value));
}

/// A list without repeated keys has as many keys as positions.
proof fn lemma_map_of_len<T>(pairs: Seq<(Seq<char>, T)>)
    requires
        distinct_keys(pairs),
    ensures
        map_of(pairs).dom().finite(),
        map_of(pairs).dom().len() == pairs.len(),
    decreases pairs.len(),
{
    if pairs.len() == 0 {
        assert(map_of(pairs).dom() =~= Set::empty());
    } else {
        let rest = pairs.drop_last();
        let (key, value) = pairs.last();
        assert forall|i: int, j: int|
            0 <= i < rest.len() && 0 <= j < rest.len() && (#[trigger] rest[i]).0 == (
            #[trigger] rest[j]).0 implies i == j by {
            assert(pairs[i].0 == pairs[j].0);
        }
        if has_key(rest, key) {
            let i = key_index(rest, key);
            assert(rest[i].0 == key);
            assert(pairs[i].0 == pairs[pairs.len() - 1].0);
        }
        lemma_map_of_len(rest);
        lemma_map_of_push(rest, key, value);
        assert(rest.push((key, value)) =~= pairs);
        assert(map_of(pairs).dom() =~= map_of(rest).dom().insert(key));
    }
}

impl<V: DeepView> TextMap<V> {
    /// The keys and values in the order of insertion.
    pub closed spec fn pairs(&self) -> Seq<(Seq<char>, V::V)> {
        self.entries@.map_values(|entry: (String, V)| (entry.0@, entry.1.deep_view()))
    }

    /// No key occurs twice.
    pub open spec fn wf(&self) -> bool {
        distinct_keys(self.pairs())
    }

    /// The contents.
    pub open spec fn map(&self) -> Map<Seq<char>, V::V> {
        map_of(self.pairs())
    }

    /// A map without keys.
    pub fn new() -> (r: TextMap<V>)
        ensures
            r.wf(),
            r.map() == Map::<Seq<char>, V::V>::empty(),
            r.pairs().len() == 0,
    {
        let r: TextMap<V> = TextMap { entries: Vec::new() };
        assert(r.map() =~= Map::<Seq<char>, V::V>::empty());
        r
    }

    /// The number of keys.
    pub fn len(&self) -> (r: usize)
        requires
            self.wf(),
        ensures
            r == self.pairs().len(),
            r == self.map().dom().len(),
    {
        proof {
            lemma_map_of_len(self.pairs());
        }
        self.entries.len()
    }

    fn index_of(&self, key: &str) -> (r: Option<usize>)
        requires
            self.wf(),
        ensures
            match r {
                Some(i) => i < self.pairs().len() && self.pairs()[i as int].0 == key@,
                None => !has_key(self.pairs(), key@),
            },
    {
        let mut i: usize = 0;
        while i < self.entries.len()
            invariant
                i <= self.entries.len(),
                forall|j: int| 0 <= j < i ==> (#[trigger] self.pairs()[j]).0 != key@,
            decreases self.entries.len() - i,
        {
            if same_text(self.entries[i].0.as_str(), key) {
                return Some(i);
            }
            i += 1;
        }
        None
    }

    /// The value of a key.
    pub fn get(&self, key: &str) -> (r: Option<&V>)
        requires
            self.wf(),
        ensures
            match r {
                Some(value) => self.map().contains_key(key@) && value.deep_view()
                    == self.map()[key@],
                None => !self.map().contains_key(key@),
            },
    {
        match self.index_of(key) {
            Some(i) => {
                assert(self.pairs()[i as int].0 == key@);
                assert(key_index(self.pairs(), key@) == i);
                Some(&self.entries[i].1)
            },
            None => None,
        }
    }

    /// The value at a position in the order of insertion.
    pub fn value_at(&self, i: usize) -> (r: &V)
        requires
            i < self.pairs().len(),
        ensures
            r.deep_view() == self.pairs()[i as int].1,
    {
        &self.entries[i].1
    }

    /// Gives a key a value, in place of the one that it has.
    pub fn insert(&mut self, key: String, value: V)
        requires
            old(self).wf(),
        ensures
            final(self).wf(),
            final(self).map() == old(self).map().insert(key@, value.deep_view()),
    {
        let ghost before = self.pairs();
        match self.index_of(key.as_str()) {
            Some(i) => {
                proof {
                    lemma_map_of_update(before, i as int, value.deep_view());
                }
                self.entries.set(i, (key, value));
                assert(self.pairs() =~= before.update(i as int, (key@, value.deep_view())));
            },
            None => {
                proof {
                    lemma_map_of_push(before, key@, value.deep_view());
                }
                self.entries.push((key, value));
                assert(self.pairs() =~= before.push((key@, value.deep_view())));
            },
        }
    }
}

} // verus!
