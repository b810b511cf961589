//! A string-keyed table with last-write-wins insertion, viewed as a
//! `Map<Seq<char>, _>` of the deep views of its values. It backs every table
//! of the document store, so that the store's contracts can speak of plain
//! mathematical maps.

use vstd::prelude::*;

use crate::common::str_eq;

verus! {

/// The map described by an association list: a later pair overrides an
/// earlier one with the same key.
pub open spec fn map_of<V: DeepView>(pairs: Seq<(String, V)>) -> Map<Seq<char>, V::V>
    decreases pairs.len(),
{
    if pairs.len() == 0 {
        Map::empty()
    } else {
        map_of(pairs.drop_last()).insert(pairs.last().0@, pairs.last().1.deep_view())
    }
}

/// A table from block names (or file extensions) to values, with the lookup
/// and overwrite semantics of a map.
pub struct Table<V> {
    pub pairs: Vec<(String, V)>,
}

impl<V: DeepView> View for Table<V> {
    type V = Map<Seq<char>, V::V>;

    open spec fn view(&self) -> Map<Seq<char>, V::V> {
        map_of(self.pairs@)
    }
}

impl<V: DeepView> Table<V> {
    /// No two entries share a key.
    pub open spec fn wf(&self) -> bool {
        forall|i: int, j: int|
            0 <= i < j < self.pairs@.len() ==> self.pairs@[i].0@ != self.pairs@[j].0@
    }

    /// Creates an empty table.
    pub fn new() -> (r: Self)
        ensures
            r@ == Map::<Seq<char>, V::V>::empty(),
            r.wf(),
            r.pairs@.len() == 0,
    {
        Table { pairs: Vec::new() }
    }

    /// Returns how many entries the table holds.
    pub fn len(&self) -> (r: usize)
        requires
            self.wf(),
        ensures
            r == self@.dom().len(),
    {
        proof {
            lemma_map_of_dom_len(self.pairs@);
        }
        self.pairs.len()
    }

    /// Looks a key up.
    pub fn get(&self, key: &str) -> (r: Option<&V>)
        requires
            self.wf(),
        ensures
            match r {
                Some(v) => self@.contains_key(key@) && v.deep_view() == self@[key@],
                None => !self@.contains_key(key@),
            },
    {
        let n = self.pairs.len();
        let mut i: usize = 0;
        while i < n
            invariant
                self.wf(),
                n == self.pairs@.len(),
                i <= n,
                forall|j: int| 0 <= j < i ==> self.pairs@[j].0@ != key@,
            decreases n - i,
        {
            if str_eq(self.pairs[i].0.as_str(), key) {
                proof {
                    lemma_map_of_get(self.pairs@, i as int);
                }
                return Some(&self.pairs[i].1);
            }
            i += 1;
        }
        proof {
            lemma_map_of_contains(self.pairs@, key@);
        }
        None
    }

    /// Whether the table holds an entry for `key`.
    pub fn contains_key(&self, key: &str) -> (r: bool)
        requires
            self.wf(),
        ensures
            r == self@.contains_key(key@),
    {
        self.get(key).is_some()
    }

    /// Inserts a value under a key, overwriting any earlier entry for it.
    pub fn insert(&mut self, key: String, value: V)
        requires
            old(self).wf(),
        ensures
            final(self).wf(),
            final(self)@ == old(self)@.insert(key@, value.deep_view()),
    {
        let n = self.pairs.len();
        let mut i: usize = 0;
        while i < n
            invariant
                self.wf(),
                self == old(self),
                n == self.pairs@.len(),
                i <= n,
                forall|j: int| 0 <= j < i ==> self.pairs@[j].0@ != key@,
            decreases n - i,
        {
            if str_eq(self.pairs[i].0.as_str(), key.as_str()) {
                proof {
                    lemma_map_of_update(self.pairs@, i as int, (key, value));
                }
                self.pairs.remove(i);
                self.pairs.insert(i, (key, value));
                proof {
                    assert(self.pairs@ =~= old(self).pairs@.update(
                        i as int,
                        (key, value),
                    ));
                }
                return ;
            }
            i += 1;
        }
        proof {
            lemma_map_of_contains(self.pairs@, key@);
            assert(self.pairs@.push((key, value)).drop_last() =~= self.pairs@);
        }
        self.pairs.push((key, value));
    }

    /// Returns every key in insertion order.
    pub fn keys(&self) -> (r: Vec<String>)
        requires
            self.wf(),
        ensures
            r@.len() == self.pairs@.len(),
            forall|i: int| 0 <= i < r@.len() ==> r@[i]@ == self.pairs@[i].0@,
            forall|i: int| 0 <= i < r@.len() ==> self@.contains_key(#[trigger] r@[i]@),
    {
        let n = self.pairs.len();
        let mut r: Vec<String> = Vec::new();
        let mut i: usize = 0;
        while i < n
            invariant
                self.wf(),
                n == self.pairs@.len(),
                i <= n,
                r@.len() == i as int,
                forall|j: int| 0 <= j < i ==> r@[j]@ == self.pairs@[j].0@,
            decreases n - i,
        {
            r.push(self.pairs[i].0.clone());
            i += 1;
        }
        proof {
            assert forall|i: int| 0 <= i < r@.len() implies self@.contains_key(
                #[trigger] r@[i]@,
            ) by {
                lemma_map_of_get(self.pairs@, i);
            }
        }
        r
    }
}

/// A key is in the map of a pair list exactly when some pair carries it.
pub proof fn lemma_map_of_contains<V: DeepView>(pairs: Seq<(String, V)>, k: Seq<char>)
    ensures
        map_of(pairs).contains_key(k) <==> exists|i: int| 0 <= i < pairs.len() && pairs[i].0@ == k,
    decreases pairs.len(),
{
    if pairs.len() > 0 {
        lemma_map_of_contains(pairs.drop_last(), k);
        if pairs.last().0@ == k {
            assert(pairs[pairs.len() - 1].0@ == k);
        } else if map_of(pairs).contains_key(k) {
            let i = choose|i: int| 0 <= i < pairs.drop_last().len() && pairs.drop_last()[i].0@
                == k;
            assert(pairs[i].0@ == k);
        } else {
            assert forall|i: int| 0 <= i < pairs.len() implies pairs[i].0@ != k by {
                if i < pairs.len() - 1 {
                    assert(pairs.drop_last()[i].0@ != k);
                }
            }
        }
    }
}

/// With distinct keys, the map of a pair list sends each key to its value.
pub proof fn lemma_map_of_get<V: DeepView>(pairs: Seq<(String, V)>, i: int)
    requires
        0 <= i < pairs.len(),
        forall|a: int, b: int| 0 <= a < b < pairs.len() ==> pairs[a].0@ != pairs[b].0@,
        pairs.len() > 0,
    ensures
        map_of(pairs).contains_key(pairs[i].0@),
        map_of(pairs)[pairs[i].0@] == pairs[i].1.deep_view(),
    decreases pairs.len(),
{
    if i == pairs.len() - 1 {
    } else {
        lemma_map_of_get(pairs.drop_last(), i);
        assert(pairs.drop_last()[i] == pairs[i]);
        assert(pairs[i].0@ != pairs.last().0@);
    }
}

/// Replacing the pair that holds a key updates the map at that key alone.
pub proof fn lemma_map_of_update<V: DeepView>(pairs: Seq<(String, V)>, i: int, p: (String, V))
    requires
        0 <= i < pairs.len(),
        forall|a: int, b: int| 0 <= a < b < pairs.len() ==> pairs[a].0@ != pairs[b].0@,
        pairs[i].0@ == p.0@,
    ensures
        map_of(pairs.update(i, p)) == map_of(pairs).insert(p.0@, p.1.deep_view()),
    decreases pairs.len(),
{
    if i == pairs.len() - 1 {
        assert(pairs.update(i, p).drop_last() =~= pairs.drop_last());
        assert(pairs.update(i, p).last() == p);
        assert(map_of(pairs.update(i, p)) =~= map_of(pairs).insert(p.0@, p.1.deep_view()));
    } else {
        assert(pairs.update(i, p).drop_last() =~= pairs.drop_last().update(i, p));
        lemma_map_of_update(pairs.drop_last(), i, p);
        assert(pairs.update(i, p).last() == pairs.last());
        assert(pairs.drop_last()[i] == pairs[i]);
        assert(p.0@ != pairs.last().0@);
        assert(map_of(pairs.update(i, p)) =~= map_of(pairs).insert(p.0@, p.1.deep_view()));
    }
}

/// With distinct keys, the map of a pair list has one key per pair.
pub proof fn lemma_map_of_dom_len<V: DeepView>(pairs: Seq<(String, V)>)
    requires
        forall|a: int, b: int| 0 <= a < b < pairs.len() ==> pairs[a].0@ != pairs[b].0@,
    ensures
        map_of(pairs).dom().finite(),
        map_of(pairs).dom().len() == pairs.len(),
    decreases pairs.len(),
{
    if pairs.len() > 0 {
        lemma_map_of_dom_len(pairs.drop_last());
        lemma_map_of_contains(pairs.drop_last(), pairs.last().0@);
        assert forall|i: int| 0 <= i < pairs.drop_last().len() implies pairs.drop_last()[i].0@
            != pairs.last().0@ by {
            assert(pairs[i].0@ != pairs[pairs.len() - 1].0@);
        }
        assert(!map_of(pairs.drop_last()).contains_key(pairs.last().0@));
        vstd::set::axiom_set_insert_len(map_of(pairs.drop_last()).dom(), pairs.last().0@);
        vstd::set::axiom_set_insert_finite(map_of(pairs.drop_last()).dom(), pairs.last().0@);
        assert(map_of(pairs).dom() =~= map_of(pairs.drop_last()).dom().insert(pairs.last().0@));
    }
}

} // verus!
