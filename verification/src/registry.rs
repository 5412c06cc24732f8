//! A small string-keyed dictionary kept in insertion order, used for the
//! container table of the storage engine, the queue table of the pool and
//! the channel table of the channel manager.

use vstd::prelude::*;
use vstd::map::*;

verus! {

/// Whether a key sequence holds no duplicates.
pub open spec fn keys_unique(ks: Seq<Seq<char>>) -> bool {
    forall|i: int, j: int| 0 <= i < j < ks.len() ==> ks[i] != ks[j]
}

/// The mapping a key/value table stands for, assuming unique keys.
pub open spec fn table_to_map<V>(ks: Seq<Seq<char>>, vs: Seq<V>) -> Map<Seq<char>, V> {
    Map::new(
        |k: Seq<char>| exists|i: int| 0 <= i < ks.len() && ks[i] == k,
        |k: Seq<char>|
            {
                let i = choose|i: int| 0 <= i < ks.len() && ks[i] == k;
                vs[i]
            },
    )
}

/// With unique keys, the mapping agrees with every row of the table.
pub proof fn lemma_table_at_index<V>(ks: Seq<Seq<char>>, vs: Seq<V>, i: int)
    requires
        keys_unique(ks),
        ks.len() == vs.len(),
        0 <= i < ks.len(),
    ensures
        table_to_map(ks, vs).contains_key(ks[i]),
        table_to_map(ks, vs)[ks[i]] == vs[i],
{
    let k = ks[i];
    assert(table_to_map(ks, vs).contains_key(k));
    let j = choose|j: int| 0 <= j < ks.len() && ks[j] == k;
    assert(i == j);
}

/// Updating the value in one row updates the mapping at that row's key.
pub proof fn lemma_table_update<V>(ks: Seq<Seq<char>>, vs: Seq<V>, i: int, v: V)
    requires
        keys_unique(ks),
        ks.len() == vs.len(),
        0 <= i < ks.len(),
    ensures
        table_to_map(ks, vs.update(i, v)) == table_to_map(ks, vs).insert(ks[i], v),
{
    let m1 = table_to_map(ks, vs.update(i, v));
    let m2 = table_to_map(ks, vs).insert(ks[i], v);
    assert forall|k: Seq<char>| m1.contains_key(k) implies m2.contains_key(k) by {}
    assert forall|k: Seq<char>| m2.contains_key(k) implies m1.contains_key(k) by {
        if k != ks[i] {
            let w = choose|w: int| 0 <= w < ks.len() && ks[w] == k;
        }
    }
    assert forall|k: Seq<char>| m1.contains_key(k) implies m1[k] == m2[k] by {
        let w = choose|w: int| 0 <= w < ks.len() && ks[w] == k;
        lemma_table_at_index(ks, vs.update(i, v), w);
        if w == i {
            assert(m1[k] == v);
        } else {
            lemma_table_at_index(ks, vs, w);
        }
    }
    assert(m1 =~= m2);
}

/// A string-keyed dictionary in insertion order.
pub struct Registry<V> {
    keys: Vec<String>,
    values: Vec<V>,
}

impl<V> Registry<V> {
    /// The keys, in insertion order.
    pub closed spec fn keys_seq(&self) -> Seq<Seq<char>> {
        Seq::new(self.keys@.len(), |i: int| self.keys@[i]@)
    }

    /// The values, in insertion order.
    pub closed spec fn values_seq(&self) -> Seq<V> {
        self.values@
    }

    pub open spec fn wf(&self) -> bool {
        &&& keys_unique(self.keys_seq())
        &&& self.keys_seq().len() == self.values_seq().len()
    }

    /// The mapping view; the components state their contracts over it.
    pub open spec fn view(&self) -> Map<Seq<char>, V> {
        table_to_map(self.keys_seq(), self.values_seq())
    }

    pub fn new() -> (r: Registry<V>)
        ensures
            r.wf(),
            r.keys_seq() == Seq::<Seq<char>>::empty(),
            r@ == Map::<Seq<char>, V>::empty(),
    {
        let r = Registry { keys: Vec::new(), values: Vec::new() };
        proof {
            assert(r.keys_seq() =~= Seq::<Seq<char>>::empty());
            assert(r@ =~= Map::<Seq<char>, V>::empty());
        }
        r
    }

    pub fn len(&self) -> (r: usize)
        ensures
            r == self.keys_seq().len(),
    {
        self.keys.len()
    }

    /// Finds the row holding a key.
    pub fn index_of(&self, key: &String) -> (r: Option<usize>)
        requires
            self.wf(),
        ensures
            match r {
                Some(i) => i < self.keys_seq().len() && self.keys_seq()[i as int] == key@
                    && self@.contains_key(key@) && self@[key@] == self.values_seq()[i as int],
                None => !self@.contains_key(key@),
            },
    {
        let n = self.keys.len();
        let mut i: usize = 0;
        while i < n
            invariant
                n == self.keys_seq().len(),
                0 <= i <= n,
                self.wf(),
                forall|j: int| 0 <= j < i ==> self.keys_seq()[j] != key@,
            decreases n - i,
        {
            if self.keys[i] == *key {
                proof {
                    lemma_table_at_index(self.keys_seq(), self.values_seq(), i as int);
                }
                return Some(i);
            }
            i = i + 1;
        }
        proof {
            if self@.contains_key(key@) {
                let w = choose|w: int| 0 <= w < self.keys_seq().len() && self.keys_seq()[w] == key@;
                assert(false);
            }
        }
        None
    }

    pub fn contains(&self, key: &String) -> (r: bool)
        requires
            self.wf(),
        ensures
            r == self@.contains_key(key@),
    {
        self.index_of(key).is_some()
    }

    pub fn get(&self, key: &String) -> (r: Option<&V>)
        requires
            self.wf(),
        ensures
            match r {
                Some(v) => self@.contains_key(key@) && *v == self@[key@],
                None => !self@.contains_key(key@),
            },
    {
        match self.index_of(key) {
            Some(i) => Some(&self.values[i]),
            None => None,
        }
    }

    pub fn key_at(&self, i: usize) -> (r: &String)
        requires
            i < self.keys_seq().len(),
        ensures
            r@ == self.keys_seq()[i as int],
    {
        &self.keys[i]
    }

    pub fn value_at(&self, i: usize) -> (r: &V)
        requires
            self.wf(),
            i < self.keys_seq().len(),
        ensures
            *r == self.values_seq()[i as int],
            self@.contains_key(self.keys_seq()[i as int]),
            *r == self@[self.keys_seq()[i as int]],
    {
        proof {
            lemma_table_at_index(self.keys_seq(), self.values_seq(), i as int);
        }
        &self.values[i]
    }

    /// A mutable borrow of the value bound to a key, if the key is bound.
    pub fn get_mut(&mut self, key: &String) -> (r: Option<&mut V>)
        requires
            old(self).wf(),
        ensures
            match r {
                Some(v) => exists|i: int|
                    {
                        &&& 0 <= i < old(self).keys_seq().len()
                        &&& #[trigger] old(self).keys_seq()[i] == key@
                        &&& *v == old(self).values_seq()[i]
                        &&& final(self).keys_seq() == old(self).keys_seq()
                        &&& final(self).values_seq() == old(self).values_seq().update(
                            i,
                            *final(v),
                        )
                        &&& final(self).wf()
                    },
                None => !old(self)@.contains_key(key@) && *final(self) == *old(self),
            },
    {
        match self.index_of(key) {
            Some(i) => Some(&mut self.values[i]),
            None => None,
        }
    }

    /// A mutable borrow of the value in one row; the keys stay as they are.
    pub fn value_at_mut(&mut self, i: usize) -> (r: &mut V)
        requires
            old(self).wf(),
            i < old(self).keys_seq().len(),
        ensures
            *r == old(self).values_seq()[i as int],
            final(self).keys_seq() == old(self).keys_seq(),
            final(self).values_seq() == old(self).values_seq().update(i as int, *final(r)),
            final(self).wf(),
    {
        &mut self.values[i]
    }

    /// Inserts `key -> value`, replacing the value in place if the key is
    /// already bound.
    pub fn insert(&mut self, key: String, value: V) -> (replaced: bool)
        requires
            old(self).wf(),
        ensures
            final(self).wf(),
            final(self)@ == old(self)@.insert(key@, value),
            replaced == old(self)@.contains_key(key@),
            replaced ==> final(self).keys_seq() == old(self).keys_seq(),
            !replaced ==> final(self).keys_seq() == old(self).keys_seq().push(key@),
    {
        let ghost old_keys = self.keys_seq();
        let ghost old_values = self.values_seq();
        match self.index_of(&key) {
            Some(i) => {
                self.values[i] = value;
                proof {
                    let p = i as int;
                    assert(self.keys_seq() =~= old_keys);
                    assert(self.values_seq() =~= old_values.update(p, value));
                    assert forall|k: Seq<char>| self@.contains_key(k) implies
                        old(self)@.insert(key@, value).contains_key(k) by {}
                    assert forall|k: Seq<char>| old(self)@.insert(key@, value).contains_key(k) implies
                        self@.contains_key(k) by {}
                    assert forall|k: Seq<char>| self@.contains_key(k) implies
                        self@[k] == old(self)@.insert(key@, value)[k] by {
                        let w = choose|w: int| 0 <= w < self.keys_seq().len() && self.keys_seq()[w] == k;
                        lemma_table_at_index(self.keys_seq(), self.values_seq(), w);
                        if w != p {
                            lemma_table_at_index(old_keys, old_values, w);
                        } else {
                            assert(k == key@);
                        }
                    }
                    assert(self@ =~= old(self)@.insert(key@, value));
                }
                true
            },
            None => {
                self.keys.push(key);
                self.values.push(value);
                proof {
                    let ghost kv = old_keys.push(self.keys@[self.keys@.len() - 1]@);
                    assert(self.keys_seq() =~= old_keys.push(kv.last()));
                    assert(self.values_seq() =~= old_values.push(value));
                    let n = old_keys.len() as int;
                    assert forall|k: Seq<char>| self@.contains_key(k) implies
                        old(self)@.insert(kv.last(), value).contains_key(k) by {
                        let w = choose|w: int| 0 <= w < self.keys_seq().len() && self.keys_seq()[w] == k;
                        if w < n {
                            assert(old_keys[w] == k);
                        }
                    }
                    assert forall|k: Seq<char>| old(self)@.insert(kv.last(), value).contains_key(k) implies
                        self@.contains_key(k) by {
                        if k == kv.last() {
                            assert(self.keys_seq()[n] == k);
                        } else {
                            let w = choose|w: int| 0 <= w < old_keys.len() && old_keys[w] == k;
                            assert(self.keys_seq()[w] == k);
                        }
                    }
                    assert forall|k: Seq<char>| self@.contains_key(k) implies
                        self@[k] == old(self)@.insert(kv.last(), value)[k] by {
                        let w = choose|w: int| 0 <= w < self.keys_seq().len() && self.keys_seq()[w] == k;
                        lemma_table_at_index(self.keys_seq(), self.values_seq(), w);
                        if w < n {
                            assert(old_keys[w] == k);
                            lemma_table_at_index(old_keys, old_values, w);
                        } else {
                            assert(k == kv.last());
                        }
                    }
                    assert(self@ =~= old(self)@.insert(key@, value));
                }
                false
            },
        }
    }

    /// Drops a key and its value; reports whether the key was bound.
    pub fn remove(&mut self, key: &String) -> (removed: bool)
        requires
            old(self).wf(),
        ensures
            final(self).wf(),
            final(self)@ == old(self)@.remove(key@),
            removed == old(self)@.contains_key(key@),
            !removed ==> *final(self) == *old(self),
    {
        let ghost old_keys = self.keys_seq();
        let ghost old_values = self.values_seq();
        match self.index_of(key) {
            Some(i) => {
                self.keys.remove(i);
                self.values.remove(i);
                proof {
                    let p = i as int;
                    assert(self.keys_seq() =~= old_keys.remove(p));
                    assert(self.values_seq() =~= old_values.remove(p));
                    assert forall|k: Seq<char>| self@.contains_key(k) implies
                        old(self)@.remove(key@).contains_key(k) by {
                        let w = choose|w: int| 0 <= w < self.keys_seq().len() && self.keys_seq()[w] == k;
                        if w < p {
                            assert(old_keys[w] == k);
                        } else {
                            assert(old_keys[w + 1] == k);
                        }
                    }
                    assert forall|k: Seq<char>| old(self)@.remove(key@).contains_key(k) implies
                        self@.contains_key(k) by {
                        let w = choose|w: int| 0 <= w < old_keys.len() && old_keys[w] == k;
                        assert(w != p);
                        if w < p {
                            assert(self.keys_seq()[w] == k);
                        } else {
                            assert(self.keys_seq()[w - 1] == k);
                        }
                    }
                    assert forall|k: Seq<char>| self@.contains_key(k) implies
                        self@[k] == old(self)@.remove(key@)[k] by {
                        let w = choose|w: int| 0 <= w < self.keys_seq().len() && self.keys_seq()[w] == k;
                        lemma_table_at_index(self.keys_seq(), self.values_seq(), w);
                        if w < p {
                            assert(old_keys[w] == k);
                            lemma_table_at_index(old_keys, old_values, w);
                        } else {
                            assert(old_keys[w + 1] == k);
                            lemma_table_at_index(old_keys, old_values, w + 1);
                        }
                    }
                    assert(self@ =~= old(self)@.remove(key@));
                }
                true
            },
            None => {
                proof {
                    assert(self@ =~= old(self)@.remove(key@));
                }
                false
            },
        }
    }

    /// A copy of all keys, in insertion order.
    pub fn keys_vec(&self) -> (r: Vec<String>)
        ensures
            r@.len() == self.keys_seq().len(),
            forall|i: int| 0 <= i < r@.len() ==> r@[i]@ == self.keys_seq()[i],
    {
        let n = self.keys.len();
        let mut out: Vec<String> = Vec::new();
        let mut i: usize = 0;
        while i < n
            invariant
                n == self.keys_seq().len(),
                0 <= i <= n,
                out@.len() == i,
                forall|j: int| 0 <= j < i ==> out@[j]@ == self.keys_seq()[j],
            decreases n - i,
        {
            out.push(self.keys[i].clone());
            i = i + 1;
        }
        out
    }
}

} // verus!
