//! The in-memory index of one container: a mapping from 128-bit sort keys to
//! payloads, kept as a vector of pairs sorted by strictly ascending key so
//! that iteration yields entries in key order.

use vstd::prelude::*;
use vstd::map::*;

verus! {

/// Whether a pair sequence is sorted by strictly ascending key,
/// which also makes every key unique.
pub open spec fn sorted_by_key(s: Seq<(u128, Seq<u8>)>) -> bool {
    forall|i: int, j: int| 0 <= i < j < s.len() ==> (#[trigger] s[i]).0 < (#[trigger] s[j]).0
}

/// The mapping a pair sequence stands for, assuming unique keys.
pub open spec fn pairs_to_map(s: Seq<(u128, Seq<u8>)>) -> Map<u128, Seq<u8>> {
    Map::new(
        |k: u128| exists|i: int| 0 <= i < s.len() && (#[trigger] s[i]).0 == k,
        |k: u128|
            {
                let i = choose|i: int| 0 <= i < s.len() && (#[trigger] s[i]).0 == k;
                s[i].1
            },
    )
}

/// With unique keys, the mapping agrees with every entry of the sequence.
pub proof fn lemma_map_at_index(s: Seq<(u128, Seq<u8>)>, i: int)
    requires
        sorted_by_key(s),
        0 <= i < s.len(),
    ensures
        pairs_to_map(s).contains_key(s[i].0),
        pairs_to_map(s)[s[i].0] == s[i].1,
{
    let k = s[i].0;
    assert(pairs_to_map(s).contains_key(k));
    let j = choose|j: int| 0 <= j < s.len() && (#[trigger] s[j]).0 == k;
    if i < j {
        assert(s[i].0 < s[j].0);
    } else if j < i {
        assert(s[j].0 < s[i].0);
    }
    assert(i == j);
}

/// The in-memory index of one container.
pub struct ItemIndex {
    entries: Vec<(u128, Vec<u8>)>,
}

impl ItemIndex {
    /// The entries in ascending key order.
    pub closed spec fn pairs(&self) -> Seq<(u128, Seq<u8>)> {
        Seq::new(self.entries@.len(), |i: int| (self.entries@[i].0, self.entries@[i].1@))
    }

    pub open spec fn wf(&self) -> bool {
        sorted_by_key(self.pairs())
    }

    /// The mapping view; the contracts of the storage engine are stated over it.
    pub open spec fn view(&self) -> Map<u128, Seq<u8>> {
        pairs_to_map(self.pairs())
    }

    pub fn new() -> (r: ItemIndex)
        ensures
            r.wf(),
            r.pairs() == Seq::<(u128, Seq<u8>)>::empty(),
            r@ == Map::<u128, Seq<u8>>::empty(),
    {
        let r = ItemIndex { entries: Vec::new() };
        proof {
            assert(r.pairs() =~= Seq::<(u128, Seq<u8>)>::empty());
            assert(r@ =~= Map::<u128, Seq<u8>>::empty());
        }
        r
    }

    /// How many keys are live.
    pub fn len(&self) -> (r: usize)
        ensures
            r == self.pairs().len(),
    {
        self.entries.len()
    }

    /// The key of the entry at a position, in ascending key order.
    pub fn key_at(&self, i: usize) -> (r: u128)
        requires
            i < self.pairs().len(),
        ensures
            r == self.pairs()[i as int].0,
    {
        self.entries[i].0
    }

    /// The payload of the entry at a position.
    pub fn payload_at(&self, i: usize) -> (r: &Vec<u8>)
        requires
            i < self.pairs().len(),
        ensures
            r@ == self.pairs()[i as int].1,
    {
        &self.entries[i].1
    }

    /// Looks a key up.
    pub fn get(&self, key: u128) -> (r: Option<&Vec<u8>>)
        requires
            self.wf(),
        ensures
            match r {
                Some(v) => self@.contains_key(key) && v@ == self@[key],
                None => !self@.contains_key(key),
            },
    {
        let n = self.entries.len();
        let mut i: usize = 0;
        while i < n
            invariant
                n == self.pairs().len(),
                0 <= i <= n,
                self.wf(),
                forall|j: int| 0 <= j < i ==> (#[trigger] self.pairs()[j]).0 != key,
            decreases n - i,
        {
            if self.entries[i].0 == key {
                proof {
                    lemma_map_at_index(self.pairs(), i as int);
                }
                return Some(&self.entries[i].1);
            }
            i = i + 1;
        }
        proof {
            if self@.contains_key(key) {
                let w = choose|w: int| 0 <= w < self.pairs().len() && (#[trigger] self.pairs()[w]).0 == key;
                assert(false);
            }
        }
        None
    }

    /// Upserts `key -> value`, keeping the entries sorted.
    pub fn insert(&mut self, key: u128, value: Vec<u8>) -> (replaced: bool)
        requires
            old(self).wf(),
        ensures
            final(self).wf(),
            final(self)@ == old(self)@.insert(key, value@),
            replaced == old(self)@.contains_key(key),
            final(self).pairs().len() == old(self).pairs().len() + (if replaced { 0int } else { 1int }),
    {
        let n = self.entries.len();
        let mut i: usize = 0;
        while i < n && self.entries[i].0 < key
            invariant
                n == self.pairs().len(),
                0 <= i <= n,
                self.wf(),
                forall|j: int| 0 <= j < i ==> (#[trigger] self.pairs()[j]).0 < key,
            decreases n - i,
        {
            i = i + 1;
        }
        let ghost old_pairs = self.pairs();
        proof {
            assert(i == n || old_pairs[i as int].0 >= key);
        }
        if i < n && self.entries[i].0 == key {
            proof {
                lemma_map_at_index(old_pairs, i as int);
            }
            self.entries[i].1 = value;
            proof {
                let p = i as int;
                assert(self.pairs() =~= old_pairs.update(p, (key, value@)));
                assert forall|k: u128| self@.contains_key(k) implies
                    old(self)@.insert(key, value@).contains_key(k) by {
                    let w = choose|w: int| 0 <= w < self.pairs().len() && (#[trigger] self.pairs()[w]).0 == k;
                    if w != p {
                        assert(old_pairs[w].0 == k);
                    }
                }
                assert forall|k: u128| old(self)@.insert(key, value@).contains_key(k) implies
                    self@.contains_key(k) by {
                    if k == key {
                        assert(self.pairs()[p].0 == k);
                    } else {
                        let w = choose|w: int| 0 <= w < old_pairs.len() && (#[trigger] old_pairs[w]).0 == k;
                        assert(self.pairs()[w].0 == k);
                    }
                }
                assert forall|k: u128| self@.contains_key(k) implies
                    self@[k] == old(self)@.insert(key, value@)[k] by {
                    let w = choose|w: int| 0 <= w < self.pairs().len() && (#[trigger] self.pairs()[w]).0 == k;
                    lemma_map_at_index(self.pairs(), w);
                    if w == p {
                        assert(self@[k] == value@);
                    } else {
                        assert(old_pairs[w].0 == k);
                        lemma_map_at_index(old_pairs, w);
                    }
                }
                assert(self@ =~= old(self)@.insert(key, value@));
            }
            true
        } else {
            proof {
                if old(self)@.contains_key(key) {
                    let w = choose|w: int| 0 <= w < old_pairs.len() && (#[trigger] old_pairs[w]).0 == key;
                    if w > i {
                        assert(old_pairs[i as int].0 < old_pairs[w].0);
                    }
                    assert(false);
                }
            }
            self.entries.insert(i, (key, value));
            proof {
                let p = i as int;
                assert(self.pairs() =~= old_pairs.insert(p, (key, value@)));
                assert forall|a: int, b: int| 0 <= a < b < self.pairs().len() implies
                    (#[trigger] self.pairs()[a]).0 < (#[trigger] self.pairs()[b]).0 by {
                    let sp = self.pairs();
                    if a < p && b == p {
                        assert(sp[a] == old_pairs[a]);
                    } else if a == p && b > p {
                        assert(sp[b] == old_pairs[b - 1]);
                        assert(old_pairs[b - 1].0 >= key);
                        assert(old_pairs[b - 1].0 != key);
                    } else if a < p && b > p {
                        assert(sp[a] == old_pairs[a] && sp[b] == old_pairs[b - 1]);
                        if a < b - 1 {
                        } else {
                            assert(a == b - 1);
                            assert(sp[a].0 < key && old_pairs[b - 1].0 >= key);
                        }
                    } else if a < p && b < p {
                        assert(sp[a] == old_pairs[a] && sp[b] == old_pairs[b]);
                    } else if a > p && b > p {
                        assert(sp[a] == old_pairs[a - 1] && sp[b] == old_pairs[b - 1]);
                    }
                }
                assert forall|k: u128| self@.contains_key(k) implies
                    old(self)@.insert(key, value@).contains_key(k) by {
                    let w = choose|w: int| 0 <= w < self.pairs().len() && (#[trigger] self.pairs()[w]).0 == k;
                    if w < p {
                        assert(old_pairs[w].0 == k);
                    } else if w > p {
                        assert(old_pairs[w - 1].0 == k);
                    }
                }
                assert forall|k: u128| old(self)@.insert(key, value@).contains_key(k) implies
                    self@.contains_key(k) by {
                    if k == key {
                        assert(self.pairs()[p].0 == k);
                    } else {
                        let w = choose|w: int| 0 <= w < old_pairs.len() && (#[trigger] old_pairs[w]).0 == k;
                        if w < p {
                            assert(self.pairs()[w].0 == k);
                        } else {
                            assert(self.pairs()[w + 1].0 == k);
                        }
                    }
                }
                assert forall|k: u128| self@.contains_key(k) implies
                    self@[k] == old(self)@.insert(key, value@)[k] by {
                    let w = choose|w: int| 0 <= w < self.pairs().len() && (#[trigger] self.pairs()[w]).0 == k;
                    lemma_map_at_index(self.pairs(), w);
                    if w == p {
                        assert(self@[k] == value@);
                    } else if w < p {
                        assert(old_pairs[w].0 == k);
                        lemma_map_at_index(old_pairs, w);
                    } else {
                        assert(old_pairs[w - 1].0 == k);
                        lemma_map_at_index(old_pairs, w - 1);
                    }
                }
                assert(self@ =~= old(self)@.insert(key, value@));
            }
            false
        }
    }

    /// Drops `key` if present; absent keys are left alone.
    pub fn remove(&mut self, key: u128)
        requires
            old(self).wf(),
        ensures
            final(self).wf(),
            final(self)@ == old(self)@.remove(key),
            final(self).pairs().len() == old(self).pairs().len()
                - (if old(self)@.contains_key(key) { 1int } else { 0int }),
    {
        let n = self.entries.len();
        let mut i: usize = 0;
        while i < n && self.entries[i].0 != key
            invariant
                n == self.pairs().len(),
                0 <= i <= n,
                self.wf(),
                forall|j: int| 0 <= j < i ==> (#[trigger] self.pairs()[j]).0 != key,
            decreases n - i,
        {
            i = i + 1;
        }
        let ghost old_pairs = self.pairs();
        if i < n {
            proof {
                assert(old_pairs[i as int].0 == key);
                lemma_map_at_index(old_pairs, i as int);
            }
            self.entries.remove(i);
            proof {
                let p = i as int;
                assert(self.pairs() =~= old_pairs.remove(p));
                assert forall|k: u128| self@.contains_key(k) implies
                    old(self)@.remove(key).contains_key(k) by {
                    let w = choose|w: int| 0 <= w < self.pairs().len() && (#[trigger] self.pairs()[w]).0 == k;
                    if w < p {
                        assert(old_pairs[w].0 == k);
                        assert(k != key);
                    } else {
                        assert(old_pairs[w + 1].0 == k);
                        assert(old_pairs[p].0 < old_pairs[w + 1].0);
                        assert(k != key);
                    }
                }
                assert forall|k: u128| old(self)@.remove(key).contains_key(k) implies
                    self@.contains_key(k) by {
                    let w = choose|w: int| 0 <= w < old_pairs.len() && (#[trigger] old_pairs[w]).0 == k;
                    assert(w != p);
                    if w < p {
                        assert(self.pairs()[w].0 == k);
                    } else {
                        assert(self.pairs()[w - 1].0 == k);
                    }
                }
                assert forall|k: u128| self@.contains_key(k) implies
                    self@[k] == old(self)@.remove(key)[k] by {
                    let w = choose|w: int| 0 <= w < self.pairs().len() && (#[trigger] self.pairs()[w]).0 == k;
                    lemma_map_at_index(self.pairs(), w);
                    if w < p {
                        assert(old_pairs[w].0 == k);
                        lemma_map_at_index(old_pairs, w);
                    } else {
                        assert(old_pairs[w + 1].0 == k);
                        lemma_map_at_index(old_pairs, w + 1);
                    }
                }
                assert(self@ =~= old(self)@.remove(key));
            }
        } else {
            proof {
                if old(self)@.contains_key(key) {
                    let w = choose|w: int| 0 <= w < old_pairs.len() && (#[trigger] old_pairs[w]).0 == key;
                    assert(false);
                }
                assert(self@ =~= old(self)@.remove(key));
            }
        }
    }

    /// A snapshot copy of the whole index.
    pub fn duplicate(&self) -> (r: ItemIndex)
        ensures
            r.pairs() == self.pairs(),
            r@ == self@,
            r.wf() == self.wf(),
    {
        let n = self.entries.len();
        let mut entries: Vec<(u128, Vec<u8>)> = Vec::new();
        let mut i: usize = 0;
        while i < n
            invariant
                n == self.pairs().len(),
                0 <= i <= n,
                entries@.len() == i,
                forall|j: int| 0 <= j < i
                    ==> ((#[trigger] entries@[j]).0, entries@[j].1@) == self.pairs()[j],
            decreases n - i,
        {
            let value = self.entries[i].1.clone();
            entries.push((self.entries[i].0, value));
            i = i + 1;
        }
        let r = ItemIndex { entries };
        proof {
            assert(r.pairs() =~= self.pairs());
        }
        r
    }
}

} // verus!
