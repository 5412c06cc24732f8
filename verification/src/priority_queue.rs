//! In-memory priority queues keyed by a 128-bit timestamp.
//!
//! [`NaivePriorityQueue`] keeps duplicate keys and is stable: entries with
//! equal keys come out in insertion order.  [`DumbPriorityQueue`] keeps one
//! entry per key, the newest value winning.  Both hold their entries sorted
//! by key, least first.

use vstd::prelude::*;
use vstd::pervasive::cloned;

verus! {

/// Entries sorted by non-decreasing key.
pub open spec fn sorted_pairs<V>(s: Seq<(u128, V)>) -> bool {
    forall|i: int, j: int| 0 <= i < j < s.len() ==> (#[trigger] s[i]).0 <= (#[trigger] s[j]).0
}

/// Entries sorted by strictly increasing key, so every key is unique.
pub open spec fn sorted_pairs_strict<V>(s: Seq<(u128, V)>) -> bool {
    forall|i: int, j: int| 0 <= i < j < s.len() ==> (#[trigger] s[i]).0 < (#[trigger] s[j]).0
}

/// A queue of `(key, value)` entries served least key first.
pub trait PriorityQueue<V>: Sized {
    /// The entries, least key first.
    spec fn view_pairs(&self) -> Seq<(u128, V)>;

    fn is_empty(&self) -> (r: bool)
        ensures
            r == (self.view_pairs().len() == 0),
    ;

    fn len(&self) -> (r: usize)
        ensures
            r == self.view_pairs().len(),
    ;

    fn enqueue(&mut self, key: u128, value: V) -> (r: Option<V>);

    fn dequeue(&mut self, count: usize) -> (r: Vec<V>);

    fn peek(&self) -> (r: Option<(u128, V)>);
}

struct Node<V> {
    key: u128,
    value: V,
}

/// The stable queue: duplicate keys allowed, insertion order kept among them.
pub struct NaivePriorityQueue<V> {
    items: Vec<Node<V>>,
}

impl<V: Clone> NaivePriorityQueue<V> {
    /// The queue is well-formed when its entries are sorted by key.
    pub open spec fn pq_wf(&self) -> bool {
        sorted_pairs(self.view_pairs())
    }

    /// The key of the entry at a position, least key first.
    pub fn key_at(&self, i: usize) -> (r: u128)
        requires
            i < self.view_pairs().len(),
        ensures
            r == self.view_pairs()[i as int].0,
    {
        self.items[i].key
    }

    /// The value of the entry at a position.
    pub fn value_at(&self, i: usize) -> (r: &V)
        requires
            i < self.view_pairs().len(),
        ensures
            *r == self.view_pairs()[i as int].1,
    {
        &self.items[i].value
    }
}

impl<V: Clone> Default for NaivePriorityQueue<V> {
    fn default() -> (r: Self)
        ensures
            r.pq_wf(),
            r.view_pairs() == Seq::<(u128, V)>::empty(),
    {
        let r = NaivePriorityQueue { items: Vec::new() };
        proof {
            assert(r.view_pairs() =~= Seq::<(u128, V)>::empty());
        }
        r
    }
}

impl<V: Clone> PriorityQueue<V> for NaivePriorityQueue<V> {
    closed spec fn view_pairs(&self) -> Seq<(u128, V)> {
        Seq::new(self.items@.len(), |i: int| (self.items@[i].key, self.items@[i].value))
    }

    fn is_empty(&self) -> (r: bool) {
        self.items.len() == 0
    }

    fn len(&self) -> (r: usize) {
        self.items.len()
    }

    /// Inserts the value after every entry with the same or a smaller key,
    /// and hands back a copy of it.
    fn enqueue(&mut self, key: u128, value: V) -> (r: Option<V>)
        ensures
            r matches Some(v) && cloned(value, v),
            old(self).pq_wf() ==> {
                &&& final(self).pq_wf()
                &&& exists|p: int|
                    {
                        &&& 0 <= p <= old(self).view_pairs().len()
                        &&& #[trigger] final(self).view_pairs() == old(self).view_pairs().insert(
                            p,
                            (key, value),
                        )
                        &&& forall|j: int| 0 <= j < p ==> (#[trigger] old(self).view_pairs()[j]).0
                            <= key
                        &&& forall|j: int|
                            p <= j < old(self).view_pairs().len()
                                ==> (#[trigger] old(self).view_pairs()[j]).0 > key
                    }
            },
    {
        let ghost old_pairs = self.view_pairs();
        let ret = value.clone();
        let n = self.items.len();
        let mut i: usize = 0;
        while i < n && self.items[i].key <= key
            invariant
                n == self.items@.len(),
                0 <= i <= n,
                self == old(self),
                forall|j: int| 0 <= j < i ==> (#[trigger] self.view_pairs()[j]).0 <= key,
            decreases n - i,
        {
            i = i + 1;
        }
        proof {
            assert(i == n || old_pairs[i as int].0 > key);
        }
        self.items.insert(i, Node { key, value });
        proof {
            assert(self.view_pairs() =~= old_pairs.insert(i as int, (key, value)));
            if sorted_pairs(old_pairs) {
                let p = i as int;
                assert forall|a: int, b: int| 0 <= a < b < self.view_pairs().len() implies
                    (#[trigger] self.view_pairs()[a]).0 <= (#[trigger] self.view_pairs()[b]).0 by {
                    let sp = self.view_pairs();
                    if a < p && b == p {
                        assert(sp[a] == old_pairs[a]);
                    } else if a == p && b > p {
                        assert(sp[b] == old_pairs[b - 1]);
                        assert(old_pairs[b - 1].0 > key);
                    } else if a < p && b > p {
                        assert(sp[a] == old_pairs[a] && sp[b] == old_pairs[b - 1]);
                        if a == b - 1 {
                            assert(sp[a].0 <= key && old_pairs[b - 1].0 > key);
                        }
                    } else if b < p {
                        assert(sp[a] == old_pairs[a] && sp[b] == old_pairs[b]);
                    } else if a > p {
                        assert(sp[a] == old_pairs[a - 1] && sp[b] == old_pairs[b - 1]);
                    }
                }
                assert(forall|j: int| p <= j < old_pairs.len()
                    ==> (#[trigger] old_pairs[j]).0 > key);
            }
        }
        Some(ret)
    }

    /// Removes and returns up to `count` values, least key first.
    fn dequeue(&mut self, count: usize) -> (r: Vec<V>)
        ensures
            old(self).pq_wf() ==> {
                let k = if count as int <= old(self).view_pairs().len() {
                    count as int
                } else {
                    old(self).view_pairs().len() as int
                };
                &&& final(self).pq_wf()
                &&& r@.len() == k
                &&& forall|i: int| 0 <= i < k ==> r@[i] == (#[trigger] old(self).view_pairs()[i]).1
                &&& final(self).view_pairs() == old(self).view_pairs().skip(k)
            },
    {
        let ghost old_pairs = self.view_pairs();
        let mut out: Vec<V> = Vec::new();
        let n = self.items.len();
        let k = if count < n {
            count
        } else {
            n
        };
        let mut i: usize = 0;
        while i < k
            invariant
                k <= n,
                n == old_pairs.len(),
                0 <= i <= k,
                out@.len() == i,
                self.view_pairs() == old_pairs.skip(i as int),
                forall|j: int| 0 <= j < i ==> out@[j] == (#[trigger] old_pairs[j]).1,
            decreases k - i,
        {
            let ghost before = self.view_pairs();
            proof {
                assert(before.len() == old_pairs.len() - i);
                assert(self.items@.len() == before.len());
            }
            let node = self.items.remove(0);
            out.push(node.value);
            proof {
                assert(before[0] == (node.key, node.value));
                assert(before[0] == old_pairs[i as int]);
                assert(self.view_pairs() =~= before.skip(1));
                assert(before.skip(1) =~= old_pairs.skip(i + 1));
                assert(node.value == old_pairs[i as int].1);
            }
            i = i + 1;
        }
        proof {
            if sorted_pairs(old_pairs) {
                assert(sorted_pairs(self.view_pairs()));
            }
        }
        out
    }

    /// A copy of the least-keyed entry, without removal.
    fn peek(&self) -> (r: Option<(u128, V)>)
        ensures
            (r is None) == (self.view_pairs().len() == 0),
            match r {
                Some(p) => self.view_pairs().len() > 0 && p.0 == self.view_pairs()[0].0
                    && cloned(self.view_pairs()[0].1, p.1),
                None => true,
            },
    {
        if self.items.len() == 0 {
            None
        } else {
            Some((self.items[0].key, self.items[0].value.clone()))
        }
    }
}

/// The keyed queue: one entry per key, an enqueue on a taken key replaces
/// the value and hands the old one back.
pub struct DumbPriorityQueue<V> {
    items: Vec<Node<V>>,
}

impl<V: Clone> DumbPriorityQueue<V> {
    /// The queue is well-formed when its entries are sorted by strictly
    /// ascending key.
    pub open spec fn pq_wf(&self) -> bool {
        sorted_pairs_strict(self.view_pairs())
    }
}

impl<V: Clone> Default for DumbPriorityQueue<V> {
    fn default() -> (r: Self)
        ensures
            r.pq_wf(),
            r.view_pairs() == Seq::<(u128, V)>::empty(),
    {
        let r = DumbPriorityQueue { items: Vec::new() };
        proof {
            assert(r.view_pairs() =~= Seq::<(u128, V)>::empty());
        }
        r
    }
}

impl<V: Clone> PriorityQueue<V> for DumbPriorityQueue<V> {
    closed spec fn view_pairs(&self) -> Seq<(u128, V)> {
        Seq::new(self.items@.len(), |i: int| (self.items@[i].key, self.items@[i].value))
    }

    fn is_empty(&self) -> (r: bool) {
        self.items.len() == 0
    }

    fn len(&self) -> (r: usize) {
        self.items.len()
    }

    /// Upserts `key -> value`; the replaced value, if any, is returned.
    fn enqueue(&mut self, key: u128, value: V) -> (r: Option<V>)
        ensures
            old(self).pq_wf() ==> {
                &&& final(self).pq_wf()
                &&& match r {
                    Some(v) => exists|p: int|
                        {
                            &&& 0 <= p < old(self).view_pairs().len()
                            &&& (#[trigger] old(self).view_pairs()[p]) == (key, v)
                            &&& final(self).view_pairs() == old(self).view_pairs().update(
                                p,
                                (key, value),
                            )
                        },
                    None => {
                        &&& forall|j: int| 0 <= j < old(self).view_pairs().len()
                            ==> (#[trigger] old(self).view_pairs()[j]).0 != key
                        &&& exists|p: int|
                            {
                                &&& 0 <= p <= old(self).view_pairs().len()
                                &&& #[trigger] final(self).view_pairs() == old(
                                    self,
                                ).view_pairs().insert(p, (key, value))
                            }
                    },
                }
            },
    {
        let ghost old_pairs = self.view_pairs();
        let n = self.items.len();
        let mut i: usize = 0;
        while i < n && self.items[i].key < key
            invariant
                n == self.items@.len(),
                0 <= i <= n,
                self == old(self),
                forall|j: int| 0 <= j < i ==> (#[trigger] self.view_pairs()[j]).0 < key,
            decreases n - i,
        {
            i = i + 1;
        }
        proof {
            assert(i == n || old_pairs[i as int].0 >= key);
        }
        if i < n && self.items[i].key == key {
            let old_node = self.items.remove(i);
            self.items.insert(i, Node { key, value });
            proof {
                let p = i as int;
                assert(self.view_pairs() =~= old_pairs.update(p, (key, value)));
                if sorted_pairs_strict(old_pairs) {
                    assert(old_pairs[p] == (key, old_node.value));
                    assert forall|a: int, b: int| 0 <= a < b < self.view_pairs().len() implies
                        (#[trigger] self.view_pairs()[a]).0 < (#[trigger] self.view_pairs()[b]).0 by {
                        assert(self.view_pairs()[a].0 == old_pairs[a].0);
                        assert(self.view_pairs()[b].0 == old_pairs[b].0);
                    }
                }
            }
            Some(old_node.value)
        } else {
            self.items.insert(i, Node { key, value });
            proof {
                let p = i as int;
                assert(self.view_pairs() =~= old_pairs.insert(p, (key, value)));
                if sorted_pairs_strict(old_pairs) {
                    assert forall|j: int| 0 <= j < old_pairs.len() implies
                        (#[trigger] old_pairs[j]).0 != key by {
                        if j >= p {
                            assert(old_pairs[p].0 <= old_pairs[j].0);
                        }
                    }
                    assert forall|a: int, b: int| 0 <= a < b < self.view_pairs().len() implies
                        (#[trigger] self.view_pairs()[a]).0 < (#[trigger] self.view_pairs()[b]).0 by {
                        let sp = self.view_pairs();
                        if a < p && b == p {
                            assert(sp[a] == old_pairs[a]);
                        } else if a == p && b > p {
                            assert(sp[b] == old_pairs[b - 1]);
                            assert(old_pairs[b - 1].0 >= key);
                            assert(old_pairs[b - 1].0 != key);
                        } else if a < p && b > p {
                            assert(sp[a] == old_pairs[a] && sp[b] == old_pairs[b - 1]);
                            if a == b - 1 {
                                assert(sp[a].0 < key && old_pairs[b - 1].0 >= key);
                            }
                        } else if b < p {
                            assert(sp[a] == old_pairs[a] && sp[b] == old_pairs[b]);
                        } else if a > p {
                            assert(sp[a] == old_pairs[a - 1] && sp[b] == old_pairs[b - 1]);
                        }
                    }
                }
            }
            None
        }
    }

    /// Removes and returns up to `count` values, least key first.
    fn dequeue(&mut self, count: usize) -> (r: Vec<V>)
        ensures
            old(self).pq_wf() ==> {
                let k = if count as int <= old(self).view_pairs().len() {
                    count as int
                } else {
                    old(self).view_pairs().len() as int
                };
                &&& final(self).pq_wf()
                &&& r@.len() == k
                &&& forall|i: int| 0 <= i < k ==> r@[i] == (#[trigger] old(self).view_pairs()[i]).1
                &&& final(self).view_pairs() == old(self).view_pairs().skip(k)
            },
    {
        let ghost old_pairs = self.view_pairs();
        let mut out: Vec<V> = Vec::new();
        let n = self.items.len();
        let k = if count < n {
            count
        } else {
            n
        };
        let mut i: usize = 0;
        while i < k
            invariant
                k <= n,
                n == old_pairs.len(),
                0 <= i <= k,
                out@.len() == i,
                self.view_pairs() == old_pairs.skip(i as int),
                forall|j: int| 0 <= j < i ==> out@[j] == (#[trigger] old_pairs[j]).1,
            decreases k - i,
        {
            let ghost before = self.view_pairs();
            proof {
                assert(before.len() == old_pairs.len() - i);
                assert(self.items@.len() == before.len());
            }
            let node = self.items.remove(0);
            out.push(node.value);
            proof {
                assert(before[0] == (node.key, node.value));
                assert(before[0] == old_pairs[i as int]);
                assert(self.view_pairs() =~= before.skip(1));
                assert(before.skip(1) =~= old_pairs.skip(i + 1));
                assert(node.value == old_pairs[i as int].1);
            }
            i = i + 1;
        }
        proof {
            if sorted_pairs_strict(old_pairs) {
                assert(sorted_pairs_strict(self.view_pairs()));
            }
        }
        out
    }

    /// A copy of the least-keyed entry, without removal.
    fn peek(&self) -> (r: Option<(u128, V)>)
        ensures
            (r is None) == (self.view_pairs().len() == 0),
            match r {
                Some(p) => self.view_pairs().len() > 0 && p.0 == self.view_pairs()[0].0
                    && cloned(self.view_pairs()[0].1, p.1),
                None => true,
            },
    {
        if self.items.len() == 0 {
            None
        } else {
            Some((self.items[0].key, self.items[0].value.clone()))
        }
    }
}

} // verus!
