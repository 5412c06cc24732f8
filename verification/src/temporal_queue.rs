//! The in-memory mirror of one queue: entries ordered by their 128-bit
//! delivery timestamp, with a capacity bound and a time-cut drain.

use vstd::prelude::*;
use vstd::pervasive::cloned;
use crate::errors::MoraError;
use crate::priority_queue::{sorted_pairs, NaivePriorityQueue, PriorityQueue};

verus! {

/// How many leading entries of a timestamp-sorted sequence fall at or before
/// the cut.
pub open spec fn cutoff<V>(s: Seq<(u128, V)>, ts: u128) -> int
    decreases s.len(),
{
    if s.len() == 0 {
        0
    } else if s[0].0 > ts {
        0
    } else {
        1 + cutoff(s.skip(1), ts)
    }
}

/// The cutoff lies within the sequence.
pub proof fn lemma_cutoff_range<V>(s: Seq<(u128, V)>, ts: u128)
    ensures
        0 <= cutoff(s, ts) <= s.len(),
    decreases s.len(),
{
    if s.len() != 0 && s[0].0 <= ts {
        lemma_cutoff_range(s.skip(1), ts);
    }
}

/// A prefix known to lie at or before the cut bounds the cutoff from below.
pub proof fn lemma_cutoff_lower<V>(s: Seq<(u128, V)>, ts: u128, p: int)
    requires
        0 <= p <= s.len(),
        forall|j: int| 0 <= j < p ==> (#[trigger] s[j]).0 <= ts,
    ensures
        cutoff(s, ts) >= p,
    decreases s.len(),
{
    lemma_cutoff_range(s, ts);
    if p > 0 {
        assert(s[0].0 <= ts);
        let t = s.skip(1);
        assert forall|j: int| 0 <= j < p - 1 implies (#[trigger] t[j]).0 <= ts by {
            assert(t[j] == s[j + 1]);
        }
        lemma_cutoff_lower(t, ts, p - 1);
    }
}

/// The cutoff is the unique boundary: everything before it is at or before
/// the cut, and the entry at it, if any, is after the cut.
pub proof fn lemma_cutoff_at<V>(s: Seq<(u128, V)>, ts: u128, p: int)
    requires
        0 <= p <= s.len(),
        forall|j: int| 0 <= j < p ==> (#[trigger] s[j]).0 <= ts,
        p < s.len() ==> s[p].0 > ts,
    ensures
        cutoff(s, ts) == p,
    decreases s.len(),
{
    if s.len() == 0 {
    } else if p == 0 {
        assert(s[0].0 > ts);
    } else {
        assert(s[0].0 <= ts);
        let t = s.skip(1);
        assert forall|j: int| 0 <= j < p - 1 implies (#[trigger] t[j]).0 <= ts by {
            assert(t[j] == s[j + 1]);
        }
        assert(p - 1 < t.len() ==> t[p - 1].0 > ts);
        lemma_cutoff_at(t, ts, p - 1);
    }
}

/// A queue of `(timestamp, value)` entries, earliest first, ties kept in
/// insertion order.
pub struct TemporalQueue<V> {
    inner: NaivePriorityQueue<V>,
    capacity: u128,
    pub len: u128,
}

impl<V: Clone> TemporalQueue<V> {
    /// The entries, earliest timestamp first.
    pub closed spec fn view(&self) -> Seq<(u128, V)> {
        self.inner.view_pairs()
    }

    pub closed spec fn spec_capacity(&self) -> u128 {
        self.capacity
    }

    /// The value of the public `len` counter.
    pub closed spec fn spec_len(&self) -> u128 {
        self.len
    }

    /// Well-formedness: the entries are sorted by timestamp, and the public
    /// `len` counter agrees with them and stays within the capacity.
    pub closed spec fn wf(&self) -> bool {
        &&& self.inner.pq_wf()
        &&& self.len == self@.len()
        &&& self.len <= self.capacity
    }

    /// An empty queue that can hold up to `capacity` entries.
    pub fn new(capacity: u128) -> (r: TemporalQueue<V>)
        ensures
            r.wf(),
            r@ == Seq::<(u128, V)>::empty(),
            r.spec_capacity() == capacity,
            r.spec_len() == 0,
    {
        TemporalQueue { inner: NaivePriorityQueue::default(), capacity, len: 0 }
    }

    pub fn is_empty(&self) -> (r: bool)
        requires
            self.wf(),
        ensures
            r == (self@.len() == 0),
    {
        self.len == 0
    }

    /// Inserts an entry at the position that keeps timestamps ascending,
    /// after every entry with the same timestamp; fails when the queue holds
    /// `capacity` entries already.
    pub fn enqueue(&mut self, timestamp: u128, value: V) -> (r: Result<(), MoraError>)
        requires
            old(self).wf(),
        ensures
            final(self).wf(),
            final(self).spec_capacity() == old(self).spec_capacity(),
            match r {
                Ok(_) => {
                    &&& old(self)@.len() < old(self).spec_capacity()
                    &&& final(self).spec_len() == old(self).spec_len() + 1
                    &&& exists|p: int|
                        {
                            &&& 0 <= p <= old(self)@.len()
                            &&& #[trigger] final(self)@ == old(self)@.insert(p, (timestamp, value))
                            &&& forall|j: int| 0 <= j < p ==> (#[trigger] old(self)@[j]).0
                                <= timestamp
                            &&& forall|j: int|
                                p <= j < old(self)@.len() ==> (#[trigger] old(self)@[j]).0
                                    > timestamp
                        }
                },
                Err(e) => {
                    &&& old(self)@.len() == old(self).spec_capacity()
                    &&& *final(self) == *old(self)
                    &&& e is QueueFull
                },
            },
    {
        if self.len == self.capacity {
            return Err(MoraError::QueueFull);
        }
        self.inner.enqueue(timestamp, value);
        self.len = self.len + 1;
        Ok(())
    }

    /// A copy of the earliest entry, without removal.
    pub fn peek(&self) -> (r: Option<(u128, V)>)
        requires
            self.wf(),
        ensures
            (r is None) == (self@.len() == 0),
            match r {
                Some(p) => self@.len() > 0 && p.0 == self@[0].0 && cloned(self@[0].1, p.1),
                None => true,
            },
    {
        self.inner.peek()
    }

    /// Removes and returns up to `count` values, earliest timestamp first.
    pub fn dequeue(&mut self, count: usize) -> (r: Vec<V>)
        requires
            old(self).wf(),
        ensures
            final(self).wf(),
            final(self).spec_capacity() == old(self).spec_capacity(),
            ({
                let k = if count as int <= old(self)@.len() {
                    count as int
                } else {
                    old(self)@.len() as int
                };
                &&& r@.len() == k
                &&& forall|i: int| 0 <= i < k ==> r@[i] == (#[trigger] old(self)@[i]).1
                &&& final(self)@ == old(self)@.skip(k)
                &&& final(self).spec_len() == old(self).spec_len() - k
            }),
    {
        let r = self.inner.dequeue(count);
        let taken = r.len() as u128;
        self.len = self.len - taken;
        r
    }

    /// Returns up to `max` of the entries with a timestamp at or before the
    /// cut, earliest first.  With `delete` exactly the returned entries
    /// leave the queue, without it the queue stays as it was, a pure peek.
    pub fn dequeue_until_limited(&mut self, timestamp: u128, max: usize, delete: bool) -> (r: Vec<
        (u128, V),
    >)
        requires
            old(self).wf(),
        ensures
            final(self).wf(),
            final(self).spec_capacity() == old(self).spec_capacity(),
            sorted_pairs(r@),
            forall|i: int| 0 <= i < r@.len() ==> (#[trigger] r@[i]).0 <= timestamp,
            ({
                let k = if cutoff(old(self)@, timestamp) <= max {
                    cutoff(old(self)@, timestamp)
                } else {
                    max as int
                };
                &&& 0 <= k <= old(self)@.len()
                &&& r@.len() == k
                &&& forall|i: int| 0 <= i < k ==> (#[trigger] r@[i]).0 == old(self)@[i].0
                    && cloned(old(self)@[i].1, r@[i].1)
                &&& if delete {
                    r@ == old(self)@.take(k) && final(self)@ == old(self)@.skip(k)
                        && final(self).spec_len() == old(self).spec_len() - k
                } else {
                    *final(self) == *old(self)
                }
            }),
    {
        let n = self.inner.len();
        let mut k: usize = 0;
        while k < n && k < max && self.inner.key_at(k) <= timestamp
            invariant
                old(self).wf(),
                self == old(self),
                n == self@.len(),
                0 <= k <= n,
                k <= max,
                forall|j: int| 0 <= j < k ==> (#[trigger] self@[j]).0 <= timestamp,
            decreases n - k,
        {
            k = k + 1;
        }
        proof {
            if k < max {
                assert(k == n || self@[k as int].0 > timestamp);
                assert forall|j: int| k <= j < self@.len() implies (#[trigger] self@[j]).0
                    > timestamp by {
                    if j > k {
                        assert(self@[k as int].0 <= self@[j].0);
                    }
                }
                lemma_cutoff_at(self@, timestamp, k as int);
            } else {
                lemma_cutoff_lower(self@, timestamp, k as int);
            }
        }
        let mut out: Vec<(u128, V)> = Vec::new();
        if delete {
            let mut keys: Vec<u128> = Vec::new();
            let mut i: usize = 0;
            while i < k
                invariant
                    self == old(self),
                    0 <= i <= k,
                    k <= self@.len(),
                    keys@.len() == i,
                    forall|j: int| 0 <= j < i ==> keys@[j] == (#[trigger] self@[j]).0,
                decreases k - i,
            {
                keys.push(self.inner.key_at(i));
                i = i + 1;
            }
            let mut values = self.inner.dequeue(k);
            let taken = values.len() as u128;
            self.len = self.len - taken;
            proof {
                assert forall|a: int| 0 <= a < k implies
                    values@[a - 0] == (#[trigger] old(self)@[a]).1 by {
                    assert(values@[a] == old(self)@[a].1);
                }
            }
            let mut j: usize = 0;
            while j < k
                invariant
                    0 <= j <= k,
                    k <= old(self)@.len(),
                    k == keys@.len(),
                    values@.len() == k - j,
                    out@.len() == j,
                    forall|a: int| 0 <= a < j ==> out@[a] == (#[trigger] old(self)@[a]),
                    forall|a: int| j <= a < k ==> values@[a - j] == (#[trigger] old(self)@[a]).1,
                    forall|a: int| 0 <= a < k ==> keys@[a] == (#[trigger] old(self)@[a]).0,
                decreases k - j,
            {
                let key = keys[j];
                let ghost values_before = values@;
                let value = values.remove(0);
                out.push((key, value));
                proof {
                    assert(values@ =~= values_before.skip(1));
                    assert(value == values_before[0]);
                    assert(value == old(self)@[j as int].1);
                    assert(key == old(self)@[j as int].0);
                    assert((key, value) == old(self)@[j as int]);
                    assert forall|a: int| j + 1 <= a < k implies
                        values@[a - (j + 1)] == (#[trigger] old(self)@[a]).1 by {
                        assert(values_before[a - j] == old(self)@[a].1);
                        assert(values@[a - j - 1] == values_before[a - j]);
                    }
                }
                j = j + 1;
            }
            proof {
                assert(out@ =~= old(self)@.take(k as int));
            }
        } else {
            let mut i: usize = 0;
            while i < k
                invariant
                    old(self).wf(),
                    self == old(self),
                    0 <= i <= k,
                    k <= self@.len(),
                    out@.len() == i,
                    forall|j: int| 0 <= j < i ==> (#[trigger] out@[j]).0 == self@[j].0
                        && cloned(self@[j].1, out@[j].1),
                decreases k - i,
            {
                let key = self.inner.key_at(i);
                let value = self.inner.value_at(i).clone();
                out.push((key, value));
                i = i + 1;
            }
        }
        proof {
            let ghost kk = k as int;
            assert(out@.len() == kk);
            assert forall|a: int, b: int| 0 <= a < b < out@.len() implies
                (#[trigger] out@[a]).0 <= (#[trigger] out@[b]).0 by {
                assert(out@[a].0 == old(self)@[a].0);
                assert(out@[b].0 == old(self)@[b].0);
            }
        }
        out
    }

    /// Returns every entry with a timestamp at or before the cut, earliest
    /// first; they are the entries a consumer is owed at that time.  With
    /// `delete` the entries leave the queue, without it the queue stays as
    /// it was, a pure peek.
    pub fn dequeue_until(&mut self, timestamp: u128, delete: bool) -> (r: Vec<(u128, V)>)
        requires
            old(self).wf(),
        ensures
            final(self).wf(),
            final(self).spec_capacity() == old(self).spec_capacity(),
            sorted_pairs(r@),
            forall|i: int| 0 <= i < r@.len() ==> (#[trigger] r@[i]).0 <= timestamp,
            ({
                let k = cutoff(old(self)@, timestamp);
                &&& 0 <= k <= old(self)@.len()
                &&& r@.len() == k
                &&& forall|i: int| 0 <= i < k ==> (#[trigger] r@[i]).0 == old(self)@[i].0
                    && cloned(old(self)@[i].1, r@[i].1)
                &&& if delete {
                    r@ == old(self)@.take(k) && final(self)@ == old(self)@.skip(k)
                        && final(self).spec_len() == old(self).spec_len() - k
                } else {
                    *final(self) == *old(self)
                }
            }),
    {
        let n = self.inner.len();
        proof {
            lemma_cutoff_range(old(self)@, timestamp);
        }
        self.dequeue_until_limited(timestamp, n, delete)
    }

    /// What `wf` gives every client: the entries are sorted by timestamp
    /// and the public `len` counter agrees with them.
    pub proof fn lemma_wf_sorted(q: TemporalQueue<V>)
        requires
            q.wf(),
        ensures
            sorted_pairs(q@),
            q.spec_len() == q@.len(),
    {
    }
}

impl<V: Clone> Default for TemporalQueue<V> {
    /// An unbounded queue.
    fn default() -> (r: Self)
        ensures
            r.wf(),
            r@ == Seq::<(u128, V)>::empty(),
            r.spec_capacity() == u128::MAX,
            r.spec_len() == 0,
    {
        TemporalQueue::new(u128::MAX)
    }
}

} // verus!
