//! The queue pool: one registry of named queues, each backed by one WAL
//! container and one temporal queue kept coherent under the write-then-index
//! rule — the durable append returns before the in-memory queue changes, and
//! a durable tombstone is written before an entry leaves memory.

use vstd::prelude::*;
use vstd::pervasive::cloned;
use crate::errors::{MoraError, MoraResult, StorageError};
use crate::priority_queue::sorted_pairs;
use crate::registry::{keys_unique, lemma_table_at_index, lemma_table_update, Registry};
use crate::storage::{batch_view, tombstone_records, WalFileStorage};
use crate::codec::{record_bytes, replay_from, LogRecord};
use crate::temporal_queue::{cutoff, TemporalQueue};

verus! {

pub type QueueId = String;

pub type Bytes = Vec<u8>;

/// What `regex::Regex::new` decides: whether the pattern is a valid regular
/// expression.
pub uninterp spec fn regex_ok(pattern: Seq<char>) -> bool;

/// What `regex::Regex::is_match` decides: whether the text matches the
/// pattern.
pub uninterp spec fn regex_match(pattern: Seq<char>, text: Seq<char>) -> bool;

/// Relies on `regex::Regex::new` and `regex::Regex::is_match`: whether the
/// pattern compiles, and whether it matches the text; for a given pattern
/// and text both depend on their characters alone.
#[verifier::external_body]
fn regex_is_match(pattern: &String, text: &String) -> (r: Option<bool>)
    ensures
        (r is Some) == regex_ok(pattern@),
        r matches Some(b) ==> b == regex_match(pattern@, text@),
{
    match regex::Regex::new(pattern.as_str()) {
        Ok(re) => Some(re.is_match(text.as_str())),
        Err(_) => None,
    }
}

/// The ids among `keys` whose text matches the pattern, in order.
pub open spec fn matched_ids(keys: Seq<Seq<char>>, pattern: Seq<char>) -> Seq<Seq<char>>
    decreases keys.len(),
{
    if keys.len() == 0 {
        Seq::empty()
    } else {
        let rest = matched_ids(keys.drop_last(), pattern);
        if regex_match(pattern, keys.last()) {
            rest.push(keys.last())
        } else {
            rest
        }
    }
}

/// A byte vector clone carries the same bytes.
pub proof fn lemma_cloned_bytes(a: Vec<u8>, b: Vec<u8>)
    requires
        cloned(a, b),
    ensures
        a@ == b@,
{
    if a == b {
    } else {
        assert(b.len() == a.len());
        assert forall|i: int| 0 <= i < a@.len() implies a@[i] == b@[i] by {
            assert(cloned::<u8>(a[i], b[i]));
        }
        assert(a@ =~= b@);
    }
}

/// The cut position is decided by the keys alone, so it agrees between an
/// event list and its deep view.
pub proof fn lemma_cutoff_view(s: Seq<(u128, Bytes)>, ts: u128)
    ensures
        cutoff(batch_view(s), ts) == cutoff(s, ts),
    decreases s.len(),
{
    if s.len() == 0 {
        assert(batch_view(s) =~= Seq::<(u128, Seq<u8>)>::empty());
    } else {
        assert(batch_view(s)[0].0 == s[0].0);
        assert(batch_view(s).skip(1) =~= batch_view(s.skip(1)));
        lemma_cutoff_view(s.skip(1), ts);
    }
}

/// The pool: named queues, each the in-memory mirror of one container.
pub struct QueuePool {
    queues: Registry<TemporalQueue<Bytes>>,
    storage: WalFileStorage,
}

impl QueuePool {
    /// The storage engine under the pool.
    pub closed spec fn spec_storage(&self) -> WalFileStorage {
        self.storage
    }

    pub closed spec fn has_queue(&self, id: Seq<char>) -> bool {
        self.queues@.contains_key(id)
    }

    /// The entries of one queue, earliest timestamp first.
    pub closed spec fn queue_entries(&self, id: Seq<char>) -> Seq<(u128, Seq<u8>)> {
        batch_view(self.queues@[id]@)
    }

    /// The queue ids, oldest first.
    pub closed spec fn queue_ids(&self) -> Seq<Seq<char>> {
        self.queues.keys_seq()
    }

    /// Well-formedness: sound tables, each queue sorted and unbounded, and
    /// one container per queue — the pool and the engine name the same ids.
    pub closed spec fn wf(&self) -> bool {
        &&& self.queues.wf()
        &&& self.storage.wf()
        &&& forall|id: Seq<char>|
            #![trigger self.queues@.contains_key(id)]
            #![trigger self.storage.has_container(id)]
            self.queues@.contains_key(id) == self.storage.has_container(id)
        &&& forall|id: Seq<char>| #[trigger]
            self.queues@.contains_key(id) ==> self.queues@[id].wf()
                && self.queues@[id].spec_capacity() == u128::MAX
    }

    /// Whether two pool states agree on every queue but `id`.
    pub open spec fn other_queues_unchanged(pre: QueuePool, post: QueuePool, id: Seq<char>) -> bool {
        forall|id2: Seq<char>|
            id2 != id ==> {
                &&& #[trigger] post.has_queue(id2) == pre.has_queue(id2)
                &&& (pre.has_queue(id2) ==> post.queue_entries(id2) == pre.queue_entries(id2))
            }
    }

    /// Builds the pool over a loaded engine: every container gets a queue
    /// filled with its index entries in ascending key order.
    pub fn new(storage: WalFileStorage) -> (r: MoraResult<QueuePool>)
        requires
            storage.wf(),
        ensures
            r matches Ok(p) && {
                &&& p.wf()
                &&& p.spec_storage() == storage
                &&& p.queue_ids() == storage.container_ids()
                &&& forall|id: Seq<char>| #[trigger] p.has_queue(id) == storage.has_container(id)
                &&& forall|id: Seq<char>| #[trigger]
                    p.has_queue(id) ==> p.queue_entries(id) == storage.index_pairs(id)
            },
    {
        let ids = match storage.list_containers() {
            Ok(ids) => ids,
            Err(e) => {
                return Err(e);
            },
        };
        proof {
            WalFileStorage::lemma_container_ids_unique(storage);
        }
        let mut queues: Registry<TemporalQueue<Bytes>> = Registry::new();
        let count = ids.len();
        let mut i: usize = 0;
        while i < count
            invariant
                storage.wf(),
                count == ids@.len(),
                ids@.len() == storage.container_ids().len(),
                forall|j: int| 0 <= j < count ==> ids@[j]@ == storage.container_ids()[j],
                keys_unique(storage.container_ids()),
                forall|j: int| 0 <= j < storage.container_ids().len()
                    ==> storage.has_container(#[trigger] storage.container_ids()[j]),
                0 <= i <= count,
                queues.wf(),
                queues.keys_seq() == storage.container_ids().take(i as int),
                forall|id: Seq<char>| #[trigger] queues@.contains_key(id) ==> {
                    &&& storage.has_container(id)
                    &&& queues@[id].wf()
                    &&& queues@[id].spec_capacity() == u128::MAX
                    &&& batch_view(queues@[id]@) == storage.index_pairs(id)
                },
            decreases count - i,
        {
            let id = ids[i].clone();
            let idx = match storage.get_all_items(&id) {
                Ok(idx) => idx,
                Err(e) => {
                    proof {
                        assert(storage.has_container(storage.container_ids()[i as int]));
                        assert(false);
                    }
                    return Err(e);
                },
            };
            let mut q: TemporalQueue<Bytes> = TemporalQueue::default();
            let n = idx.len();
            let mut j: usize = 0;
            while j < n
                invariant
                    idx.wf(),
                    n == idx.pairs().len(),
                    0 <= j <= n,
                    q.wf(),
                    q.spec_capacity() == u128::MAX,
                    batch_view(q@) == idx.pairs().subrange(0, j as int),
                decreases n - j,
            {
                let ghost qpre = q;
                let key = idx.key_at(j);
                let src = idx.payload_at(j);
                let payload = src.clone();
                proof {
                    lemma_cloned_bytes(*src, payload);
                }
                let res = q.enqueue(key, payload);
                proof {
                    assert(batch_view(qpre@).len() == qpre@.len());
                    assert(qpre@.len() == j);
                    assert(qpre@.len() < u128::MAX) by {
                        assert(j <= usize::MAX);
                    }
                    assert(res is Ok);
                    let p = choose|p: int|
                        0 <= p <= qpre@.len() && #[trigger] q@ == qpre@.insert(p, (key, payload))
                            && (forall|a: int| 0 <= a < p ==> (#[trigger] qpre@[a]).0 <= key)
                            && (forall|a: int|
                            p <= a < qpre@.len() ==> (#[trigger] qpre@[a]).0 > key);
                    if p < j {
                        assert(qpre@[p].0 > key);
                        assert(batch_view(qpre@)[p].0 == qpre@[p].0);
                        assert(idx.pairs()[p].0 < idx.pairs()[j as int].0);
                        assert(false);
                    }
                    assert(q@ =~= qpre@.push((key, payload)));
                    assert(batch_view(q@) =~= idx.pairs().subrange(0, j + 1));
                }
                j = j + 1;
            }
            proof {
                assert(idx.pairs().subrange(0, n as int) =~= idx.pairs());
            }
            let ghost qspre = queues;
            proof {
                if queues@.contains_key(id@) {
                    let w = choose|w: int|
                        0 <= w < qspre.keys_seq().len() && qspre.keys_seq()[w] == id@;
                    assert(storage.container_ids()[w] == id@);
                    assert(storage.container_ids()[i as int] == id@);
                    assert(false);
                }
            }
            queues.insert(id, q);
            proof {
                assert(queues.keys_seq() =~= storage.container_ids().take(i + 1));
                assert forall|id2: Seq<char>| #[trigger] queues@.contains_key(id2) implies {
                    &&& storage.has_container(id2)
                    &&& queues@[id2].wf()
                    &&& queues@[id2].spec_capacity() == u128::MAX
                    &&& batch_view(queues@[id2]@) == storage.index_pairs(id2)
                } by {
                    if id2 != ids@[i as int]@ {
                        assert(qspre@.contains_key(id2));
                    } else {
                        assert(queues@[id2] == q);
                        assert(storage.has_container(storage.container_ids()[i as int]));
                    }
                }
            }
            i = i + 1;
        }
        let p = QueuePool { queues, storage };
        proof {
            assert(p.queues.keys_seq() =~= p.storage.container_ids());
            assert forall|id: Seq<char>|
                #![trigger p.queues@.contains_key(id)]
                #![trigger p.storage.has_container(id)]
                p.queues@.contains_key(id) == p.storage.has_container(id) by {
                if p.storage.has_container(id) {
                    WalFileStorage::lemma_container_ids_unique(p.storage);
                    let w = choose|w: int|
                        0 <= w < p.storage.container_ids().len()
                            && p.storage.container_ids()[w] == id;
                    assert(p.queues.keys_seq()[w] == id);
                }
            }
        }
        Ok(p)
    }

    /// Creates a queue: its WAL container first, then its empty temporal
    /// queue.
    pub fn create_queue(&mut self, id: QueueId) -> (r: MoraResult<()>)
        requires
            old(self).wf(),
        ensures
            final(self).wf(),
            match r {
                Ok(_) => {
                    &&& !old(self).has_queue(id@)
                    &&& final(self).has_queue(id@)
                    &&& final(self).queue_entries(id@) == Seq::<(u128, Seq<u8>)>::empty()
                    &&& final(self).spec_storage().has_container(id@)
                    &&& final(self).spec_storage().records_of(id@) == Seq::<LogRecord>::empty()
                    &&& final(self).spec_storage().index_map(id@) == Map::<u128, Seq<u8>>::empty()
                    &&& final(self).spec_storage().log_of(id@) == Seq::<u8>::empty()
                    &&& final(self).queue_ids() == old(self).queue_ids().push(id@)
                    &&& Self::other_queues_unchanged(*old(self), *final(self), id@)
                    &&& WalFileStorage::others_unchanged(
                        old(self).spec_storage(),
                        final(self).spec_storage(),
                        id@,
                    )
                },
                Err(e) => {
                    &&& old(self).has_queue(id@)
                    &&& *final(self) == *old(self)
                    &&& e matches MoraError::QueueAlreadyExists(s) && s@ == id@
                },
            },
    {
        if self.queues.contains(&id) {
            return Err(MoraError::QueueAlreadyExists(id));
        }
        let ghost pre = *self;
        match self.storage.create_container(&id) {
            // The pool names a container for every queue, so a fresh queue id
            // cannot collide with an existing container.
            Err(e) => {
                proof {
                    assert(false);
                }
                Err(e)
            },
            Ok(_) => {
                let q: TemporalQueue<Bytes> = TemporalQueue::default();
                self.queues.insert(id, q);
                proof {
                    assert(batch_view(q@) =~= Seq::<(u128, Seq<u8>)>::empty());
                    assert forall|id2: Seq<char>|
                        #![trigger self.queues@.contains_key(id2)]
                        #![trigger self.storage.has_container(id2)]
                        self.queues@.contains_key(id2) == self.storage.has_container(id2) by {}
                }
                Ok(())
            },
        }
    }

    /// Deletes a queue and its container irreversibly.
    pub fn delete_queue(&mut self, id: QueueId) -> (r: MoraResult<QueueId>)
        requires
            old(self).wf(),
        ensures
            final(self).wf(),
            match r {
                Ok(rid) => {
                    &&& old(self).has_queue(id@)
                    &&& rid@ == id@
                    &&& !final(self).has_queue(id@)
                    &&& !final(self).spec_storage().has_container(id@)
                    &&& Self::other_queues_unchanged(*old(self), *final(self), id@)
                    &&& WalFileStorage::others_unchanged(
                        old(self).spec_storage(),
                        final(self).spec_storage(),
                        id@,
                    )
                },
                Err(e) => {
                    &&& !old(self).has_queue(id@)
                    &&& *final(self) == *old(self)
                    &&& e matches MoraError::QueueNotFound(s) && s@ == id@
                },
            },
    {
        if !self.queues.contains(&id) {
            return Err(MoraError::QueueNotFound(id));
        }
        match self.storage.delete_container(&id) {
            // A known queue always has its container.
            Err(e) => {
                proof {
                    assert(false);
                }
                Err(e)
            },
            Ok(_) => {
                self.queues.remove(&id);
                proof {
                    assert forall|id2: Seq<char>|
                        #![trigger self.queues@.contains_key(id2)]
                        #![trigger self.storage.has_container(id2)]
                        self.queues@.contains_key(id2) == self.storage.has_container(id2) by {}
                }
                Ok(id)
            },
        }
    }

    /// A shared borrow of one queue.
    pub fn get_queue(&self, id: &QueueId) -> (r: MoraResult<&TemporalQueue<Bytes>>)
        requires
            self.wf(),
        ensures
            match r {
                Ok(q) => {
                    &&& self.has_queue(id@)
                    &&& q.wf()
                    &&& batch_view(q@) == self.queue_entries(id@)
                },
                Err(e) => {
                    &&& !self.has_queue(id@)
                    &&& e matches MoraError::QueueNotFound(s) && s@ == id@
                },
            },
    {
        match self.queues.get(id) {
            Some(q) => Ok(q),
            None => Err(MoraError::QueueNotFound(id.clone())),
        }
    }

    /// A mutable borrow of one queue.  The caller that mutates through it
    /// answers for keeping the queue well-formed.
    pub fn get_queue_mut(&mut self, id: &QueueId) -> (r: MoraResult<&mut TemporalQueue<Bytes>>)
        requires
            old(self).wf(),
        ensures
            match r {
                Ok(q) => {
                    &&& old(self).has_queue(id@)
                    &&& q.wf()
                    &&& q.spec_capacity() == u128::MAX
                    &&& batch_view((*q)@) == old(self).queue_entries(id@)
                    &&& final(self).spec_storage() == old(self).spec_storage()
                    &&& final(self).queue_ids() == old(self).queue_ids()
                    &&& final(self).has_queue(id@)
                    &&& final(self).queue_entries(id@) == batch_view((*final(q))@)
                    &&& Self::other_queues_unchanged(*old(self), *final(self), id@)
                    &&& (final(q).wf() && final(q).spec_capacity() == u128::MAX
                        ==> final(self).wf())
                },
                Err(e) => {
                    &&& !old(self).has_queue(id@)
                    &&& *final(self) == *old(self)
                    &&& e matches MoraError::QueueNotFound(s) && s@ == id@
                },
            },
    {
        let ghost pre = *self;
        match self.queues.get_mut(id) {
            Some(q) => {
                proof {
                    let i = choose|i: int|
                        0 <= i < pre.queues.keys_seq().len() && #[trigger] pre.queues.keys_seq()[i]
                            == id@ && *q == pre.queues.values_seq()[i];
                    lemma_table_update(
                        pre.queues.keys_seq(),
                        pre.queues.values_seq(),
                        i,
                        *final(q),
                    );
                }
                Ok(q)
            },
            None => Err(MoraError::QueueNotFound(id.clone())),
        }
    }

    /// A copy of the durable log bytes behind one queue, as the owner of
    /// the real file must hold them.
    pub fn container_log(&self, id: &QueueId) -> (r: MoraResult<Vec<u8>>)
        requires
            self.wf(),
        ensures
            match r {
                Ok(bytes) => self.has_queue(id@) && bytes@ == self.spec_storage().log_of(id@),
                Err(e) => {
                    &&& !self.has_queue(id@)
                    &&& e matches MoraError::StorageError(StorageError::ContainerNotFound(s))
                        && s@ == id@
                },
            },
    {
        self.storage.container_log(id)
    }

    /// Whether a queue with this id exists; the channel manager validates
    /// channel creation with it.
    pub fn contains_queue(&self, id: &QueueId) -> (r: bool)
        requires
            self.wf(),
        ensures
            r == self.has_queue(id@),
    {
        self.queues.contains(id)
    }

    /// The ids of the queues whose id matches the pattern, oldest first;
    /// fails when the pattern is not a valid regular expression.
    pub fn get_queues(&self, pattern: &String) -> (r: MoraResult<Vec<QueueId>>)
        requires
            self.wf(),
        ensures
            match r {
                Ok(ids) => {
                    &&& regex_ok(pattern@)
                    &&& ids@.len() == matched_ids(self.queue_ids(), pattern@).len()
                    &&& forall|i: int|
                        0 <= i < ids@.len() ==> ids@[i]@ == matched_ids(
                            self.queue_ids(),
                            pattern@,
                        )[i]
                },
                Err(e) => !regex_ok(pattern@) && (e matches MoraError::GenericError(_)),
            },
    {
        match regex_is_match(pattern, &String::new()) {
            None => {
                return Err(MoraError::GenericError("invalid pattern".to_owned()));
            },
            Some(_) => {},
        }
        let n = self.queues.len();
        let mut out: Vec<QueueId> = Vec::new();
        let mut i: usize = 0;
        while i < n
            invariant
                self.wf(),
                n == self.queue_ids().len(),
                0 <= i <= n,
                regex_ok(pattern@),
                out@.len() == matched_ids(self.queue_ids().take(i as int), pattern@).len(),
                forall|j: int|
                    0 <= j < out@.len() ==> out@[j]@ == matched_ids(
                        self.queue_ids().take(i as int),
                        pattern@,
                    )[j],
            decreases n - i,
        {
            let id = self.queues.key_at(i);
            match regex_is_match(pattern, id) {
                None => {
                    proof {
                        assert(false);
                    }
                    return Err(MoraError::GenericError("invalid pattern".to_owned()));
                },
                Some(is_match) => {
                    let ghost taken = self.queue_ids().take(i as int);
                    let ghost taken1 = self.queue_ids().take(i + 1);
                    proof {
                        assert(taken1.drop_last() =~= taken);
                        assert(taken1.last() == self.queue_ids()[i as int]);
                    }
                    if is_match {
                        out.push(id.clone());
                    }
                },
            }
            i = i + 1;
        }
        proof {
            assert(self.queue_ids().take(n as int) =~= self.queue_ids());
        }
        Ok(out)
    }

    /// Schedules a payload: the item record is durably appended first, then
    /// the entry becomes visible in the temporal queue.  When the queue
    /// rejects the entry for capacity the record is already durable and will
    /// be restored at the next startup; the write is not undone, so the
    /// caller sees `QueueFull` with the item persisted.
    pub fn enqueue(&mut self, id: &QueueId, timestamp: u128, value: Bytes) -> (r: MoraResult<()>)
        requires
            old(self).wf(),
        ensures
            final(self).wf(),
            match r {
                Ok(_) => {
                    let rec = (LogRecord::Item { key: timestamp, payload: value@ });
                    &&& old(self).has_queue(id@)
                    &&& final(self).has_queue(id@)
                    &&& final(self).spec_storage().records_of(id@) == old(
                        self,
                    ).spec_storage().records_of(id@).push(rec)
                    &&& final(self).spec_storage().log_of(id@) == old(self).spec_storage().log_of(
                        id@,
                    ) + record_bytes(rec)
                    &&& final(self).spec_storage().index_map(id@) == old(
                        self,
                    ).spec_storage().index_map(id@).insert(timestamp, value@)
                    &&& exists|p: int|
                        {
                            &&& 0 <= p <= old(self).queue_entries(id@).len()
                            &&& #[trigger] final(self).queue_entries(id@) == old(
                                self,
                            ).queue_entries(id@).insert(p, (timestamp, value@))
                            &&& forall|j: int|
                                0 <= j < p ==> (#[trigger] old(self).queue_entries(id@)[j]).0
                                    <= timestamp
                            &&& forall|j: int|
                                p <= j < old(self).queue_entries(id@).len()
                                    ==> (#[trigger] old(self).queue_entries(id@)[j]).0 > timestamp
                        }
                    &&& final(self).queue_ids() == old(self).queue_ids()
                    &&& Self::other_queues_unchanged(*old(self), *final(self), id@)
                    &&& WalFileStorage::others_unchanged(
                        old(self).spec_storage(),
                        final(self).spec_storage(),
                        id@,
                    )
                },
                Err(e) => {
                    &&& (e is QueueFull || (e matches MoraError::StorageError(
                        StorageError::ContainerNotFound(s),
                    ) && s@ == id@))
                    &&& (!(e is QueueFull) ==> !old(self).has_queue(id@) && *final(self) == *old(
                        self,
                    ))
                    &&& (e is QueueFull ==> {
                        let rec = (LogRecord::Item { key: timestamp, payload: value@ });
                        &&& old(self).has_queue(id@)
                        &&& old(self).queue_entries(id@).len() == u128::MAX
                        &&& final(self).spec_storage().records_of(id@) == old(
                            self,
                        ).spec_storage().records_of(id@).push(rec)
                        &&& final(self).spec_storage().index_map(id@) == old(
                            self,
                        ).spec_storage().index_map(id@).insert(timestamp, value@)
                        &&& final(self).queue_entries(id@) == old(self).queue_entries(id@)
                        &&& final(self).queue_ids() == old(self).queue_ids()
                        &&& Self::other_queues_unchanged(*old(self), *final(self), id@)
                    })
                },
            },
    {
        let qi = match self.queues.index_of(id) {
            Some(qi) => qi,
            None => {
                return Err(MoraError::StorageError(StorageError::ContainerNotFound(id.clone())));
            },
        };
        match self.storage.store_item(id, &timestamp, &value) {
            // A known queue always has its container.
            Err(e) => {
                proof {
                    assert(false);
                }
                Err(e)
            },
            Ok(_) => {
                let ghost mid = *self;
                let q = self.queues.value_at_mut(qi);
                let ghost q0 = *q;
                let res = q.enqueue(timestamp, value);
                proof {
                    lemma_table_at_index(mid.queues.keys_seq(), mid.queues.values_seq(), qi as int);
                    assert(mid.queues@[id@] == q0);
                    lemma_table_update(
                        mid.queues.keys_seq(),
                        mid.queues.values_seq(),
                        qi as int,
                        self.queues.values_seq()[qi as int],
                    );
                    assert(mid.queues.keys_seq()[qi as int] == id@);
                    if res is Ok {
                        let p = choose|p: int|
                            0 <= p <= q0@.len() && #[trigger] self.queues@[id@]@ == q0@.insert(
                                p,
                                (timestamp, value),
                            ) && (forall|a: int| 0 <= a < p ==> (#[trigger] q0@[a]).0 <= timestamp)
                                && (forall|a: int|
                                p <= a < q0@.len() ==> (#[trigger] q0@[a]).0 > timestamp);
                        assert(batch_view(self.queues@[id@]@) =~= batch_view(q0@).insert(
                            p,
                            (timestamp, value@),
                        ));
                        assert(batch_view(q0@).len() == q0@.len());
                        assert forall|a: int| 0 <= a < p implies
                            (#[trigger] batch_view(q0@)[a]).0 <= timestamp by {
                            assert(batch_view(q0@)[a].0 == q0@[a].0);
                        }
                        assert forall|a: int| p <= a < batch_view(q0@).len() implies
                            (#[trigger] batch_view(q0@)[a]).0 > timestamp by {
                            assert(batch_view(q0@)[a].0 == q0@[a].0);
                        }
                        assert(old(self).queue_entries(id@) == batch_view(q0@));
                        assert(self.queue_entries(id@) == old(self).queue_entries(id@).insert(
                            p,
                            (timestamp, value@),
                        ));
                        assert(forall|j: int|
                            0 <= j < p ==> (#[trigger] old(self).queue_entries(id@)[j]).0
                                <= timestamp);
                        assert(forall|j: int|
                            p <= j < old(self).queue_entries(id@).len()
                                ==> (#[trigger] old(self).queue_entries(id@)[j]).0 > timestamp);
                    } else {
                        assert(self.queues@[id@] == q0);
                        assert(self.queues.values_seq() =~= mid.queues.values_seq());
                    }
                    assert forall|id2: Seq<char>|
                        #![trigger self.queues@.contains_key(id2)]
                        #![trigger self.storage.has_container(id2)]
                        self.queues@.contains_key(id2) == self.storage.has_container(id2) by {}
                }
                match res {
                    Ok(_) => Ok(()),
                    Err(e) => Err(e),
                }
            },
        }
    }

    /// Drains one queue up to the cut timestamp, earliest first.  With
    /// `delete` the drained keys are durably tombstoned before the entries
    /// leave memory; without it the read is a pure peek.
    pub fn dequeue_until(&mut self, id: &QueueId, timestamp: u128, delete: bool) -> (r: MoraResult<
        Vec<(u128, Bytes)>,
    >)
        requires
            old(self).wf(),
        ensures
            final(self).wf(),
            match r {
                Ok(events) => {
                    let k = cutoff(old(self).queue_entries(id@), timestamp);
                    &&& old(self).has_queue(id@)
                    &&& final(self).has_queue(id@)
                    &&& batch_view(events@) == old(self).queue_entries(id@).take(k)
                    &&& sorted_pairs(batch_view(events@))
                    &&& forall|i: int|
                        0 <= i < events@.len() ==> (#[trigger] events@[i]).0 <= timestamp
                    &&& final(self).queue_ids() == old(self).queue_ids()
                    &&& Self::other_queues_unchanged(*old(self), *final(self), id@)
                    &&& if delete {
                        let keys = Seq::new(k as nat, |i: int| old(self).queue_entries(id@)[i].0);
                        &&& final(self).queue_entries(id@) == old(self).queue_entries(id@).skip(k)
                        &&& final(self).spec_storage().index_map(id@) == replay_from(
                            old(self).spec_storage().index_map(id@),
                            tombstone_records(keys),
                        )
                        &&& WalFileStorage::others_unchanged(
                            old(self).spec_storage(),
                            final(self).spec_storage(),
                            id@,
                        )
                        &&& (k == 0 ==> final(self).spec_storage() == old(self).spec_storage())
                    } else {
                        &&& final(self).queue_entries(id@) == old(self).queue_entries(id@)
                        &&& final(self).spec_storage() == old(self).spec_storage()
                    }
                },
                Err(e) => {
                    &&& !old(self).has_queue(id@)
                    &&& *final(self) == *old(self)
                    &&& e matches MoraError::QueueNotFound(s) && s@ == id@
                },
            },
    {
        let qi = match self.queues.index_of(id) {
            Some(qi) => qi,
            None => {
                return Err(MoraError::QueueNotFound(id.clone()));
            },
        };
        let ghost pre = *self;
        let q = self.queues.value_at_mut(qi);
        let ghost q0 = *q;
        let peeked = q.dequeue_until(timestamp, false);
        proof {
            assert(self.queues.values_seq() =~= pre.queues.values_seq());
            lemma_cutoff_view(q0@, timestamp);
            let k = cutoff(q0@, timestamp);
            assert(batch_view(peeked@).len() == peeked@.len());
            assert forall|i: int| 0 <= i < peeked@.len() implies
                #[trigger] batch_view(peeked@)[i] == batch_view(q0@).take(k)[i] by {
                assert(peeked@[i].0 == q0@[i].0);
                assert(cloned(q0@[i].1, peeked@[i].1));
                lemma_cloned_bytes(q0@[i].1, peeked@[i].1);
                assert(batch_view(q0@)[i] == (q0@[i].0, q0@[i].1@));
                assert(batch_view(q0@).take(k)[i] == batch_view(q0@)[i]);
            }
            assert(batch_view(peeked@) =~= batch_view(q0@).take(k));
            assert forall|a: int, b: int| 0 <= a < b < batch_view(peeked@).len() implies
                (#[trigger] batch_view(peeked@)[a]).0 <= (#[trigger] batch_view(peeked@)[b]).0 by {
                assert(batch_view(peeked@)[a].0 == peeked@[a].0);
                assert(batch_view(peeked@)[b].0 == peeked@[b].0);
            }
            assert forall|i: int| 0 <= i < peeked@.len() implies
                (#[trigger] peeked@[i]).0 <= timestamp by {}
            assert(pre.queues.keys_seq()[qi as int] == id@);
            assert(batch_view(self.queues@[id@]@) == batch_view(q0@));
        }
        if !delete {
            return Ok(peeked);
        }
        let count = peeked.len();
        let mut keys: Vec<u128> = Vec::new();
        let mut i: usize = 0;
        while i < count
            invariant
                count == peeked@.len(),
                0 <= i <= count,
                keys@.len() == i,
                forall|j: int| 0 <= j < i ==> keys@[j] == (#[trigger] peeked@[j]).0,
            decreases count - i,
        {
            keys.push(peeked[i].0);
            i = i + 1;
        }
        match self.storage.delete_items(id, &keys) {
            // A known queue always has its container.
            Err(e) => {
                proof {
                    assert(false);
                }
                return Err(e);
            },
            Ok(_) => {},
        }
        let ghost mid = *self;
        let q2 = self.queues.value_at_mut(qi);
        let ghost q20 = *q2;
        proof {
            assert(q20 == q0);
        }
        let drained = q2.dequeue_until(timestamp, true);
        proof {
            lemma_table_update(
                mid.queues.keys_seq(),
                mid.queues.values_seq(),
                qi as int,
                self.queues.values_seq()[qi as int],
            );
            assert(mid.queues.keys_seq()[qi as int] == id@);
            lemma_cutoff_view(q0@, timestamp);
            let k = cutoff(q0@, timestamp);
            assert(drained@ == q0@.take(k));
            assert(batch_view(drained@).len() == drained@.len());
            assert forall|i: int| 0 <= i < drained@.len() implies
                #[trigger] batch_view(drained@)[i] == batch_view(q0@).take(k)[i] by {
                assert(drained@[i] == q0@[i]);
                assert(batch_view(drained@)[i] == (drained@[i].0, drained@[i].1@));
                assert(batch_view(q0@).take(k)[i] == batch_view(q0@)[i]);
            }
            assert(batch_view(drained@) =~= batch_view(q0@).take(k));
            assert forall|a: int, b: int| 0 <= a < b < batch_view(drained@).len() implies
                (#[trigger] batch_view(drained@)[a]).0 <= (#[trigger] batch_view(drained@)[b]).0 by {
                assert(batch_view(drained@)[a].0 == drained@[a].0);
                assert(batch_view(drained@)[b].0 == drained@[b].0);
            }
            assert(self.queues@[id@]@ == q0@.skip(k));
            assert(batch_view(self.queues@[id@]@) =~= batch_view(q0@).skip(k)) by {
                assert forall|i: int| 0 <= i < q0@.len() - k implies
                    #[trigger] batch_view(q0@.skip(k))[i] == batch_view(q0@).skip(k)[i] by {
                    assert(q0@.skip(k)[i] == q0@[i + k]);
                }
            }
            assert forall|j: int| 0 <= j < keys@.len() implies
                keys@[j] == (#[trigger] batch_view(q0@)[j]).0 by {
                assert(keys@[j] == peeked@[j].0);
                assert(peeked@[j].0 == q0@[j].0);
            }
            assert(keys@ =~= Seq::new(k as nat, |i: int| batch_view(q0@)[i].0));
            assert forall|id2: Seq<char>|
                #![trigger self.queues@.contains_key(id2)]
                #![trigger self.storage.has_container(id2)]
                self.queues@.contains_key(id2) == self.storage.has_container(id2) by {}
        }
        Ok(drained)
    }

    /// Drains one queue up to the cut timestamp, earliest first, but at most
    /// `max` entries.  With `delete` exactly the returned keys are durably
    /// tombstoned before the entries leave memory; without it the read is a
    /// pure peek.
    pub fn dequeue_until_limited(
        &mut self,
        id: &QueueId,
        timestamp: u128,
        max: usize,
        delete: bool,
    ) -> (r: MoraResult<Vec<(u128, Bytes)>>)
        requires
            old(self).wf(),
        ensures
            final(self).wf(),
            match r {
                Ok(events) => {
                    let k = if cutoff(old(self).queue_entries(id@), timestamp) <= max {
                        cutoff(old(self).queue_entries(id@), timestamp)
                    } else {
                        max as int
                    };
                    &&& old(self).has_queue(id@)
                    &&& final(self).has_queue(id@)
                    &&& batch_view(events@) == old(self).queue_entries(id@).take(k)
                    &&& sorted_pairs(batch_view(events@))
                    &&& forall|i: int|
                        0 <= i < events@.len() ==> (#[trigger] events@[i]).0 <= timestamp
                    &&& final(self).queue_ids() == old(self).queue_ids()
                    &&& Self::other_queues_unchanged(*old(self), *final(self), id@)
                    &&& if delete {
                        let keys = Seq::new(k as nat, |i: int| old(self).queue_entries(id@)[i].0);
                        &&& final(self).queue_entries(id@) == old(self).queue_entries(id@).skip(k)
                        &&& final(self).spec_storage().index_map(id@) == replay_from(
                            old(self).spec_storage().index_map(id@),
                            tombstone_records(keys),
                        )
                        &&& WalFileStorage::others_unchanged(
                            old(self).spec_storage(),
                            final(self).spec_storage(),
                            id@,
                        )
                        &&& (k == 0 ==> final(self).spec_storage() == old(self).spec_storage())
                    } else {
                        &&& final(self).queue_entries(id@) == old(self).queue_entries(id@)
                        &&& final(self).spec_storage() == old(self).spec_storage()
                    }
                },
                Err(e) => {
                    &&& !old(self).has_queue(id@)
                    &&& *final(self) == *old(self)
                    &&& e matches MoraError::QueueNotFound(s) && s@ == id@
                },
            },
    {
        let qi = match self.queues.index_of(id) {
            Some(qi) => qi,
            None => {
                return Err(MoraError::QueueNotFound(id.clone()));
            },
        };
        let ghost pre = *self;
        let q = self.queues.value_at_mut(qi);
        let ghost q0 = *q;
        let peeked = q.dequeue_until_limited(timestamp, max, false);
        proof {
            assert(self.queues.values_seq() =~= pre.queues.values_seq());
            lemma_cutoff_view(q0@, timestamp);
            let k = if cutoff(q0@, timestamp) <= max {
                cutoff(q0@, timestamp)
            } else {
                max as int
            };
            assert(batch_view(peeked@).len() == peeked@.len());
            assert forall|i: int| 0 <= i < peeked@.len() implies
                #[trigger] batch_view(peeked@)[i] == batch_view(q0@).take(k)[i] by {
                assert(peeked@[i].0 == q0@[i].0);
                assert(cloned(q0@[i].1, peeked@[i].1));
                lemma_cloned_bytes(q0@[i].1, peeked@[i].1);
                assert(batch_view(q0@)[i] == (q0@[i].0, q0@[i].1@));
                assert(batch_view(q0@).take(k)[i] == batch_view(q0@)[i]);
            }
            assert(batch_view(peeked@) =~= batch_view(q0@).take(k));
            assert forall|a: int, b: int| 0 <= a < b < batch_view(peeked@).len() implies
                (#[trigger] batch_view(peeked@)[a]).0 <= (#[trigger] batch_view(peeked@)[b]).0 by {
                assert(batch_view(peeked@)[a].0 == peeked@[a].0);
                assert(batch_view(peeked@)[b].0 == peeked@[b].0);
            }
            assert forall|i: int| 0 <= i < peeked@.len() implies
                (#[trigger] peeked@[i]).0 <= timestamp by {}
            assert(pre.queues.keys_seq()[qi as int] == id@);
            assert(batch_view(self.queues@[id@]@) == batch_view(q0@));
        }
        if !delete {
            return Ok(peeked);
        }
        let count = peeked.len();
        let mut keys: Vec<u128> = Vec::new();
        let mut i: usize = 0;
        while i < count
            invariant
                count == peeked@.len(),
                0 <= i <= count,
                keys@.len() == i,
                forall|j: int| 0 <= j < i ==> keys@[j] == (#[trigger] peeked@[j]).0,
            decreases count - i,
        {
            keys.push(peeked[i].0);
            i = i + 1;
        }
        match self.storage.delete_items(id, &keys) {
            // A known queue always has its container.
            Err(e) => {
                proof {
                    assert(false);
                }
                return Err(e);
            },
            Ok(_) => {},
        }
        let ghost mid = *self;
        let q2 = self.queues.value_at_mut(qi);
        let ghost q20 = *q2;
        proof {
            assert(q20 == q0);
        }
        let drained = q2.dequeue_until_limited(timestamp, max, true);
        proof {
            lemma_table_update(
                mid.queues.keys_seq(),
                mid.queues.values_seq(),
                qi as int,
                self.queues.values_seq()[qi as int],
            );
            assert(mid.queues.keys_seq()[qi as int] == id@);
            lemma_cutoff_view(q0@, timestamp);
            let k = if cutoff(q0@, timestamp) <= max {
                cutoff(q0@, timestamp)
            } else {
                max as int
            };
            assert(drained@ == q0@.take(k));
            assert(batch_view(drained@).len() == drained@.len());
            assert forall|i: int| 0 <= i < drained@.len() implies
                #[trigger] batch_view(drained@)[i] == batch_view(q0@).take(k)[i] by {
                assert(drained@[i] == q0@[i]);
                assert(batch_view(drained@)[i] == (drained@[i].0, drained@[i].1@));
                assert(batch_view(q0@).take(k)[i] == batch_view(q0@)[i]);
            }
            assert(batch_view(drained@) =~= batch_view(q0@).take(k));
            assert forall|a: int, b: int| 0 <= a < b < batch_view(drained@).len() implies
                (#[trigger] batch_view(drained@)[a]).0 <= (#[trigger] batch_view(drained@)[b]).0 by {
                assert(batch_view(drained@)[a].0 == drained@[a].0);
                assert(batch_view(drained@)[b].0 == drained@[b].0);
            }
            assert(self.queues@[id@]@ == q0@.skip(k));
            assert(batch_view(self.queues@[id@]@) =~= batch_view(q0@).skip(k)) by {
                assert forall|i: int| 0 <= i < q0@.len() - k implies
                    #[trigger] batch_view(q0@.skip(k))[i] == batch_view(q0@).skip(k)[i] by {
                    assert(q0@.skip(k)[i] == q0@[i + k]);
                }
            }
            assert forall|j: int| 0 <= j < keys@.len() implies
                keys@[j] == (#[trigger] batch_view(q0@)[j]).0 by {
                assert(keys@[j] == peeked@[j].0);
                assert(peeked@[j].0 == q0@[j].0);
            }
            assert(keys@ =~= Seq::new(k as nat, |i: int| batch_view(q0@)[i].0));
            assert forall|id2: Seq<char>|
                #![trigger self.queues@.contains_key(id2)]
                #![trigger self.storage.has_container(id2)]
                self.queues@.contains_key(id2) == self.storage.has_container(id2) by {}
        }
        Ok(drained)
    }

    /// A well-formed pool stands on a well-formed engine and names exactly
    /// the engine's containers, so replay idempotence applies to the pool's
    /// logs after any run of operations.
    pub proof fn lemma_pool_storage_wf(p: QueuePool)
        requires
            p.wf(),
        ensures
            p.spec_storage().wf(),
            forall|id: Seq<char>| #[trigger]
                p.has_queue(id) == p.spec_storage().has_container(id),
    {
    }

    /// The entries of every queue of a well-formed pool are sorted by
    /// timestamp, so a drain returns everything at or before its cut.
    pub proof fn lemma_pool_queue_sorted(p: QueuePool, id: Seq<char>)
        requires
            p.wf(),
            p.has_queue(id),
        ensures
            sorted_pairs(p.queue_entries(id)),
    {
        TemporalQueue::lemma_wf_sorted(p.queues@[id]);
        let q = p.queues@[id];
        assert forall|a: int, b: int| 0 <= a < b < p.queue_entries(id).len() implies
            (#[trigger] p.queue_entries(id)[a]).0 <= (#[trigger] p.queue_entries(id)[b]).0 by {
            assert(p.queue_entries(id)[a].0 == q@[a].0);
            assert(p.queue_entries(id)[b].0 == q@[b].0);
        }
    }
}

} // verus!
