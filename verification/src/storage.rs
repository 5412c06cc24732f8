//! The write-ahead-log storage engine.
//!
//! The engine keeps, per container, the exact bytes of its append-only log
//! and the in-memory index those bytes replay to.  Every operation appends
//! framed records to the log model and updates the index in step, so the
//! central invariant holds at all times: the log parses, and its replay
//! equals the index.  The caller that owns the real files mirrors the log
//! model byte for byte (append the suffix after a plain write, swap the file
//! after a compaction) and performs the durable write before handing the
//! same operation to the engine.

use vstd::prelude::*;
use vstd::bytes::{spec_u128_from_le_bytes, spec_u32_from_le_bytes, spec_u64_from_le_bytes};
use crate::codec::{
    crc32, encode_item_record, encode_tombstone_record, lemma_log_bytes_snoc, RecordType,
    lemma_parse_log_complete, lemma_parse_log_sound, lemma_replay_from_snoc, lemma_replay_snoc,
    apply_record, log_bytes, parse_log, record_bytes, record_valid, replay, replay_from, LogRecord,
    ITEM_BASE_SIZE, TOMBSTONE_SIZE,
};
use crate::errors::{MoraError, MoraResult, StorageError};
use crate::index::{lemma_map_at_index, pairs_to_map, sorted_by_key, ItemIndex};
use crate::registry::{lemma_table_update, Registry};

verus! {

/// Counters that drive the compaction heuristic: item records and tombstone
/// records appended to a container since the engine was loaded.  Compaction
/// itself rewrites the log and counts as no write.
pub struct WalStats {
    items_written: u64,
    tombstones_written: u64,
}

/// Saturating increment, so the heuristic counters can never overflow.
pub open spec fn sat_inc(x: u64) -> u64 {
    if x < u64::MAX {
        (x + 1) as u64
    } else {
        x
    }
}

/// Saturating addition for batched writes.
pub open spec fn sat_add(x: u64, n: u64) -> u64 {
    if x + n <= u64::MAX {
        (x + n) as u64
    } else {
        u64::MAX
    }
}

/// The compaction trigger: more than 1000 item records written and more than
/// three tombstones for every ten item records.  The ratio's denominator
/// counts item records alone, deliberately: with tombstones counted in the
/// denominator too, a container that takes two thousand items and then loses
/// seven hundred of them would never cross the three-in-ten threshold, and
/// the inline compaction that churn of that shape is meant to provoke would
/// never run.
pub open spec fn spec_should_compact(items: u64, tombstones: u64) -> bool {
    items > 1000 && 10 * (tombstones as int) > 3 * (items as int)
}

impl WalStats {
    pub closed spec fn items(&self) -> u64 {
        self.items_written
    }

    pub closed spec fn tombstones(&self) -> u64 {
        self.tombstones_written
    }

    pub fn new() -> (r: WalStats)
        ensures
            r.items() == 0,
            r.tombstones() == 0,
    {
        WalStats { items_written: 0, tombstones_written: 0 }
    }

    fn note_items(&mut self, n: u64)
        ensures
            final(self).items() == sat_add(old(self).items(), n),
            final(self).tombstones() == old(self).tombstones(),
    {
        if u64::MAX - self.items_written >= n {
            self.items_written = self.items_written + n;
        } else {
            self.items_written = u64::MAX;
        }
    }

    fn note_tombstones(&mut self, n: u64)
        ensures
            final(self).tombstones() == sat_add(old(self).tombstones(), n),
            final(self).items() == old(self).items(),
    {
        if u64::MAX - self.tombstones_written >= n {
            self.tombstones_written = self.tombstones_written + n;
        } else {
            self.tombstones_written = u64::MAX;
        }
    }

    /// Whether the counters ask for a compaction of their container.
    pub fn should_compact(&self) -> (r: bool)
        ensures
            r == spec_should_compact(self.items(), self.tombstones()),
    {
        let items = self.items_written;
        let tombstones = self.tombstones_written;
        items > 1000 && (tombstones as u128) * 10 > (items as u128) * 3
    }
}

/// One container: its log bytes, the records they frame, and the index
/// those records replay to.
pub(crate) struct Container {
    pub(crate) log: Vec<u8>,
    pub(crate) index: ItemIndex,
    pub(crate) records: Ghost<Seq<LogRecord>>,
    pub(crate) stats: WalStats,
}

impl Container {
    pub(crate) open spec fn inv(&self) -> bool {
        &&& self.index.wf()
        &&& self.log@ == log_bytes(self.records@)
        &&& self.index@ == replay(self.records@)
        &&& forall|i: int| 0 <= i < self.records@.len() ==> record_valid(#[trigger] self.records@[i])
    }
}

/// The record sequence a batch of `(key, payload)` pairs appends.
pub open spec fn batch_records(items: Seq<(u128, Seq<u8>)>) -> Seq<LogRecord> {
    Seq::new(items.len(), |i: int| LogRecord::Item { key: items[i].0, payload: items[i].1 })
}

/// The record sequence a batch of deletions appends.
pub open spec fn tombstone_records(keys: Seq<u128>) -> Seq<LogRecord> {
    Seq::new(keys.len(), |i: int| LogRecord::Tombstone { key: keys[i] })
}

/// The record sequence a compaction leaves behind: one item record per live
/// key, in ascending key order.
pub open spec fn compacted_records(pairs: Seq<(u128, Seq<u8>)>) -> Seq<LogRecord> {
    Seq::new(pairs.len(), |i: int| LogRecord::Item { key: pairs[i].0, payload: pairs[i].1 })
}

/// Replaying a compacted log restores exactly the mapping it was built from.
pub proof fn lemma_replay_compacted(pairs: Seq<(u128, Seq<u8>)>)
    requires
        sorted_by_key(pairs),
    ensures
        replay(compacted_records(pairs)) == pairs_to_map(pairs),
    decreases pairs.len(),
{
    if pairs.len() == 0 {
        assert(compacted_records(pairs) =~= Seq::<LogRecord>::empty());
        assert(replay(compacted_records(pairs)) =~= pairs_to_map(pairs));
    } else {
        let pre = pairs.drop_last();
        let last = pairs.last();
        let r = LogRecord::Item { key: last.0, payload: last.1 };
        assert(compacted_records(pairs) =~= compacted_records(pre).push(r));
        lemma_replay_snoc(compacted_records(pre), r);
        assert(sorted_by_key(pre));
        lemma_replay_compacted(pre);
        let m1 = pairs_to_map(pre).insert(last.0, last.1);
        let m2 = pairs_to_map(pairs);
        assert forall|k: u128| m1.contains_key(k) implies m2.contains_key(k) by {
            if k == last.0 {
                assert(pairs[pairs.len() - 1].0 == k);
            } else {
                let w = choose|w: int| 0 <= w < pre.len() && (#[trigger] pre[w]).0 == k;
                assert(pairs[w].0 == k);
            }
        }
        assert forall|k: u128| m2.contains_key(k) implies m1.contains_key(k) by {
            let w = choose|w: int| 0 <= w < pairs.len() && (#[trigger] pairs[w]).0 == k;
            if w < pairs.len() - 1 {
                assert(pre[w].0 == k);
            }
        }
        assert forall|k: u128| m2.contains_key(k) implies m2[k] == m1[k] by {
            let w = choose|w: int| 0 <= w < pairs.len() && (#[trigger] pairs[w]).0 == k;
            lemma_map_at_index(pairs, w);
            if w < pairs.len() - 1 {
                assert(pre[w].0 == k);
                lemma_map_at_index(pre, w);
            }
        }
        assert(replay(compacted_records(pairs)) =~= pairs_to_map(pairs));
    }
}

impl Container {
    fn empty() -> (r: Container)
        ensures
            r.inv(),
            r.records@ == Seq::<LogRecord>::empty(),
            r.log@ == Seq::<u8>::empty(),
            r.index@ == Map::<u128, Seq<u8>>::empty(),
            r.index.pairs() == Seq::<(u128, Seq<u8>)>::empty(),
            r.stats.items() == 0,
            r.stats.tombstones() == 0,
    {
        let r = Container {
            log: Vec::new(),
            index: ItemIndex::new(),
            records: Ghost(Seq::empty()),
            stats: WalStats::new(),
        };
        proof {
            assert(log_bytes(r.records@) == Seq::<u8>::empty());
            assert(replay(r.records@) =~= Map::<u128, Seq<u8>>::empty());
        }
        r
    }

    /// Rewrites the log to one item record per live key, keeping the index
    /// bit for bit and the heuristic counters as they are.
    fn compact(&mut self)
        requires
            old(self).inv(),
        ensures
            final(self).inv(),
            final(self).index == old(self).index,
            final(self).stats == old(self).stats,
            final(self).records@ == compacted_records(old(self).index.pairs()),
            final(self).log@ == log_bytes(final(self).records@),
    {
        let n = self.index.len();
        let mut log: Vec<u8> = Vec::new();
        let ghost mut recs: Seq<LogRecord> = Seq::empty();
        proof {
            assert(recs =~= compacted_records(self.index.pairs().subrange(0, 0)));
        }
        let mut i: usize = 0;
        while i < n
            invariant
                self == old(self),
                self.index.wf(),
                n == self.index.pairs().len(),
                0 <= i <= n,
                recs == compacted_records(self.index.pairs().subrange(0, i as int)),
                log@ == log_bytes(recs),
                forall|j: int| 0 <= j < recs.len() ==> record_valid(#[trigger] recs[j]),
            decreases n - i,
        {
            let key = self.index.key_at(i);
            let payload = self.index.payload_at(i);
            let plen = payload.len();
            let mut rec = encode_item_record(key, payload);
            let ghost r = LogRecord::Item { key, payload: payload@ };
            proof {
                assert(payload@.len() == plen);
                lemma_log_bytes_snoc(recs, r);
            }
            log.append(&mut rec);
            proof {
                recs = recs.push(r);
                assert(recs =~= compacted_records(self.index.pairs().subrange(0, i + 1)));
            }
            i = i + 1;
        }
        proof {
            assert(self.index.pairs().subrange(0, n as int) =~= self.index.pairs());
        }
        self.log = log;
        self.records = Ghost(recs);
        proof {
            lemma_replay_compacted(self.index.pairs());
        }
    }
}

/// The storage engine: the container table.
pub struct WalFileStorage {
    containers: Registry<Container>,
}

impl WalFileStorage {
    /// The engine's well-formedness: a sound table whose every container
    /// upholds the log/index invariant.
    pub closed spec fn wf(&self) -> bool {
        &&& self.containers.wf()
        &&& forall|id: Seq<char>| #[trigger]
            self.containers@.contains_key(id) ==> self.containers@[id].inv()
    }

    pub closed spec fn has_container(&self, id: Seq<char>) -> bool {
        self.containers@.contains_key(id)
    }

    /// The logical content of one container: its key-to-payload mapping.
    pub closed spec fn index_map(&self, id: Seq<char>) -> Map<u128, Seq<u8>> {
        self.containers@[id].index@
    }

    /// The same content as entries in ascending key order.
    pub closed spec fn index_pairs(&self, id: Seq<char>) -> Seq<(u128, Seq<u8>)> {
        self.containers@[id].index.pairs()
    }

    /// The exact bytes of the container's durable log.
    pub closed spec fn log_of(&self, id: Seq<char>) -> Seq<u8> {
        self.containers@[id].log@
    }

    /// The records framed by the container's log.
    pub closed spec fn records_of(&self, id: Seq<char>) -> Seq<LogRecord> {
        self.containers@[id].records@
    }

    pub closed spec fn items_written_of(&self, id: Seq<char>) -> u64 {
        self.containers@[id].stats.items()
    }

    pub closed spec fn tombstones_written_of(&self, id: Seq<char>) -> u64 {
        self.containers@[id].stats.tombstones()
    }

    /// The container ids, oldest first.
    pub closed spec fn container_ids(&self) -> Seq<Seq<char>> {
        self.containers.keys_seq()
    }

    /// Whether two engine states agree on every container but `id`.
    pub open spec fn others_unchanged(pre: WalFileStorage, post: WalFileStorage, id: Seq<char>) -> bool {
        forall|id2: Seq<char>|
            id2 != id ==> {
                &&& #[trigger] post.has_container(id2) == pre.has_container(id2)
                &&& (pre.has_container(id2) ==> {
                    &&& post.index_map(id2) == pre.index_map(id2)
                    &&& post.index_pairs(id2) == pre.index_pairs(id2)
                    &&& post.log_of(id2) == pre.log_of(id2)
                    &&& post.records_of(id2) == pre.records_of(id2)
                    &&& post.items_written_of(id2) == pre.items_written_of(id2)
                    &&& post.tombstones_written_of(id2) == pre.tombstones_written_of(id2)
                })
            }
    }

    /// An empty engine with no containers.
    pub fn new() -> (r: WalFileStorage)
        ensures
            r.wf(),
            r.container_ids() == Seq::<Seq<char>>::empty(),
            forall|id: Seq<char>| !r.has_container(id),
    {
        let r = WalFileStorage { containers: Registry::new() };
        proof {
            assert(forall|id: Seq<char>| !r.containers@.contains_key(id));
        }
        r
    }

    /// Replays one log into a fresh index: the executable face of
    /// [`parse_log`] and [`replay`].  Fails exactly when the bytes are not
    /// the framing of any record sequence, trailing truncation included.
    fn replay_log(bytes: &Vec<u8>) -> (r: Result<ItemIndex, StorageError>)
        ensures
            match r {
                Ok(idx) => {
                    &&& parse_log(bytes@) is Some
                    &&& idx.wf()
                    &&& idx@ == replay(parse_log(bytes@)->Some_0)
                },
                Err(e) => parse_log(bytes@) is None && e is CorruptedData,
            },
    {
        let ghost b = bytes@;
        let n = bytes.len();
        let mut offset: usize = 0;
        let mut idx = ItemIndex::new();
        let ghost mut recs: Seq<LogRecord> = Seq::empty();
        proof {
            assert(b.skip(0) =~= b);
            if parse_log(b) is Some {
                assert(recs + parse_log(b)->Some_0 =~= parse_log(b)->Some_0);
            }
        }
        while offset < n
            invariant
                b == bytes@,
                n == b.len(),
                0 <= offset <= n,
                idx.wf(),
                idx@ == replay(recs),
                match parse_log(b.skip(offset as int)) {
                    Some(rest) => parse_log(b) == Some(recs + rest),
                    None => parse_log(b) is None,
                },
            decreases n - offset,
        {
            let ghost tailb = b.skip(offset as int);
            if n - offset < TOMBSTONE_SIZE {
                proof {
                    assert(tailb.len() == n - offset);
                    assert(parse_log(tailb) is None);
                }
                return Err(StorageError::CorruptedData("truncated record".to_owned()));
            }
            let key = u128_from_le_bytes_at(bytes, offset);
            proof {
                assert(b.subrange(offset as int, offset + 16) =~= tailb.subrange(0, 16));
            }
            let kind = *vstd::slice::slice_index_get(bytes.as_slice(), offset + 16);
            proof {
                assert(tailb[16] == b[offset + 16]);
            }
            let record_type = match RecordType::from_u8(kind) {
                Ok(t) => t,
                Err(e) => {
                    proof {
                        assert(parse_log(tailb) is None);
                    }
                    return Err(e);
                },
            };
            if record_type == RecordType::Tombstone {
                let stored = u32_from_le_bytes_at(bytes, offset + 17);
                let computed = crc32(vstd::slice::slice_subrange(
                    bytes.as_slice(),
                    offset,
                    offset + 17,
                ));
                proof {
                    assert(b.subrange(offset as int, offset + 17) =~= tailb.subrange(0, 17));
                    assert(b.subrange(offset + 17, offset + 21) =~= tailb.subrange(17, 21));
                }
                if stored != computed {
                    proof {
                        assert(parse_log(tailb) is None);
                    }
                    return Err(StorageError::CorruptedData("crc mismatch".to_owned()));
                }
                let ghost r = LogRecord::Tombstone { key };
                idx.remove(key);
                proof {
                    lemma_replay_snoc(recs, r);
                    assert(tailb.skip(TOMBSTONE_SIZE as int) =~= b.skip(offset + TOMBSTONE_SIZE));
                    assert(parse_log(tailb) == match parse_log(tailb.skip(TOMBSTONE_SIZE as int)) {
                        Some(rest) => Some(seq![r] + rest),
                        None => None::<Seq<LogRecord>>,
                    });
                    if parse_log(b.skip(offset + TOMBSTONE_SIZE)) is Some {
                        let rest2 = parse_log(b.skip(offset + TOMBSTONE_SIZE))->Some_0;
                        assert(recs + (seq![r] + rest2) =~= recs.push(r) + rest2);
                    }
                    recs = recs.push(r);
                }
                offset = offset + TOMBSTONE_SIZE;
            } else {
                if n - offset < ITEM_BASE_SIZE {
                    proof {
                        assert(parse_log(tailb) is None);
                    }
                    return Err(StorageError::CorruptedData("truncated record".to_owned()));
                }
                let len64 = u64_from_le_bytes_at(bytes, offset + 17);
                proof {
                    assert(b.subrange(offset + 17, offset + 25) =~= tailb.subrange(17, 25));
                }
                if len64 > ((n - offset - ITEM_BASE_SIZE) as u64) {
                    proof {
                        assert(tailb.len() < ITEM_BASE_SIZE + len64);
                        assert(parse_log(tailb) is None);
                    }
                    return Err(StorageError::CorruptedData("truncated record".to_owned()));
                }
                let len = len64 as usize;
                let payload = vstd::slice::slice_to_vec(vstd::slice::slice_subrange(
                    bytes.as_slice(),
                    offset + 25,
                    offset + 25 + len,
                ));
                let stored = u32_from_le_bytes_at(bytes, offset + 25 + len);
                let computed = crc32(vstd::slice::slice_subrange(
                    bytes.as_slice(),
                    offset,
                    offset + 25 + len,
                ));
                proof {
                    assert(b.subrange(offset + 25, offset + 25 + len) =~= tailb.subrange(25, 25 + len));
                    assert(b.subrange(offset as int, offset + 25 + len) =~= tailb.subrange(0, 25 + len));
                    assert(b.subrange(offset + 25 + len, offset + 29 + len)
                        =~= tailb.subrange(25 + len, 29 + len));
                }
                if stored != computed {
                    proof {
                        assert(parse_log(tailb) is None);
                    }
                    return Err(StorageError::CorruptedData("crc mismatch".to_owned()));
                }
                let ghost r = LogRecord::Item { key, payload: payload@ };
                idx.insert(key, payload);
                proof {
                    lemma_replay_snoc(recs, r);
                    let size = ITEM_BASE_SIZE + len;
                    assert(tailb.skip(size as int) =~= b.skip(offset + size));
                    assert(parse_log(tailb) == match parse_log(tailb.skip(size as int)) {
                        Some(rest) => Some(seq![r] + rest),
                        None => None::<Seq<LogRecord>>,
                    });
                    if parse_log(b.skip(offset + size)) is Some {
                        let rest2 = parse_log(b.skip(offset + size))->Some_0;
                        assert(recs + (seq![r] + rest2) =~= recs.push(r) + rest2);
                    }
                    recs = recs.push(r);
                }
                offset = offset + ITEM_BASE_SIZE + len;
            }
        }
        proof {
            assert(b.skip(n as int) =~= Seq::<u8>::empty());
            assert(parse_log(b.skip(n as int)) == Some(Seq::<LogRecord>::empty()));
            assert(recs + Seq::<LogRecord>::empty() =~= recs);
        }
        Ok(idx)
    }

    /// Creates an empty container.  The engine holds one log per container,
    /// so the file model and the table entry exist together; the error comes
    /// whenever the id is already taken.
    pub fn create_container(&mut self, container_id: &String) -> (r: MoraResult<()>)
        requires
            old(self).wf(),
        ensures
            final(self).wf(),
            match r {
                Ok(_) => {
                    &&& !old(self).has_container(container_id@)
                    &&& final(self).has_container(container_id@)
                    &&& final(self).records_of(container_id@) == Seq::<LogRecord>::empty()
                    &&& final(self).log_of(container_id@) == Seq::<u8>::empty()
                    &&& final(self).index_map(container_id@) == Map::<u128, Seq<u8>>::empty()
                    &&& final(self).index_pairs(container_id@) == Seq::<(u128, Seq<u8>)>::empty()
                    &&& final(self).items_written_of(container_id@) == 0
                    &&& final(self).tombstones_written_of(container_id@) == 0
                    &&& final(self).container_ids() == old(self).container_ids().push(container_id@)
                    &&& Self::others_unchanged(*old(self), *final(self), container_id@)
                },
                Err(e) => {
                    &&& old(self).has_container(container_id@)
                    &&& *final(self) == *old(self)
                    &&& e matches MoraError::StorageError(StorageError::ContainerAlreadyExists(s))
                        && s@ == container_id@
                },
            },
    {
        let ghost pre = *self;
        if self.containers.contains(container_id) {
            return Err(MoraError::StorageError(StorageError::ContainerAlreadyExists(
                container_id.clone(),
            )));
        }
        let c = Container::empty();
        self.containers.insert(container_id.clone(), c);
        proof {
            assert(self.containers@ == pre.containers@.insert(container_id@, c));
            assert forall|id: Seq<char>| #[trigger] self.containers@.contains_key(id) implies
                self.containers@[id].inv() by {
                if id != container_id@ {
                    assert(pre.containers@.contains_key(id));
                }
            }
        }
        Ok(())
    }

    /// Deletes a container and its log irreversibly.
    pub fn delete_container(&mut self, container_id: &String) -> (r: MoraResult<()>)
        requires
            old(self).wf(),
        ensures
            final(self).wf(),
            match r {
                Ok(_) => {
                    &&& old(self).has_container(container_id@)
                    &&& !final(self).has_container(container_id@)
                    &&& Self::others_unchanged(*old(self), *final(self), container_id@)
                },
                Err(e) => {
                    &&& !old(self).has_container(container_id@)
                    &&& *final(self) == *old(self)
                    &&& e matches MoraError::StorageError(StorageError::ContainerNotFound(s))
                        && s@ == container_id@
                },
            },
    {
        let ghost pre = *self;
        let removed = self.containers.remove(container_id);
        if removed {
            proof {
                assert(self.containers@ == pre.containers@.remove(container_id@));
                assert forall|id: Seq<char>| #[trigger] self.containers@.contains_key(id) implies
                    self.containers@[id].inv() by {
                    assert(pre.containers@.contains_key(id));
                }
                assert forall|id2: Seq<char>| id2 != container_id@ implies
                    #[trigger] self.has_container(id2) == pre.has_container(id2) by {
                    assert(self.containers@.contains_key(id2) == pre.containers@.contains_key(id2));
                }
                assert forall|id2: Seq<char>| id2 != container_id@ && pre.has_container(id2) implies
                    self.containers@[id2] == pre.containers@[id2] by {}
            }
            Ok(())
        } else {
            Err(MoraError::StorageError(StorageError::ContainerNotFound(container_id.clone())))
        }
    }

    /// All container ids, oldest first.
    pub fn list_containers(&self) -> (r: MoraResult<Vec<String>>)
        requires
            self.wf(),
        ensures
            r is Ok,
            r->Ok_0@.len() == self.container_ids().len(),
            forall|i: int| 0 <= i < r->Ok_0@.len() ==> r->Ok_0@[i]@ == self.container_ids()[i],
    {
        Ok(self.containers.keys_vec())
    }

    /// A snapshot of one container's in-memory mapping; no byte of the log
    /// is read for it.
    pub fn get_all_items(&self, container_id: &String) -> (r: MoraResult<ItemIndex>)
        requires
            self.wf(),
        ensures
            match r {
                Ok(idx) => {
                    &&& self.has_container(container_id@)
                    &&& idx.wf()
                    &&& idx@ == self.index_map(container_id@)
                    &&& idx.pairs() == self.index_pairs(container_id@)
                },
                Err(e) => {
                    &&& !self.has_container(container_id@)
                    &&& e matches MoraError::StorageError(StorageError::ContainerNotFound(s))
                        && s@ == container_id@
                },
            },
    {
        match self.containers.get(container_id) {
            Some(c) => Ok(c.index.duplicate()),
            None => Err(MoraError::StorageError(StorageError::ContainerNotFound(
                container_id.clone(),
            ))),
        }
    }

    /// Stores an item: appends one framed item record to the container's log
    /// and upserts the key in the index, in that order.
    pub fn store_item(&mut self, container_id: &String, item_sort_key: &u128, item: &Vec<u8>) -> (r:
        MoraResult<()>)
        requires
            old(self).wf(),
        ensures
            final(self).wf(),
            match r {
                Ok(_) => {
                    let rec = (LogRecord::Item { key: *item_sort_key, payload: item@ });
                    &&& old(self).has_container(container_id@)
                    &&& final(self).has_container(container_id@)
                    &&& final(self).records_of(container_id@) == old(self).records_of(
                        container_id@,
                    ).push(rec)
                    &&& final(self).log_of(container_id@) == old(self).log_of(container_id@)
                        + record_bytes(rec)
                    &&& final(self).index_map(container_id@) == old(self).index_map(
                        container_id@,
                    ).insert(*item_sort_key, item@)
                    &&& final(self).items_written_of(container_id@) == sat_inc(
                        old(self).items_written_of(container_id@),
                    )
                    &&& final(self).tombstones_written_of(container_id@) == old(
                        self,
                    ).tombstones_written_of(container_id@)
                    &&& final(self).container_ids() == old(self).container_ids()
                    &&& Self::others_unchanged(*old(self), *final(self), container_id@)
                },
                Err(e) => {
                    &&& !old(self).has_container(container_id@)
                    &&& *final(self) == *old(self)
                    &&& e matches MoraError::StorageError(StorageError::ContainerNotFound(s))
                        && s@ == container_id@
                },
            },
    {
        let ghost pre = *self;
        match self.containers.index_of(container_id) {
            None => Err(MoraError::StorageError(StorageError::ContainerNotFound(
                container_id.clone(),
            ))),
            Some(ci) => {
                let ilen = item.len();
                let mut record = encode_item_record(*item_sort_key, item);
                let ghost grec = LogRecord::Item { key: *item_sort_key, payload: item@ };
                let c = self.containers.value_at_mut(ci);
                let ghost c0 = *c;
                proof {
                    lemma_replay_snoc(c0.records@, grec);
                    lemma_log_bytes_snoc(c0.records@, grec);
                }
                c.index.insert(*item_sort_key, item.clone());
                c.log.append(&mut record);
                c.stats.note_items(1);
                c.records = Ghost(c.records@.push(grec));
                proof {
                    assert(item@.len() == ilen);
                }
                proof {
                    let ks = pre.containers.keys_seq();
                    let vs = pre.containers.values_seq();
                    let cnew = self.containers.values_seq()[ci as int];
                    lemma_table_update(ks, vs, ci as int, cnew);
                    assert(self.containers@ == pre.containers@.insert(container_id@, cnew));
                    assert(cnew.inv());
                    assert forall|id: Seq<char>| #[trigger] self.containers@.contains_key(id) implies
                        self.containers@[id].inv() by {
                        if id != container_id@ {
                            assert(pre.containers@.contains_key(id));
                        }
                    }
                }
                Ok(())
            },
        }
    }

    /// Stores a batch of items as one combined append: either every record
    /// of the batch ends up in the log, or none does.
    pub fn store_items(&mut self, container_id: &String, items: &Vec<(u128, Vec<u8>)>) -> (r:
        MoraResult<()>)
        requires
            old(self).wf(),
        ensures
            final(self).wf(),
            match r {
                Ok(_) => if items@.len() == 0 {
                    *final(self) == *old(self)
                } else {
                    let recs = batch_records(batch_view(items@));
                    &&& old(self).has_container(container_id@)
                    &&& final(self).has_container(container_id@)
                    &&& final(self).records_of(container_id@) == old(self).records_of(
                        container_id@,
                    ) + recs
                    &&& final(self).log_of(container_id@) == log_bytes(
                        final(self).records_of(container_id@),
                    )
                    &&& final(self).index_map(container_id@) == replay_from(
                        old(self).index_map(container_id@),
                        recs,
                    )
                    &&& final(self).items_written_of(container_id@) == sat_add(
                        old(self).items_written_of(container_id@),
                        items@.len() as u64,
                    )
                    &&& final(self).tombstones_written_of(container_id@) == old(
                        self,
                    ).tombstones_written_of(container_id@)
                    &&& final(self).container_ids() == old(self).container_ids()
                    &&& Self::others_unchanged(*old(self), *final(self), container_id@)
                },
                Err(e) => {
                    &&& items@.len() > 0
                    &&& !old(self).has_container(container_id@)
                    &&& *final(self) == *old(self)
                    &&& e matches MoraError::StorageError(StorageError::ContainerNotFound(s))
                        && s@ == container_id@
                },
            },
    {
        let ghost pre = *self;
        if items.len() == 0 {
            return Ok(());
        }
        match self.containers.index_of(container_id) {
            None => Err(MoraError::StorageError(StorageError::ContainerNotFound(
                container_id.clone(),
            ))),
            Some(ci) => {
                let count = items.len();
                let c = self.containers.value_at_mut(ci);
                let ghost c0 = *c;
                let ghost view = batch_view(items@);
                proof {
                    assert(c0.records@ + batch_records(view.subrange(0, 0)) =~= c0.records@);
                    assert(replay_from(c0.index@, batch_records(view.subrange(0, 0))) == c0.index@);
                }
                let mut i: usize = 0;
                while i < count
                    invariant
                        count == items@.len(),
                        view == batch_view(items@),
                        0 <= i <= count,
                        c0.inv(),
                        c.index.wf(),
                        c.records@ == c0.records@ + batch_records(view.subrange(0, i as int)),
                        c.log@ == log_bytes(c.records@),
                        c.index@ == replay(c.records@),
                        c.index@ == replay_from(c0.index@, batch_records(view.subrange(0, i as int))),
                        forall|j: int| 0 <= j < c.records@.len()
                            ==> record_valid(#[trigger] c.records@[j]),
                        c.stats == c0.stats,
                    decreases count - i,
                {
                    let key = items[i].0;
                    let payload = &items[i].1;
                    let plen = payload.len();
                    let mut record = encode_item_record(key, payload);
                    let ghost grec = LogRecord::Item { key, payload: payload@ };
                    let ghost rsub = batch_records(view.subrange(0, i as int));
                    proof {
                        assert(payload@.len() == plen);
                        lemma_replay_snoc(c.records@, grec);
                        lemma_replay_from_snoc(c0.index@, rsub, grec);
                        lemma_log_bytes_snoc(c.records@, grec);
                        assert(rsub.push(grec) =~= batch_records(view.subrange(0, i + 1)));
                        assert(c.records@.push(grec) =~= c0.records@ + batch_records(
                            view.subrange(0, i + 1),
                        ));
                    }
                    c.index.insert(key, payload.clone());
                    c.log.append(&mut record);
                    c.records = Ghost(c.records@.push(grec));
                    i = i + 1;
                }
                c.stats.note_items(count as u64);
                proof {
                    assert(view.subrange(0, count as int) =~= view);
                }
                proof {
                    let ks = pre.containers.keys_seq();
                    let vs = pre.containers.values_seq();
                    let cnew = self.containers.values_seq()[ci as int];
                    lemma_table_update(ks, vs, ci as int, cnew);
                    assert(cnew.inv());
                    assert forall|id: Seq<char>| #[trigger] self.containers@.contains_key(id) implies
                        self.containers@[id].inv() by {
                        if id != container_id@ {
                            assert(pre.containers@.contains_key(id));
                        }
                    }
                }
                Ok(())
            },
        }
    }

    /// Deletes an item: appends one tombstone record and drops the key from
    /// the index; deleting an absent key still writes its tombstone.  When
    /// the counters cross the compaction threshold the container's log is
    /// compacted in the same call.
    pub fn delete_item(&mut self, container_id: &String, item_sort_key: &u128) -> (r: MoraResult<
        (),
    >)
        requires
            old(self).wf(),
        ensures
            final(self).wf(),
            match r {
                Ok(_) => {
                    let rec = (LogRecord::Tombstone { key: *item_sort_key });
                    let tombs = sat_inc(old(self).tombstones_written_of(container_id@));
                    let compacted = spec_should_compact(
                        old(self).items_written_of(container_id@),
                        tombs,
                    );
                    &&& old(self).has_container(container_id@)
                    &&& final(self).has_container(container_id@)
                    &&& final(self).index_map(container_id@) == old(self).index_map(
                        container_id@,
                    ).remove(*item_sort_key)
                    &&& final(self).items_written_of(container_id@) == old(self).items_written_of(
                        container_id@,
                    )
                    &&& final(self).tombstones_written_of(container_id@) == tombs
                    &&& (if compacted {
                        final(self).records_of(container_id@) == compacted_records(
                            final(self).index_pairs(container_id@),
                        )
                    } else {
                        final(self).records_of(container_id@) == old(self).records_of(
                            container_id@,
                        ).push(rec)
                    })
                    &&& final(self).log_of(container_id@) == log_bytes(
                        final(self).records_of(container_id@),
                    )
                    &&& final(self).container_ids() == old(self).container_ids()
                    &&& Self::others_unchanged(*old(self), *final(self), container_id@)
                },
                Err(e) => {
                    &&& !old(self).has_container(container_id@)
                    &&& *final(self) == *old(self)
                    &&& e matches MoraError::StorageError(StorageError::ContainerNotFound(s))
                        && s@ == container_id@
                },
            },
    {
        let ghost pre = *self;
        match self.containers.index_of(container_id) {
            None => Err(MoraError::StorageError(StorageError::ContainerNotFound(
                container_id.clone(),
            ))),
            Some(ci) => {
                let mut record = encode_tombstone_record(*item_sort_key);
                let ghost grec = LogRecord::Tombstone { key: *item_sort_key };
                let c = self.containers.value_at_mut(ci);
                let ghost c0 = *c;
                proof {
                    lemma_replay_snoc(c0.records@, grec);
                    lemma_log_bytes_snoc(c0.records@, grec);
                }
                c.index.remove(*item_sort_key);
                c.log.append(&mut record);
                c.stats.note_tombstones(1);
                c.records = Ghost(c.records@.push(grec));
                if c.stats.should_compact() {
                    c.compact();
                }
                proof {
                    let ks = pre.containers.keys_seq();
                    let vs = pre.containers.values_seq();
                    let cnew = self.containers.values_seq()[ci as int];
                    lemma_table_update(ks, vs, ci as int, cnew);
                    assert(cnew.inv());
                    assert forall|id: Seq<char>| #[trigger] self.containers@.contains_key(id) implies
                        self.containers@[id].inv() by {
                        if id != container_id@ {
                            assert(pre.containers@.contains_key(id));
                        }
                    }
                }
                Ok(())
            },
        }
    }

    /// Deletes a batch of keys as one combined tombstone append, with a
    /// single compaction check afterwards.
    pub fn delete_items(&mut self, container_id: &String, item_sort_keys: &Vec<u128>) -> (r:
        MoraResult<()>)
        requires
            old(self).wf(),
        ensures
            final(self).wf(),
            match r {
                Ok(_) => if item_sort_keys@.len() == 0 {
                    *final(self) == *old(self)
                } else {
                    let recs = tombstone_records(item_sort_keys@);
                    let tombs = sat_add(
                        old(self).tombstones_written_of(container_id@),
                        item_sort_keys@.len() as u64,
                    );
                    let compacted = spec_should_compact(
                        old(self).items_written_of(container_id@),
                        tombs,
                    );
                    &&& old(self).has_container(container_id@)
                    &&& final(self).has_container(container_id@)
                    &&& final(self).index_map(container_id@) == replay_from(
                        old(self).index_map(container_id@),
                        recs,
                    )
                    &&& final(self).items_written_of(container_id@) == old(self).items_written_of(
                        container_id@,
                    )
                    &&& final(self).tombstones_written_of(container_id@) == tombs
                    &&& (if compacted {
                        final(self).records_of(container_id@) == compacted_records(
                            final(self).index_pairs(container_id@),
                        )
                    } else {
                        final(self).records_of(container_id@) == old(self).records_of(
                            container_id@,
                        ) + recs
                    })
                    &&& final(self).log_of(container_id@) == log_bytes(
                        final(self).records_of(container_id@),
                    )
                    &&& final(self).container_ids() == old(self).container_ids()
                    &&& Self::others_unchanged(*old(self), *final(self), container_id@)
                },
                Err(e) => {
                    &&& item_sort_keys@.len() > 0
                    &&& !old(self).has_container(container_id@)
                    &&& *final(self) == *old(self)
                    &&& e matches MoraError::StorageError(StorageError::ContainerNotFound(s))
                        && s@ == container_id@
                },
            },
    {
        let ghost pre = *self;
        if item_sort_keys.len() == 0 {
            return Ok(());
        }
        match self.containers.index_of(container_id) {
            None => Err(MoraError::StorageError(StorageError::ContainerNotFound(
                container_id.clone(),
            ))),
            Some(ci) => {
                let count = item_sort_keys.len();
                let c = self.containers.value_at_mut(ci);
                let ghost c0 = *c;
                proof {
                    assert(c0.records@ + tombstone_records(item_sort_keys@.subrange(0, 0))
                        =~= c0.records@);
                    assert(replay_from(
                        c0.index@,
                        tombstone_records(item_sort_keys@.subrange(0, 0)),
                    ) == c0.index@);
                }
                let mut i: usize = 0;
                while i < count
                    invariant
                        count == item_sort_keys@.len(),
                        0 <= i <= count,
                        c0.inv(),
                        c.index.wf(),
                        c.records@ == c0.records@ + tombstone_records(
                            item_sort_keys@.subrange(0, i as int),
                        ),
                        c.log@ == log_bytes(c.records@),
                        c.index@ == replay(c.records@),
                        c.index@ == replay_from(
                            c0.index@,
                            tombstone_records(item_sort_keys@.subrange(0, i as int)),
                        ),
                        forall|j: int| 0 <= j < c.records@.len()
                            ==> record_valid(#[trigger] c.records@[j]),
                        c.stats == c0.stats,
                    decreases count - i,
                {
                    let key = item_sort_keys[i];
                    let mut record = encode_tombstone_record(key);
                    let ghost grec = LogRecord::Tombstone { key };
                    let ghost rsub = tombstone_records(item_sort_keys@.subrange(0, i as int));
                    proof {
                        lemma_replay_snoc(c.records@, grec);
                        lemma_replay_from_snoc(c0.index@, rsub, grec);
                        lemma_log_bytes_snoc(c.records@, grec);
                        assert(rsub.push(grec) =~= tombstone_records(
                            item_sort_keys@.subrange(0, i + 1),
                        ));
                        assert(c.records@.push(grec) =~= c0.records@ + tombstone_records(
                            item_sort_keys@.subrange(0, i + 1),
                        ));
                    }
                    c.index.remove(key);
                    c.log.append(&mut record);
                    c.records = Ghost(c.records@.push(grec));
                    i = i + 1;
                }
                c.stats.note_tombstones(count as u64);
                proof {
                    assert(item_sort_keys@.subrange(0, count as int) =~= item_sort_keys@);
                }
                if c.stats.should_compact() {
                    c.compact();
                }
                proof {
                    let ks = pre.containers.keys_seq();
                    let vs = pre.containers.values_seq();
                    let cnew = self.containers.values_seq()[ci as int];
                    lemma_table_update(ks, vs, ci as int, cnew);
                    assert(cnew.inv());
                    assert forall|id: Seq<char>| #[trigger] self.containers@.contains_key(id) implies
                        self.containers@[id].inv() by {
                        if id != container_id@ {
                            assert(pre.containers@.contains_key(id));
                        }
                    }
                }
                Ok(())
            },
        }
    }

    /// Rewrites a container's log to exactly one item record per live key
    /// and no tombstones, preserving the in-memory mapping bit for bit.
    pub fn compact_container(&mut self, container_id: &String) -> (r: MoraResult<()>)
        requires
            old(self).wf(),
        ensures
            final(self).wf(),
            match r {
                Ok(_) => {
                    &&& old(self).has_container(container_id@)
                    &&& final(self).has_container(container_id@)
                    &&& final(self).index_map(container_id@) == old(self).index_map(container_id@)
                    &&& final(self).index_pairs(container_id@) == old(self).index_pairs(
                        container_id@,
                    )
                    &&& final(self).items_written_of(container_id@) == old(self).items_written_of(
                        container_id@,
                    )
                    &&& final(self).tombstones_written_of(container_id@) == old(
                        self,
                    ).tombstones_written_of(container_id@)
                    &&& final(self).records_of(container_id@) == compacted_records(
                        old(self).index_pairs(container_id@),
                    )
                    &&& final(self).log_of(container_id@) == log_bytes(
                        final(self).records_of(container_id@),
                    )
                    &&& final(self).container_ids() == old(self).container_ids()
                    &&& Self::others_unchanged(*old(self), *final(self), container_id@)
                },
                Err(e) => {
                    &&& !old(self).has_container(container_id@)
                    &&& *final(self) == *old(self)
                    &&& e matches MoraError::StorageError(StorageError::ContainerNotFound(s))
                        && s@ == container_id@
                },
            },
    {
        let ghost pre = *self;
        match self.containers.index_of(container_id) {
            None => Err(MoraError::StorageError(StorageError::ContainerNotFound(
                container_id.clone(),
            ))),
            Some(ci) => {
                let c = self.containers.value_at_mut(ci);
                c.compact();
                proof {
                    let ks = pre.containers.keys_seq();
                    let vs = pre.containers.values_seq();
                    let cnew = self.containers.values_seq()[ci as int];
                    lemma_table_update(ks, vs, ci as int, cnew);
                    assert(cnew.inv());
                    assert forall|id: Seq<char>| #[trigger] self.containers@.contains_key(id) implies
                        self.containers@[id].inv() by {
                        if id != container_id@ {
                            assert(pre.containers@.contains_key(id));
                        }
                    }
                }
                Ok(())
            },
        }
    }

    /// Loads the engine from the replayed directory: one `(container id,
    /// log bytes)` pair per log file, in directory order.  Fails with the
    /// corruption error exactly when some log does not parse, a truncated
    /// trailing record included.
    pub fn load(files: Vec<(String, Vec<u8>)>) -> (r: MoraResult<WalFileStorage>)
        requires
            forall|i: int, j: int| 0 <= i < j < files@.len() ==> files@[i].0@ != files@[j].0@,
        ensures
            match r {
                Ok(s) => {
                    &&& s.wf()
                    &&& s.container_ids().len() == files@.len()
                    &&& forall|i: int| 0 <= i < files@.len()
                        ==> s.container_ids()[i] == files@[i].0@
                    &&& forall|i: int| 0 <= i < files@.len() ==> {
                        &&& parse_log((#[trigger] files@[i]).1@) is Some
                        &&& s.has_container(files@[i].0@)
                        &&& s.records_of(files@[i].0@) == parse_log(files@[i].1@)->Some_0
                        &&& s.log_of(files@[i].0@) == files@[i].1@
                        &&& s.index_map(files@[i].0@) == replay(parse_log(files@[i].1@)->Some_0)
                        &&& s.items_written_of(files@[i].0@) == 0
                        &&& s.tombstones_written_of(files@[i].0@) == 0
                    }
                },
                Err(e) => {
                    &&& exists|i: int| 0 <= i < files@.len() && parse_log(
                        (#[trigger] files@[i]).1@,
                    ) is None
                    &&& e matches MoraError::StorageError(StorageError::CorruptedData(_))
                },
            },
    {
        let count = files.len();
        let mut s = WalFileStorage::new();
        let mut i: usize = 0;
        while i < count
            invariant
                count == files@.len(),
                0 <= i <= count,
                forall|a: int, b: int| 0 <= a < b < files@.len() ==> files@[a].0@ != files@[b].0@,
                s.wf(),
                s.container_ids().len() == i,
                forall|j: int| 0 <= j < i ==> s.container_ids()[j] == files@[j].0@,
                forall|j: int| 0 <= j < i ==> {
                    &&& parse_log((#[trigger] files@[j]).1@) is Some
                    &&& s.has_container(files@[j].0@)
                    &&& s.records_of(files@[j].0@) == parse_log(files@[j].1@)->Some_0
                    &&& s.log_of(files@[j].0@) == files@[j].1@
                    &&& s.index_map(files@[j].0@) == replay(parse_log(files@[j].1@)->Some_0)
                    &&& s.items_written_of(files@[j].0@) == 0
                    &&& s.tombstones_written_of(files@[j].0@) == 0
                },
                forall|id: Seq<char>| #[trigger] s.has_container(id)
                    ==> exists|j: int| 0 <= j < i && files@[j].0@ == id,
            decreases count - i,
        {
            let ghost spre = s;
            let id = files[i].0.clone();
            let bytes = files[i].1.clone();
            match Self::replay_log(&bytes) {
                Err(se) => {
                    return Err(MoraError::StorageError(se));
                },
                Ok(idx) => {
                    proof {
                        lemma_parse_log_sound(bytes@);
                        if s.has_container(id@) {
                            let w = choose|j: int| 0 <= j < i && files@[j].0@ == id@;
                            assert(false);
                        }
                    }
                    let c = Container {
                        log: bytes,
                        index: idx,
                        records: Ghost(parse_log(files@[i as int].1@)->Some_0),
                        stats: WalStats::new(),
                    };
                    s.containers.insert(id, c);
                    proof {
                        assert(s.containers@ == spre.containers@.insert(files@[i as int].0@, c));
                        assert forall|id2: Seq<char>| #[trigger]
                            s.containers@.contains_key(id2) implies s.containers@[id2].inv() by {
                            if id2 != files@[i as int].0@ {
                                assert(spre.containers@.contains_key(id2));
                            }
                        }
                        assert forall|id2: Seq<char>| #[trigger] s.has_container(id2) implies
                            exists|j: int| 0 <= j < i + 1 && files@[j].0@ == id2 by {
                            if id2 == files@[i as int].0@ {
                                assert(files@[i as int].0@ == id2);
                            } else {
                                assert(spre.has_container(id2));
                            }
                        }
                    }
                },
            }
            i = i + 1;
        }
        Ok(s)
    }

    /// A copy of the exact bytes of one container's durable log, as the
    /// owner of the real file must hold them.
    pub fn container_log(&self, container_id: &String) -> (r: MoraResult<Vec<u8>>)
        requires
            self.wf(),
        ensures
            match r {
                Ok(bytes) => self.has_container(container_id@) && bytes@ == self.log_of(
                    container_id@,
                ),
                Err(e) => {
                    &&& !self.has_container(container_id@)
                    &&& e matches MoraError::StorageError(StorageError::ContainerNotFound(s))
                        && s@ == container_id@
                },
            },
    {
        match self.containers.get(container_id) {
            Some(c) => {
                let bytes = c.log.clone();
                proof {
                    crate::pool::lemma_cloned_bytes(c.log, bytes);
                }
                Ok(bytes)
            },
            None => Err(MoraError::StorageError(StorageError::ContainerNotFound(
                container_id.clone(),
            ))),
        }
    }

    /// The listed container ids are distinct, and each names a container.
    pub proof fn lemma_container_ids_unique(s: WalFileStorage)
        requires
            s.wf(),
        ensures
            crate::registry::keys_unique(s.container_ids()),
            forall|i: int|
                0 <= i < s.container_ids().len() ==> s.has_container(
                    #[trigger] s.container_ids()[i],
                ),
            forall|id: Seq<char>| #[trigger]
                s.has_container(id) ==> exists|i: int|
                    0 <= i < s.container_ids().len() && s.container_ids()[i] == id,
    {
        assert forall|i: int| 0 <= i < s.container_ids().len() implies s.has_container(
            #[trigger] s.container_ids()[i],
        ) by {
            assert(s.containers.keys_seq()[i] == s.container_ids()[i]);
        }
        assert forall|id: Seq<char>| #[trigger] s.has_container(id) implies exists|i: int|
            0 <= i < s.container_ids().len() && s.container_ids()[i] == id by {
            let w = choose|w: int|
                0 <= w < s.containers.keys_seq().len() && s.containers.keys_seq()[w] == id;
            assert(s.container_ids()[w] == id);
        }
    }

    /// Replay idempotence: at any moment the log of a container parses back
    /// to exactly the records the engine appended, and their replay is the
    /// in-memory index, so a fresh load of the same bytes restores the index
    /// of the last successful operation.
    pub proof fn lemma_replay_idempotent(s: WalFileStorage, id: Seq<char>)
        requires
            s.wf(),
            s.has_container(id),
        ensures
            parse_log(s.log_of(id)) == Some(s.records_of(id)),
            replay(s.records_of(id)) == s.index_map(id),
    {
        lemma_parse_log_complete(s.records_of(id));
    }

    /// The log contains what is live in memory: for every live key of a
    /// container, the last record of its log that speaks about the key is an
    /// item record carrying exactly the live payload; in particular it comes
    /// after every tombstone for that key.
    pub proof fn lemma_wal_contains_memory(s: WalFileStorage, id: Seq<char>, key: u128)
        requires
            s.wf(),
            s.has_container(id),
            s.index_map(id).contains_key(key),
        ensures
            exists|i: int|
                0 <= i < s.records_of(id).len() && #[trigger] s.records_of(id)[i]
                    == (LogRecord::Item { key, payload: s.index_map(id)[key] })
                    && forall|j: int| i < j < s.records_of(id).len()
                        ==> crate::codec::record_key(#[trigger] s.records_of(id)[j]) != key,
    {
        crate::codec::lemma_live_key_has_item_record(s.records_of(id), key);
    }
}

/// The specification-level view of a batch of `(key, payload)` arguments.
pub open spec fn batch_view(items: Seq<(u128, Vec<u8>)>) -> Seq<(u128, Seq<u8>)> {
    Seq::new(items.len(), |i: int| (items[i].0, items[i].1@))
}

/// Last write wins: after storing twice to one key, replaying the log
/// yields the second payload.
pub proof fn lemma_last_write_wins(rs: Seq<LogRecord>, k: u128, v1: Seq<u8>, v2: Seq<u8>)
    ensures
        replay(rs.push(LogRecord::Item { key: k, payload: v1 }).push(
            LogRecord::Item { key: k, payload: v2 },
        )).contains_key(k),
        replay(rs.push(LogRecord::Item { key: k, payload: v1 }).push(
            LogRecord::Item { key: k, payload: v2 },
        ))[k] == v2,
{
    let rs1 = rs.push(LogRecord::Item { key: k, payload: v1 });
    lemma_replay_snoc(rs, LogRecord::Item { key: k, payload: v1 });
    lemma_replay_snoc(rs1, LogRecord::Item { key: k, payload: v2 });
}

/// Store then delete: a tombstone after an item record leaves no entry for
/// the key when the log is replayed.
pub proof fn lemma_store_then_delete(rs: Seq<LogRecord>, k: u128, v: Seq<u8>)
    ensures
        !replay(rs.push(LogRecord::Item { key: k, payload: v }).push(
            LogRecord::Tombstone { key: k },
        )).contains_key(k),
{
    let rs1 = rs.push(LogRecord::Item { key: k, payload: v });
    lemma_replay_snoc(rs, LogRecord::Item { key: k, payload: v });
    lemma_replay_snoc(rs1, LogRecord::Tombstone { key: k });
}

/// Store then read: replaying a log that ends in an item record yields that
/// record's payload at its key.
pub proof fn lemma_store_then_get(rs: Seq<LogRecord>, k: u128, v: Seq<u8>)
    ensures
        replay(rs.push(LogRecord::Item { key: k, payload: v })).contains_key(k),
        replay(rs.push(LogRecord::Item { key: k, payload: v }))[k] == v,
{
    lemma_replay_snoc(rs, LogRecord::Item { key: k, payload: v });
}


/// A mapping after upserting a batch of `(key, payload)` pairs in order.
pub open spec fn upserted(m: Map<u128, Seq<u8>>, items: Seq<(u128, Seq<u8>)>) -> Map<u128, Seq<u8>>
    decreases items.len(),
{
    if items.len() == 0 {
        m
    } else {
        upserted(m.insert(items[0].0, items[0].1), items.skip(1))
    }
}

/// A mapping after removing a batch of keys in order.
pub open spec fn removed(m: Map<u128, Seq<u8>>, keys: Seq<u128>) -> Map<u128, Seq<u8>>
    decreases keys.len(),
{
    if keys.len() == 0 {
        m
    } else {
        removed(m.remove(keys[0]), keys.skip(1))
    }
}

/// Upserting a batch is replaying its item records.
pub proof fn lemma_upserted_is_replay(m: Map<u128, Seq<u8>>, items: Seq<(u128, Seq<u8>)>)
    ensures
        upserted(m, items) == replay_from(m, batch_records(items)),
    decreases items.len(),
{
    if items.len() != 0 {
        assert(batch_records(items)[0] == (LogRecord::Item { key: items[0].0, payload: items[0].1 }));
        assert(batch_records(items).skip(1) =~= batch_records(items.skip(1)));
        lemma_upserted_is_replay(m.insert(items[0].0, items[0].1), items.skip(1));
        assert(replay_from(m, batch_records(items)) == replay_from(
            apply_record(m, batch_records(items)[0]),
            batch_records(items).skip(1),
        ));
    }
}

/// Removing a batch of keys is replaying their tombstones.
pub proof fn lemma_removed_is_replay(m: Map<u128, Seq<u8>>, keys: Seq<u128>)
    ensures
        removed(m, keys) == replay_from(m, tombstone_records(keys)),
    decreases keys.len(),
{
    if keys.len() != 0 {
        assert(tombstone_records(keys)[0] == (LogRecord::Tombstone { key: keys[0] }));
        assert(tombstone_records(keys).skip(1) =~= tombstone_records(keys.skip(1)));
        lemma_removed_is_replay(m.remove(keys[0]), keys.skip(1));
        assert(replay_from(m, tombstone_records(keys)) == replay_from(
            apply_record(m, tombstone_records(keys)[0]),
            tombstone_records(keys).skip(1),
        ));
    }
}

/// The storage abstraction the broker builds on: named containers of sorted
/// items, with single and batched stores and deletions.  The WAL engine is
/// its durable implementation; an in-memory engine could stand in for it.
/// Its state is the capability set's one observable: which containers exist
/// and what each maps its keys to.
pub trait Storage: Sized {
    /// Each container's key-to-payload mapping.
    spec fn s_contents(&self) -> Map<Seq<char>, Map<u128, Seq<u8>>>;

    /// The implementation's own well-formedness.
    spec fn s_wf(&self) -> bool;

    fn create_container(&mut self, container_id: &String) -> (r: MoraResult<()>)
        requires
            old(self).s_wf(),
        ensures
            final(self).s_wf(),
            (r is Ok) == !old(self).s_contents().contains_key(container_id@),
            r is Ok ==> final(self).s_contents() == old(self).s_contents().insert(
                container_id@,
                Map::empty(),
            ),
            !(r is Ok) ==> final(self).s_contents() == old(self).s_contents(),
    ;

    fn delete_container(&mut self, container_id: &String) -> (r: MoraResult<()>)
        requires
            old(self).s_wf(),
        ensures
            final(self).s_wf(),
            (r is Ok) == old(self).s_contents().contains_key(container_id@),
            final(self).s_contents() == old(self).s_contents().remove(container_id@),
    ;

    fn list_containers(&self) -> (r: MoraResult<Vec<String>>)
        requires
            self.s_wf(),
        ensures
            r is Ok,
            forall|i: int|
                0 <= i < r->Ok_0@.len() ==> self.s_contents().contains_key(
                    (#[trigger] r->Ok_0@[i])@,
                ),
            forall|id: Seq<char>| #[trigger]
                self.s_contents().contains_key(id) ==> exists|i: int|
                    0 <= i < r->Ok_0@.len() && r->Ok_0@[i]@ == id,
    ;

    fn store_item(&mut self, container_id: &String, item_sort_key: &u128, item: &Vec<u8>) -> (r:
        MoraResult<()>)
        requires
            old(self).s_wf(),
        ensures
            final(self).s_wf(),
            (r is Ok) == old(self).s_contents().contains_key(container_id@),
            r is Ok ==> final(self).s_contents() == old(self).s_contents().insert(
                container_id@,
                old(self).s_contents()[container_id@].insert(*item_sort_key, item@),
            ),
            !(r is Ok) ==> final(self).s_contents() == old(self).s_contents(),
    ;

    fn store_items(&mut self, container_id: &String, items: &Vec<(u128, Vec<u8>)>) -> (r:
        MoraResult<()>)
        requires
            old(self).s_wf(),
        ensures
            final(self).s_wf(),
            (r is Ok) == (items@.len() == 0 || old(self).s_contents().contains_key(container_id@)),
            r is Ok && items@.len() > 0 ==> final(self).s_contents() == old(
                self,
            ).s_contents().insert(
                container_id@,
                upserted(old(self).s_contents()[container_id@], batch_view(items@)),
            ),
            r is Ok && items@.len() == 0 ==> final(self).s_contents() == old(self).s_contents(),
            !(r is Ok) ==> final(self).s_contents() == old(self).s_contents(),
    ;

    fn delete_item(&mut self, container_id: &String, item_sort_key: &u128) -> (r: MoraResult<()>)
        requires
            old(self).s_wf(),
        ensures
            final(self).s_wf(),
            (r is Ok) == old(self).s_contents().contains_key(container_id@),
            r is Ok ==> final(self).s_contents() == old(self).s_contents().insert(
                container_id@,
                old(self).s_contents()[container_id@].remove(*item_sort_key),
            ),
            !(r is Ok) ==> final(self).s_contents() == old(self).s_contents(),
    ;

    fn delete_items(&mut self, container_id: &String, item_sort_keys: &Vec<u128>) -> (r:
        MoraResult<()>)
        requires
            old(self).s_wf(),
        ensures
            final(self).s_wf(),
            (r is Ok) == (item_sort_keys@.len() == 0 || old(self).s_contents().contains_key(
                container_id@,
            )),
            r is Ok && item_sort_keys@.len() > 0 ==> final(self).s_contents() == old(
                self,
            ).s_contents().insert(
                container_id@,
                removed(old(self).s_contents()[container_id@], item_sort_keys@),
            ),
            r is Ok && item_sort_keys@.len() == 0 ==> final(self).s_contents() == old(
                self,
            ).s_contents(),
            !(r is Ok) ==> final(self).s_contents() == old(self).s_contents(),
    ;

    fn get_all_items(&self, container_id: &String) -> (r: MoraResult<ItemIndex>)
        requires
            self.s_wf(),
        ensures
            (r is Ok) == self.s_contents().contains_key(container_id@),
            r is Ok ==> r->Ok_0@ == self.s_contents()[container_id@],
    ;
}

impl Storage for WalFileStorage {
    closed spec fn s_contents(&self) -> Map<Seq<char>, Map<u128, Seq<u8>>> {
        Map::new(|id: Seq<char>| self.has_container(id), |id: Seq<char>| self.index_map(id))
    }

    closed spec fn s_wf(&self) -> bool {
        self.wf()
    }

    fn create_container(&mut self, container_id: &String) -> (r: MoraResult<()>) {
        let ghost pre = *self;
        let r = WalFileStorage::create_container(self, container_id);
        proof {
            if r is Ok {
                assert(Storage::s_contents(self) =~= Storage::s_contents(&pre).insert(
                    container_id@,
                    Map::empty(),
                ));
            } else {
                assert(Storage::s_contents(self) =~= Storage::s_contents(&pre));
            }
        }
        r
    }

    fn delete_container(&mut self, container_id: &String) -> (r: MoraResult<()>) {
        let ghost pre = *self;
        let r = WalFileStorage::delete_container(self, container_id);
        proof {
            assert(Storage::s_contents(self) =~= Storage::s_contents(&pre).remove(container_id@));
        }
        r
    }

    fn list_containers(&self) -> (r: MoraResult<Vec<String>>) {
        let r = WalFileStorage::list_containers(self);
        proof {
            WalFileStorage::lemma_container_ids_unique(*self);
            assert forall|i: int| 0 <= i < r->Ok_0@.len() implies Storage::s_contents(
                self,
            ).contains_key((#[trigger] r->Ok_0@[i])@) by {
                assert(r->Ok_0@[i]@ == self.container_ids()[i]);
                assert(self.has_container(self.container_ids()[i]));
            }
            assert forall|id: Seq<char>| #[trigger] Storage::s_contents(self).contains_key(
                id,
            ) implies exists|i: int| 0 <= i < r->Ok_0@.len() && r->Ok_0@[i]@ == id by {
                let j = choose|j: int|
                    0 <= j < self.container_ids().len() && self.container_ids()[j] == id;
                assert(r->Ok_0@[j]@ == id);
            }
        }
        r
    }

    fn store_item(&mut self, container_id: &String, item_sort_key: &u128, item: &Vec<u8>) -> (r:
        MoraResult<()>) {
        let ghost pre = *self;
        let r = WalFileStorage::store_item(self, container_id, item_sort_key, item);
        proof {
            if r is Ok {
                assert(Storage::s_contents(self) =~= Storage::s_contents(&pre).insert(
                    container_id@,
                    Storage::s_contents(&pre)[container_id@].insert(*item_sort_key, item@),
                ));
            } else {
                assert(Storage::s_contents(self) =~= Storage::s_contents(&pre));
            }
        }
        r
    }

    fn store_items(&mut self, container_id: &String, items: &Vec<(u128, Vec<u8>)>) -> (r:
        MoraResult<()>) {
        let ghost pre = *self;
        let r = WalFileStorage::store_items(self, container_id, items);
        proof {
            if r is Ok && items@.len() > 0 {
                lemma_upserted_is_replay(pre.index_map(container_id@), batch_view(items@));
                assert(Storage::s_contents(self) =~= Storage::s_contents(&pre).insert(
                    container_id@,
                    upserted(Storage::s_contents(&pre)[container_id@], batch_view(items@)),
                ));
            } else {
                assert(Storage::s_contents(self) =~= Storage::s_contents(&pre));
            }
        }
        r
    }

    fn delete_item(&mut self, container_id: &String, item_sort_key: &u128) -> (r: MoraResult<()>) {
        let ghost pre = *self;
        let r = WalFileStorage::delete_item(self, container_id, item_sort_key);
        proof {
            if r is Ok {
                assert(Storage::s_contents(self) =~= Storage::s_contents(&pre).insert(
                    container_id@,
                    Storage::s_contents(&pre)[container_id@].remove(*item_sort_key),
                ));
            } else {
                assert(Storage::s_contents(self) =~= Storage::s_contents(&pre));
            }
        }
        r
    }

    fn delete_items(&mut self, container_id: &String, item_sort_keys: &Vec<u128>) -> (r:
        MoraResult<()>) {
        let ghost pre = *self;
        let r = WalFileStorage::delete_items(self, container_id, item_sort_keys);
        proof {
            if r is Ok && item_sort_keys@.len() > 0 {
                lemma_removed_is_replay(pre.index_map(container_id@), item_sort_keys@);
                assert(Storage::s_contents(self) =~= Storage::s_contents(&pre).insert(
                    container_id@,
                    removed(Storage::s_contents(&pre)[container_id@], item_sort_keys@),
                ));
            } else {
                assert(Storage::s_contents(self) =~= Storage::s_contents(&pre));
            }
        }
        r
    }

    fn get_all_items(&self, container_id: &String) -> (r: MoraResult<ItemIndex>) {
        WalFileStorage::get_all_items(self, container_id)
    }
}

/// Where the WAL directory lives; the owner of the real files reads the
/// path from its environment and hands it over as a plain string.
pub struct WalFileStorageConfig {
    wal_path: String,
}

impl WalFileStorageConfig {
    pub closed spec fn spec_wal_path(&self) -> Seq<char> {
        self.wal_path@
    }

    pub fn new(wal_path: String) -> (r: WalFileStorageConfig)
        ensures
            r.spec_wal_path() == wal_path@,
    {
        WalFileStorageConfig { wal_path }
    }

    pub fn wal_path(&self) -> (r: &String)
        ensures
            r@ == self.spec_wal_path(),
    {
        &self.wal_path
    }
}

/// Reads a 128-bit little-endian value out of the byte vector at an offset.
fn u128_from_le_bytes_at(bytes: &Vec<u8>, offset: usize) -> (r: u128)
    requires
        offset + 16 <= bytes@.len(),
    ensures
        r == spec_u128_from_le_bytes(bytes@.subrange(offset as int, offset + 16)),
{
    let n = bytes.len();
    vstd::bytes::u128_from_le_bytes(vstd::slice::slice_subrange(
        bytes.as_slice(),
        offset,
        offset + 16,
    ))
}

/// Reads a 64-bit little-endian value out of the byte vector at an offset.
fn u64_from_le_bytes_at(bytes: &Vec<u8>, offset: usize) -> (r: u64)
    requires
        offset + 8 <= bytes@.len(),
    ensures
        r == spec_u64_from_le_bytes(bytes@.subrange(offset as int, offset + 8)),
{
    let n = bytes.len();
    vstd::bytes::u64_from_le_bytes(vstd::slice::slice_subrange(
        bytes.as_slice(),
        offset,
        offset + 8,
    ))
}

/// Reads a 32-bit little-endian value out of the byte vector at an offset.
fn u32_from_le_bytes_at(bytes: &Vec<u8>, offset: usize) -> (r: u32)
    requires
        offset + 4 <= bytes@.len(),
    ensures
        r == spec_u32_from_le_bytes(bytes@.subrange(offset as int, offset + 4)),
{
    let n = bytes.len();
    vstd::bytes::u32_from_le_bytes(vstd::slice::slice_subrange(
        bytes.as_slice(),
        offset,
        offset + 4,
    ))
}

} // verus!
