//! Byte-level format of a container's write-ahead log.
//!
//! A log is a flat sequence of framed records, little-endian throughout:
//!
//! - item:      `sort_key (16 B) || 0x01 || length (8 B) || payload || crc32 (4 B)`
//! - tombstone: `sort_key (16 B) || 0x00 || crc32 (4 B)`
//!
//! The CRC-32 (IEEE) covers every byte of the record before the CRC field.
//! This module defines the record grammar at the specification level
//! ([`record_bytes`], [`log_bytes`], [`parse_log`]), the replay semantics
//! ([`replay`]), executable encoders proved against the grammar, and the
//! soundness and completeness lemmas that tie parsing to encoding.

use vstd::prelude::*;
use vstd::bytes::*;
use vstd::assert_seqs_equal;

verus! {

/// Kind byte of a tombstone record.
pub const TOMBSTONE_KIND: u8 = 0;

/// Kind byte of an item record.
pub const ITEM_KIND: u8 = 1;

/// Exact size in bytes of a tombstone record: key, kind, crc.
pub const TOMBSTONE_SIZE: usize = 21;

/// Size in bytes of an item record with an empty payload: key, kind, length, crc.
pub const ITEM_BASE_SIZE: usize = 29;

/// What `crc32` returns: the CRC-32 (IEEE 802.3) checksum of the bytes.
pub uninterp spec fn crc32_of(bytes: Seq<u8>) -> u32;

/// Relies on `crc32fast::hash`: the CRC-32 (IEEE) checksum of the buffer,
/// a function of the bytes alone.
#[verifier::external_body]
pub(crate) fn crc32(bytes: &[u8]) -> (r: u32)
    ensures
        r == crc32_of(bytes@),
{
    crc32fast::hash(bytes)
}

/// One logical record of a container's log, at the specification level.
pub enum LogRecord {
    Item { key: u128, payload: Seq<u8> },
    Tombstone { key: u128 },
}

/// An item payload must fit the 8-byte length field of the frame.
pub open spec fn record_valid(r: LogRecord) -> bool {
    match r {
        LogRecord::Item { key, payload } => payload.len() <= u64::MAX,
        LogRecord::Tombstone { .. } => true,
    }
}

/// The exact bytes that frame one record.
pub open spec fn record_bytes(r: LogRecord) -> Seq<u8> {
    match r {
        LogRecord::Item { key, payload } => {
            let prefix = spec_u128_to_le_bytes(key) + seq![ITEM_KIND]
                + spec_u64_to_le_bytes(payload.len() as u64) + payload;
            prefix + spec_u32_to_le_bytes(crc32_of(prefix))
        },
        LogRecord::Tombstone { key } => {
            let prefix = spec_u128_to_le_bytes(key) + seq![TOMBSTONE_KIND];
            prefix + spec_u32_to_le_bytes(crc32_of(prefix))
        },
    }
}

/// The exact bytes of a whole log: the records framed one after the other.
pub open spec fn log_bytes(rs: Seq<LogRecord>) -> Seq<u8>
    decreases rs.len(),
{
    if rs.len() == 0 {
        Seq::empty()
    } else {
        record_bytes(rs[0]) + log_bytes(rs.skip(1))
    }
}

pub open spec fn spec_record_size(r: LogRecord) -> int {
    match r {
        LogRecord::Item { key, payload } => ITEM_BASE_SIZE + payload.len(),
        LogRecord::Tombstone { .. } => TOMBSTONE_SIZE as int,
    }
}

pub proof fn lemma_record_bytes_len(r: LogRecord)
    ensures
        record_bytes(r).len() == spec_record_size(r),
        spec_record_size(r) >= TOMBSTONE_SIZE,
{
    lemma_auto_spec_u128_to_from_le_bytes();
    lemma_auto_spec_u64_to_from_le_bytes();
    lemma_auto_spec_u32_to_from_le_bytes();
}

/// The effect of one record on the logical state of a container:
/// an item record upserts its key, a tombstone removes it.
pub open spec fn apply_record(m: Map<u128, Seq<u8>>, r: LogRecord) -> Map<u128, Seq<u8>> {
    match r {
        LogRecord::Item { key, payload } => m.insert(key, payload),
        LogRecord::Tombstone { key } => m.remove(key),
    }
}

pub open spec fn replay_from(m: Map<u128, Seq<u8>>, rs: Seq<LogRecord>) -> Map<u128, Seq<u8>>
    decreases rs.len(),
{
    if rs.len() == 0 {
        m
    } else {
        replay_from(apply_record(m, rs[0]), rs.skip(1))
    }
}

/// The logical state of a container is the fold of its records under
/// last-writer-wins, starting from the empty mapping.
pub open spec fn replay(rs: Seq<LogRecord>) -> Map<u128, Seq<u8>> {
    replay_from(Map::empty(), rs)
}

pub proof fn lemma_replay_from_snoc(m: Map<u128, Seq<u8>>, rs: Seq<LogRecord>, r: LogRecord)
    ensures
        replay_from(m, rs.push(r)) == apply_record(replay_from(m, rs), r),
    decreases rs.len(),
{
    let s = rs.push(r);
    assert(s.len() == rs.len() + 1);
    assert(replay_from(m, s) == replay_from(apply_record(m, s[0]), s.skip(1)));
    if rs.len() == 0 {
        assert(s[0] == r);
        assert(s.skip(1) =~= Seq::<LogRecord>::empty());
        assert(replay_from(apply_record(m, s[0]), s.skip(1)) == apply_record(m, s[0]));
        assert(replay_from(m, rs) == m);
    } else {
        assert(s[0] == rs[0]);
        assert(s.skip(1) =~= rs.skip(1).push(r));
        lemma_replay_from_snoc(apply_record(m, rs[0]), rs.skip(1), r);
        assert(replay_from(m, rs) == replay_from(apply_record(m, rs[0]), rs.skip(1)));
    }
}

pub proof fn lemma_replay_snoc(rs: Seq<LogRecord>, r: LogRecord)
    ensures
        replay(rs.push(r)) == apply_record(replay(rs), r),
{
    lemma_replay_from_snoc(Map::empty(), rs, r);
}

pub proof fn lemma_log_bytes_snoc(rs: Seq<LogRecord>, r: LogRecord)
    ensures
        log_bytes(rs.push(r)) == log_bytes(rs) + record_bytes(r),
    decreases rs.len(),
{
    let s = rs.push(r);
    assert(s.len() == rs.len() + 1);
    assert(log_bytes(s) == record_bytes(s[0]) + log_bytes(s.skip(1)));
    if rs.len() == 0 {
        assert(s[0] == r);
        assert(s.skip(1) =~= Seq::<LogRecord>::empty());
        assert(log_bytes(s.skip(1)) == Seq::<u8>::empty());
        assert(log_bytes(rs) == Seq::<u8>::empty());
        assert(log_bytes(s) =~= log_bytes(rs) + record_bytes(r));
    } else {
        assert(s[0] == rs[0]);
        assert(s.skip(1) =~= rs.skip(1).push(r));
        lemma_log_bytes_snoc(rs.skip(1), r);
        assert(log_bytes(rs) == record_bytes(rs[0]) + log_bytes(rs.skip(1)));
        assert(log_bytes(s) =~= log_bytes(rs) + record_bytes(r));
    }
}

/// The discriminator a record's kind byte decodes to.
#[derive(Clone, Copy, PartialEq, Eq, Structural, Debug)]
pub enum RecordType {
    Tombstone,
    Item,
}

impl RecordType {
    /// Decodes a kind byte; any byte other than the two known kinds is
    /// corruption.
    pub fn from_u8(value: u8) -> (r: Result<RecordType, crate::errors::StorageError>)
        ensures
            match r {
                Ok(t) => (value == TOMBSTONE_KIND && t is Tombstone) || (value == ITEM_KIND
                    && t is Item),
                Err(e) => value != TOMBSTONE_KIND && value != ITEM_KIND && e is CorruptedData,
            },
    {
        if value == TOMBSTONE_KIND {
            Ok(RecordType::Tombstone)
        } else if value == ITEM_KIND {
            Ok(RecordType::Item)
        } else {
            Err(crate::errors::StorageError::CorruptedData("unknown record kind".to_owned()))
        }
    }
}

/// The key a record speaks about.
pub open spec fn record_key(r: LogRecord) -> u128 {
    match r {
        LogRecord::Item { key, .. } => key,
        LogRecord::Tombstone { key } => key,
    }
}

/// The unique parse of a log: `None` when the bytes are not the exact framing
/// of a record sequence, be it from a truncated trailing record, an unknown
/// kind byte, or a checksum mismatch.
pub open spec fn parse_log(b: Seq<u8>) -> Option<Seq<LogRecord>>
    decreases b.len(),
{
    if b.len() == 0 {
        Some(Seq::empty())
    } else if b.len() < TOMBSTONE_SIZE {
        None
    } else {
        let key = spec_u128_from_le_bytes(b.subrange(0, 16));
        let kind = b[16];
        if kind == TOMBSTONE_KIND {
            let prefix = b.subrange(0, 17);
            let crc = spec_u32_from_le_bytes(b.subrange(17, 21));
            if crc == crc32_of(prefix) {
                match parse_log(b.skip(TOMBSTONE_SIZE as int)) {
                    Some(rest) => Some(seq![LogRecord::Tombstone { key }] + rest),
                    None => None,
                }
            } else {
                None
            }
        } else if kind == ITEM_KIND {
            if b.len() < ITEM_BASE_SIZE {
                None
            } else {
                let len = spec_u64_from_le_bytes(b.subrange(17, 25)) as int;
                if b.len() >= ITEM_BASE_SIZE + len {
                    let payload = b.subrange(25, 25 + len);
                    let prefix = b.subrange(0, 25 + len);
                    let crc = spec_u32_from_le_bytes(b.subrange(25 + len, 29 + len));
                    if crc == crc32_of(prefix) {
                        match parse_log(b.skip(ITEM_BASE_SIZE + len)) {
                            Some(rest) => Some(seq![LogRecord::Item { key, payload }] + rest),
                            None => None,
                        }
                    } else {
                        None
                    }
                } else {
                    None
                }
            }
        } else {
            None
        }
    }
}

/// Parsing inverts encoding: the framing of any valid record sequence
/// parses back to exactly that sequence.
pub proof fn lemma_parse_log_complete(rs: Seq<LogRecord>)
    requires
        forall|i: int| 0 <= i < rs.len() ==> record_valid(#[trigger] rs[i]),
    ensures
        parse_log(log_bytes(rs)) == Some(rs),
    decreases rs.len(),
{
    lemma_auto_spec_u128_to_from_le_bytes();
    lemma_auto_spec_u64_to_from_le_bytes();
    lemma_auto_spec_u32_to_from_le_bytes();
    if rs.len() == 0 {
        assert(log_bytes(rs) == Seq::<u8>::empty());
    } else {
        let r = rs[0];
        let tail = log_bytes(rs.skip(1));
        let b = log_bytes(rs);
        assert(b == record_bytes(r) + tail);
        lemma_record_bytes_len(r);
        match r {
            LogRecord::Tombstone { key } => {
                let prefix = spec_u128_to_le_bytes(key) + seq![TOMBSTONE_KIND];
                assert(record_bytes(r) == prefix + spec_u32_to_le_bytes(crc32_of(prefix)));
                assert_seqs_equal!(b.subrange(0, 16) == spec_u128_to_le_bytes(key));
                assert(b[16] == TOMBSTONE_KIND);
                assert_seqs_equal!(b.subrange(0, 17) == prefix);
                assert_seqs_equal!(b.subrange(17, 21) == spec_u32_to_le_bytes(crc32_of(prefix)));
                assert(spec_u32_from_le_bytes(b.subrange(17, 21)) == crc32_of(b.subrange(0, 17)));
                assert_seqs_equal!(b.skip(TOMBSTONE_SIZE as int) == tail);
                lemma_parse_log_complete(rs.skip(1));
                assert(parse_log(b) == Some(seq![LogRecord::Tombstone { key }] + rs.skip(1)));
                assert_seqs_equal!(seq![LogRecord::Tombstone { key }] + rs.skip(1) == rs);
            },
            LogRecord::Item { key, payload } => {
                let len = payload.len() as int;
                let prefix = spec_u128_to_le_bytes(key) + seq![ITEM_KIND]
                    + spec_u64_to_le_bytes(payload.len() as u64) + payload;
                assert(record_bytes(r) == prefix + spec_u32_to_le_bytes(crc32_of(prefix)));
                assert(b.len() >= ITEM_BASE_SIZE + len);
                assert_seqs_equal!(b.subrange(0, 16) == spec_u128_to_le_bytes(key));
                assert(b[16] == ITEM_KIND);
                assert_seqs_equal!(b.subrange(17, 25) == spec_u64_to_le_bytes(payload.len() as u64));
                assert(spec_u64_from_le_bytes(b.subrange(17, 25)) == payload.len() as u64);
                assert_seqs_equal!(b.subrange(25, 25 + len) == payload);
                assert_seqs_equal!(b.subrange(0, 25 + len) == prefix);
                assert_seqs_equal!(b.subrange(25 + len, 29 + len)
                    == spec_u32_to_le_bytes(crc32_of(prefix)));
                assert(spec_u32_from_le_bytes(b.subrange(25 + len, 29 + len))
                    == crc32_of(b.subrange(0, 25 + len)));
                assert_seqs_equal!(b.skip(ITEM_BASE_SIZE + len) == tail);
                lemma_parse_log_complete(rs.skip(1));
                assert(parse_log(b) == Some(seq![LogRecord::Item { key, payload }] + rs.skip(1)));
                assert_seqs_equal!(seq![LogRecord::Item { key, payload }] + rs.skip(1) == rs);
            },
        }
    }
}


/// Parsing peels valid records off the front: the framing of a valid record
/// sequence followed by any tail parses exactly when the tail does.
pub proof fn lemma_parse_log_append(rs: Seq<LogRecord>, t: Seq<u8>)
    requires
        forall|i: int| 0 <= i < rs.len() ==> record_valid(#[trigger] rs[i]),
    ensures
        parse_log(log_bytes(rs) + t) == (match parse_log(t) {
            Some(ts) => Some(rs + ts),
            None => None::<Seq<LogRecord>>,
        }),
    decreases rs.len(),
{
    lemma_auto_spec_u128_to_from_le_bytes();
    lemma_auto_spec_u64_to_from_le_bytes();
    lemma_auto_spec_u32_to_from_le_bytes();
    if rs.len() == 0 {
        assert(log_bytes(rs) + t =~= t);
        if parse_log(t) is Some {
            assert(rs + parse_log(t)->Some_0 =~= parse_log(t)->Some_0);
        }
    } else {
        let r = rs[0];
        let tail = log_bytes(rs.skip(1)) + t;
        let b = log_bytes(rs) + t;
        assert(b =~= record_bytes(r) + tail);
        lemma_record_bytes_len(r);
        match r {
            LogRecord::Tombstone { key } => {
                let prefix = spec_u128_to_le_bytes(key) + seq![TOMBSTONE_KIND];
                assert(record_bytes(r) == prefix + spec_u32_to_le_bytes(crc32_of(prefix)));
                assert_seqs_equal!(b.subrange(0, 16) == spec_u128_to_le_bytes(key));
                assert(b[16] == TOMBSTONE_KIND);
                assert_seqs_equal!(b.subrange(0, 17) == prefix);
                assert_seqs_equal!(b.subrange(17, 21) == spec_u32_to_le_bytes(crc32_of(prefix)));
                assert(spec_u32_from_le_bytes(b.subrange(17, 21)) == crc32_of(b.subrange(0, 17)));
                assert_seqs_equal!(b.skip(TOMBSTONE_SIZE as int) == tail);
                lemma_parse_log_append(rs.skip(1), t);
                match parse_log(t) {
                    Some(ts) => {
                        assert(parse_log(b) == Some(
                            seq![LogRecord::Tombstone { key }] + (rs.skip(1) + ts),
                        ));
                        assert_seqs_equal!(seq![LogRecord::Tombstone { key }] + (rs.skip(1) + ts)
                            == rs + ts);
                    },
                    None => {
                        assert(parse_log(tail) is None);
                    },
                }
            },
            LogRecord::Item { key, payload } => {
                let len = payload.len() as int;
                let prefix = spec_u128_to_le_bytes(key) + seq![ITEM_KIND]
                    + spec_u64_to_le_bytes(payload.len() as u64) + payload;
                assert(record_bytes(r) == prefix + spec_u32_to_le_bytes(crc32_of(prefix)));
                assert(b.len() >= ITEM_BASE_SIZE + len);
                assert_seqs_equal!(b.subrange(0, 16) == spec_u128_to_le_bytes(key));
                assert(b[16] == ITEM_KIND);
                assert_seqs_equal!(b.subrange(17, 25) == spec_u64_to_le_bytes(payload.len() as u64));
                assert(spec_u64_from_le_bytes(b.subrange(17, 25)) == payload.len() as u64);
                assert_seqs_equal!(b.subrange(25, 25 + len) == payload);
                assert_seqs_equal!(b.subrange(0, 25 + len) == prefix);
                assert_seqs_equal!(b.subrange(25 + len, 29 + len)
                    == spec_u32_to_le_bytes(crc32_of(prefix)));
                assert(spec_u32_from_le_bytes(b.subrange(25 + len, 29 + len))
                    == crc32_of(b.subrange(0, 25 + len)));
                assert_seqs_equal!(b.skip(ITEM_BASE_SIZE + len) == tail);
                lemma_parse_log_append(rs.skip(1), t);
                match parse_log(t) {
                    Some(ts) => {
                        assert(parse_log(b) == Some(
                            seq![LogRecord::Item { key, payload }] + (rs.skip(1) + ts),
                        ));
                        assert_seqs_equal!(seq![LogRecord::Item { key, payload }] + (rs.skip(1)
                            + ts) == rs + ts);
                    },
                    None => {
                        assert(parse_log(tail) is None);
                    },
                }
            },
        }
    }
}

/// A strict nonempty prefix of one record frame does not parse: too few
/// bytes for the header, for the length field, for the payload or for the
/// checksum all fail alike.
pub proof fn lemma_partial_record_fails(r: LogRecord, cut: int)
    requires
        record_valid(r),
        0 < cut < record_bytes(r).len(),
    ensures
        parse_log(record_bytes(r).take(cut)) is None,
{
    lemma_auto_spec_u128_to_from_le_bytes();
    lemma_auto_spec_u64_to_from_le_bytes();
    lemma_auto_spec_u32_to_from_le_bytes();
    lemma_record_bytes_len(r);
    let full = record_bytes(r);
    let b = full.take(cut);
    assert(b.len() == cut);
    if cut < TOMBSTONE_SIZE {
        assert(parse_log(b) is None);
    } else {
        match r {
            LogRecord::Tombstone { key } => {
                assert(full.len() == TOMBSTONE_SIZE);
                assert(false);
            },
            LogRecord::Item { key, payload } => {
                let len = payload.len() as int;
                let prefix = spec_u128_to_le_bytes(key) + seq![ITEM_KIND]
                    + spec_u64_to_le_bytes(payload.len() as u64) + payload;
                assert(full == prefix + spec_u32_to_le_bytes(crc32_of(prefix)));
                assert(b[16] == full[16]);
                assert(full[16] == ITEM_KIND);
                if cut < ITEM_BASE_SIZE {
                    assert(parse_log(b) is None);
                } else {
                    assert_seqs_equal!(b.subrange(17, 25)
                        == spec_u64_to_le_bytes(payload.len() as u64));
                    assert(spec_u64_from_le_bytes(b.subrange(17, 25)) == payload.len() as u64);
                    assert(b.len() < ITEM_BASE_SIZE + len);
                    assert(parse_log(b) is None);
                }
            },
        }
    }
}

/// Truncation is corruption: a valid log whose final record is cut short at
/// any point, be it inside the header, the length field, the payload or the
/// checksum, parses to no record sequence, so replay refuses the bytes.
pub proof fn lemma_truncated_log_fails(rs: Seq<LogRecord>, r: LogRecord, cut: int)
    requires
        forall|i: int| 0 <= i < rs.len() ==> record_valid(#[trigger] rs[i]),
        record_valid(r),
        0 < cut < record_bytes(r).len(),
    ensures
        parse_log(log_bytes(rs) + record_bytes(r).take(cut)) is None,
{
    lemma_partial_record_fails(r, cut);
    lemma_parse_log_append(rs, record_bytes(r).take(cut));
}

/// Parsing is sound, which is the checksum-totality guarantee: whenever a log
/// parses, the bytes are exactly the framing of the parsed records, so every
/// record's stored CRC equals the CRC-32 recomputed over its own bytes.
pub proof fn lemma_parse_log_sound(b: Seq<u8>)
    requires
        parse_log(b) is Some,
    ensures
        log_bytes(parse_log(b)->Some_0) == b,
        forall|i: int|
            0 <= i < parse_log(b)->Some_0.len() ==> record_valid(#[trigger] parse_log(b)->Some_0[i]),
    decreases b.len(),
{
    lemma_auto_spec_u128_to_from_le_bytes();
    lemma_auto_spec_u64_to_from_le_bytes();
    lemma_auto_spec_u32_to_from_le_bytes();
    let rs = parse_log(b)->Some_0;
    if b.len() == 0 {
        assert(log_bytes(rs) == Seq::<u8>::empty());
        assert_seqs_equal!(log_bytes(rs) == b);
    } else {
        let key = spec_u128_from_le_bytes(b.subrange(0, 16));
        let kind = b[16];
        if kind == TOMBSTONE_KIND {
            let size = TOMBSTONE_SIZE as int;
            let rest = parse_log(b.skip(size))->Some_0;
            lemma_parse_log_sound(b.skip(size));
            let r = LogRecord::Tombstone { key };
            assert(rs == seq![r] + rest);
            assert(rs[0] == r);
            assert_seqs_equal!(rs.skip(1) == rest);
            let prefix = spec_u128_to_le_bytes(key) + seq![TOMBSTONE_KIND];
            assert_seqs_equal!(prefix == b.subrange(0, 17));
            assert_seqs_equal!(spec_u32_to_le_bytes(crc32_of(b.subrange(0, 17)))
                == b.subrange(17, 21));
            assert(record_bytes(r) == prefix + spec_u32_to_le_bytes(crc32_of(prefix)));
            assert(log_bytes(rs) == record_bytes(r) + log_bytes(rest));
            assert_seqs_equal!(record_bytes(r) + log_bytes(rest) == b);
        } else {
            let len = spec_u64_from_le_bytes(b.subrange(17, 25)) as int;
            let size = ITEM_BASE_SIZE + len;
            let payload = b.subrange(25, 25 + len);
            let rest = parse_log(b.skip(size))->Some_0;
            lemma_parse_log_sound(b.skip(size));
            let r = LogRecord::Item { key, payload };
            assert(rs == seq![r] + rest);
            assert(rs[0] == r);
            assert_seqs_equal!(rs.skip(1) == rest);
            assert(payload.len() == len);
            let prefix = spec_u128_to_le_bytes(key) + seq![ITEM_KIND]
                + spec_u64_to_le_bytes(payload.len() as u64) + payload;
            assert_seqs_equal!(spec_u64_to_le_bytes(payload.len() as u64) == b.subrange(17, 25));
            assert_seqs_equal!(prefix == b.subrange(0, 25 + len));
            assert_seqs_equal!(spec_u32_to_le_bytes(crc32_of(b.subrange(0, 25 + len)))
                == b.subrange(25 + len, 29 + len));
            assert(record_bytes(r) == prefix + spec_u32_to_le_bytes(crc32_of(prefix)));
            assert(log_bytes(rs) == record_bytes(r) + log_bytes(rest));
            assert_seqs_equal!(record_bytes(r) + log_bytes(rest) == b);
        }
    }
}

/// Why the log always contains what is live in memory: for every key that the
/// replay of a record sequence maps to a value, the last record about that key
/// is an item record carrying exactly that value; in particular it stands
/// after every tombstone for the same key.
pub proof fn lemma_live_key_has_item_record(rs: Seq<LogRecord>, k: u128)
    requires
        replay(rs).contains_key(k),
    ensures
        exists|i: int|
            0 <= i < rs.len() && #[trigger] rs[i] == (LogRecord::Item { key: k, payload: replay(rs)[k] })
                && forall|j: int| i < j < rs.len() ==> record_key(#[trigger] rs[j]) != k,
    decreases rs.len(),
{
    if rs.len() == 0 {
        assert(replay(rs) == Map::<u128, Seq<u8>>::empty());
        assert(false);
    } else {
        let prefix = rs.drop_last();
        let last = rs.last();
        assert(rs =~= prefix.push(last));
        lemma_replay_snoc(prefix, last);
        assert(replay(rs) == apply_record(replay(prefix), last));
        match last {
            LogRecord::Item { key, payload } => {
                if key == k {
                    let i = rs.len() - 1;
                    assert(rs[i] == (LogRecord::Item { key: k, payload: replay(rs)[k] }));
                    assert(forall|j: int| i < j < rs.len() ==> record_key(#[trigger] rs[j]) != k);
                } else {
                    assert(replay(prefix).contains_key(k));
                    assert(replay(rs)[k] == replay(prefix)[k]);
                    lemma_live_key_has_item_record(prefix, k);
                    let i = choose|i: int|
                        0 <= i < prefix.len() && #[trigger] prefix[i] == (LogRecord::Item {
                            key: k,
                            payload: replay(prefix)[k],
                        }) && forall|j: int| i < j < prefix.len() ==> record_key(#[trigger] prefix[j]) != k;
                    assert(rs[i] == prefix[i]);
                    assert(forall|j: int| i < j < rs.len() - 1 ==> rs[j] == prefix[j]);
                    assert(forall|j: int| i < j < rs.len() ==> record_key(#[trigger] rs[j]) != k);
                }
            },
            LogRecord::Tombstone { key } => {
                assert(key != k);
                assert(replay(prefix).contains_key(k));
                assert(replay(rs)[k] == replay(prefix)[k]);
                lemma_live_key_has_item_record(prefix, k);
                let i = choose|i: int|
                    0 <= i < prefix.len() && #[trigger] prefix[i] == (LogRecord::Item {
                        key: k,
                        payload: replay(prefix)[k],
                    }) && forall|j: int| i < j < prefix.len() ==> record_key(#[trigger] prefix[j]) != k;
                assert(rs[i] == prefix[i]);
                assert(forall|j: int| i < j < rs.len() - 1 ==> rs[j] == prefix[j]);
                assert(forall|j: int| i < j < rs.len() ==> record_key(#[trigger] rs[j]) != k);
            },
        }
    }
}

/// Encodes an item record: an upsert of `key -> payload`.
pub fn encode_item_record(key: u128, payload: &Vec<u8>) -> (r: Vec<u8>)
    ensures
        r@ == record_bytes(LogRecord::Item { key, payload: payload@ }),
{
    proof {
        lemma_auto_spec_u128_to_from_le_bytes();
        lemma_auto_spec_u64_to_from_le_bytes();
        lemma_auto_spec_u32_to_from_le_bytes();
    }
    let mut buf = u128_to_le_bytes(key);
    buf.push(ITEM_KIND);
    let mut len_bytes = u64_to_le_bytes(payload.len() as u64);
    buf.append(&mut len_bytes);
    buf.extend_from_slice(payload.as_slice());
    let ghost prefix = spec_u128_to_le_bytes(key) + seq![ITEM_KIND]
        + spec_u64_to_le_bytes(payload@.len() as u64) + payload@;
    proof {
        assert_seqs_equal!(buf@ == prefix);
    }
    let crc = crc32(buf.as_slice());
    let mut crc_bytes = u32_to_le_bytes(crc);
    buf.append(&mut crc_bytes);
    buf
}

/// Encodes a tombstone record: a removal of `key`.
pub fn encode_tombstone_record(key: u128) -> (r: Vec<u8>)
    ensures
        r@ == record_bytes(LogRecord::Tombstone { key }),
{
    proof {
        lemma_auto_spec_u128_to_from_le_bytes();
        lemma_auto_spec_u32_to_from_le_bytes();
    }
    let mut buf = u128_to_le_bytes(key);
    buf.push(TOMBSTONE_KIND);
    let ghost prefix = spec_u128_to_le_bytes(key) + seq![TOMBSTONE_KIND];
    proof {
        assert_seqs_equal!(buf@ == prefix);
    }
    let crc = crc32(buf.as_slice());
    let mut crc_bytes = u32_to_le_bytes(crc);
    buf.append(&mut crc_bytes);
    buf
}

} // verus!
