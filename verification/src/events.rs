//! Scheduling requests: one rule names a queue and a delivery timestamp,
//! and may ask for a recurring series.  The series is expanded here, on the
//! server side, before any durable write.

use vstd::prelude::*;
use crate::codec::{replay_from, LogRecord};
use crate::errors::{MoraError, MoraResult};
use crate::pool::QueuePool;

verus! {

/// A recurring series: `times` deliveries, `delay` nanoseconds apart.
pub struct RecurringOptions {
    pub times: u128,
    pub delay: u128,
}

/// One scheduling rule.
pub struct ScheduleRule {
    pub queue: String,
    pub schedule_for: u128,
    pub recurring_options: Option<RecurringOptions>,
}

/// How many deliveries a rule asks for.
pub open spec fn rule_times(rule: ScheduleRule) -> int {
    match rule.recurring_options {
        Some(r) => r.times as int,
        None => 1,
    }
}

/// The delay between deliveries; a plain rule has none.
pub open spec fn rule_delay(rule: ScheduleRule) -> int {
    match rule.recurring_options {
        Some(r) => r.delay as int,
        None => 0,
    }
}

/// The timestamps a rule expands to: `schedule_for + k*delay` for
/// `k in [0, times)`.
pub open spec fn rule_timestamps(rule: ScheduleRule) -> Seq<int> {
    Seq::new(rule_times(rule) as nat, |k: int| rule.schedule_for + k * rule_delay(rule))
}

/// Expands a rule into its delivery timestamps.  The expansion fails, and
/// nothing is scheduled, when a timestamp of the series would not fit the
/// 128-bit timestamp space, or the series is too long to hold.
pub fn expand_rule(rule: &ScheduleRule) -> (r: Result<Vec<u128>, MoraError>)
    ensures
        match r {
            Ok(ts) => {
                &&& ts@.len() == rule_times(*rule)
                &&& forall|k: int| 0 <= k < ts@.len() ==> ts@[k] == rule_timestamps(*rule)[k]
            },
            Err(e) => {
                &&& e is EnqueueError
                &&& (rule_times(*rule) > usize::MAX || exists|k: int|
                    0 <= k < rule_times(*rule) && rule_timestamps(*rule)[k] > u128::MAX)
            },
        },
{
    let (times, delay) = match &rule.recurring_options {
        Some(r) => (r.times, r.delay),
        None => (1u128, 0u128),
    };
    if times > (usize::MAX as u128) {
        return Err(MoraError::EnqueueError("recurring series too long".to_owned()));
    }
    let count = times as usize;
    let mut out: Vec<u128> = Vec::new();
    let mut ts = rule.schedule_for;
    let mut k: usize = 0;
    while k < count
        invariant
            count == rule_times(*rule),
            delay == rule_delay(*rule),
            0 <= k <= count,
            out@.len() == k,
            forall|a: int| 0 <= a < k ==> out@[a] == rule_timestamps(*rule)[a],
            k < count ==> ts == rule.schedule_for + k * delay,
        decreases count - k,
    {
        out.push(ts);
        proof {
            assert(rule_timestamps(*rule)[k as int] == rule.schedule_for + k * delay);
        }
        if k + 1 < count {
            if u128::MAX - ts < delay {
                proof {
                    assert((k + 1) * (delay as int) == k * (delay as int) + delay) by (nonlinear_arith);
                    assert(rule_timestamps(*rule)[k + 1] > u128::MAX);
                }
                return Err(MoraError::EnqueueError("recurring series overflows".to_owned()));
            }
            ts = ts + delay;
            proof {
                assert((k + 1) * (delay as int) == k * (delay as int) + delay) by (nonlinear_arith);
            }
        }
        k = k + 1;
    }
    Ok(out)
}

/// The expanded delivery timestamps of a rule, once they are known to fit.
pub open spec fn rule_schedule(rule: ScheduleRule) -> Seq<u128> {
    Seq::new(rule_times(rule) as nat, |k: int| (rule.schedule_for + k * rule_delay(rule)) as u128)
}

/// The item records a schedule appends: one per delivery, all carrying the
/// same payload.
pub open spec fn scheduled_records(ts: Seq<u128>, payload: Seq<u8>) -> Seq<LogRecord> {
    Seq::new(ts.len(), |k: int| LogRecord::Item { key: ts[k], payload })
}

/// Schedules one rule: validates the queue, expands the series, and then
/// enqueues every delivery; the validation and the expansion both come
/// before any durable write, so a rejected request changes nothing.
#[verifier::loop_isolation(false)]
pub fn schedule_event(pool: &mut QueuePool, data: &Vec<u8>, rule: &ScheduleRule) -> (r: MoraResult<
    (),
>)
    requires
        old(pool).wf(),
    ensures
        final(pool).wf(),
        ({
            &&& old(pool).has_queue(rule.queue@)
            &&& rule_times(*rule) <= usize::MAX
            &&& forall|k: int|
                0 <= k < rule_times(*rule) ==> rule_timestamps(*rule)[k] <= u128::MAX
            &&& old(pool).queue_entries(rule.queue@).len() + rule_times(*rule) <= u128::MAX
        }) ==> r is Ok,
        match r {
            Ok(_) => {
                let q = rule.queue@;
                let recs = scheduled_records(rule_schedule(*rule), data@);
                &&& old(pool).has_queue(q)
                &&& final(pool).has_queue(q)
                &&& final(pool).spec_storage().records_of(q) == old(pool).spec_storage().records_of(
                    q,
                ) + recs
                &&& final(pool).spec_storage().index_map(q) == replay_from(
                    old(pool).spec_storage().index_map(q),
                    recs,
                )
                &&& final(pool).queue_entries(q).len() == old(pool).queue_entries(q).len()
                    + rule_times(*rule)
                &&& final(pool).queue_ids() == old(pool).queue_ids()
                &&& QueuePool::other_queues_unchanged(*old(pool), *final(pool), q)
            },
            Err(e) => {
                &&& (e matches MoraError::QueueNotFound(s) ==> s@ == rule.queue@ && *final(pool)
                    == *old(pool))
                &&& ((e matches MoraError::QueueNotFound(_)) == !old(pool).has_queue(rule.queue@))
                &&& (e is EnqueueError ==> {
                    &&& *final(pool) == *old(pool)
                    &&& (rule_times(*rule) > usize::MAX || exists|k: int|
                        0 <= k < rule_times(*rule) && rule_timestamps(*rule)[k] > u128::MAX)
                })
                &&& (e is QueueFull ==> old(pool).has_queue(rule.queue@) && old(
                    pool,
                ).queue_entries(rule.queue@).len() + rule_times(*rule) > u128::MAX)
                &&& (e is QueueFull || e is EnqueueError || e matches MoraError::QueueNotFound(_))
            },
        },
{
    if !pool.contains_queue(&rule.queue) {
        return Err(MoraError::QueueNotFound(rule.queue.clone()));
    }
    let timestamps = match expand_rule(rule) {
        Ok(ts) => ts,
        Err(e) => {
            proof {
                if rule_times(*rule) <= usize::MAX {
                    let k = choose|k: int|
                        0 <= k < rule_times(*rule) && rule_timestamps(*rule)[k] > u128::MAX;
                    assert(rule_timestamps(*rule)[k] > u128::MAX);
                }
            }
            return Err(e);
        },
    };
    let ghost q = rule.queue@;
    let ghost pool0 = *pool;
    let ghost recs = scheduled_records(rule_schedule(*rule), data@);
    let count = timestamps.len();
    let mut i: usize = 0;
    while i < count
        invariant
            pool.wf(),
            count == timestamps@.len(),
            timestamps@.len() == rule_times(*rule),
            forall|k: int| 0 <= k < count ==> timestamps@[k] == rule_schedule(*rule)[k],
            0 <= i <= count,
            pool.has_queue(q),
            pool.spec_storage().records_of(q) == pool0.spec_storage().records_of(q)
                + scheduled_records(rule_schedule(*rule).subrange(0, i as int), data@),
            pool.spec_storage().index_map(q) == replay_from(
                pool0.spec_storage().index_map(q),
                scheduled_records(rule_schedule(*rule).subrange(0, i as int), data@),
            ),
            pool.queue_entries(q).len() == pool0.queue_entries(q).len() + i,
            pool.queue_ids() == pool0.queue_ids(),
            QueuePool::other_queues_unchanged(pool0, *pool, q),
        decreases count - i,
    {
        let ghost pool_at = *pool;
        let ts = timestamps[i];
        let payload = data.clone();
        proof {
            crate::pool::lemma_cloned_bytes(*data, payload);
        }
        match pool.enqueue(&rule.queue, ts, payload) {
            Ok(_) => {},
            Err(e) => {
                proof {
                    // Only a full queue can fail here, and it pins the
                    // initial length: the queue held its maximum minus the
                    // deliveries already made.
                    assert(e is QueueFull);
                    assert(pool_at.queue_entries(q).len() == u128::MAX);
                    assert(pool0.queue_entries(q).len() + i == u128::MAX);
                    assert(i < rule_times(*rule));
                }
                return Err(e);
            },
        }
        proof {
            let sub = scheduled_records(rule_schedule(*rule).subrange(0, i as int), data@);
            let sub1 = scheduled_records(rule_schedule(*rule).subrange(0, i + 1), data@);
            let rec = LogRecord::Item { key: ts, payload: data@ };
            assert(sub1 =~= sub.push(rec));
            assert(pool.spec_storage().records_of(q) =~= pool0.spec_storage().records_of(q)
                + sub1);
            crate::codec::lemma_replay_from_snoc(pool0.spec_storage().index_map(q), sub, rec);
            assert forall|id2: Seq<char>| id2 != q implies {
                &&& #[trigger] pool.has_queue(id2) == pool0.has_queue(id2)
                &&& (pool0.has_queue(id2) ==> pool.queue_entries(id2) == pool0.queue_entries(id2))
            } by {
                assert(pool.has_queue(id2) == pool_at.has_queue(id2));
                if pool0.has_queue(id2) {
                    assert(pool.queue_entries(id2) == pool_at.queue_entries(id2));
                }
            }
        }
        i = i + 1;
    }
    proof {
        assert(rule_schedule(*rule).subrange(0, count as int) =~= rule_schedule(*rule));
    }
    Ok(())
}

} // verus!
