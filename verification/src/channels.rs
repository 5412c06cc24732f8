//! Ephemeral channels: named read-views over one or more queues, with
//! buffering parameters and an inactivity counter that the sweeper drives.

use vstd::prelude::*;
use crate::errors::{MoraError, MoraResult};
use crate::models::Event;
use crate::pool::QueuePool;
use crate::registry::{lemma_table_at_index, lemma_table_update, Registry};
use crate::storage::batch_view;
use crate::temporal_queue::cutoff;

verus! {

/// Saturating addition on the idle counter.
pub open spec fn sat_add_usize(x: usize, d: usize) -> usize {
    if x + d <= usize::MAX {
        (x + d) as usize
    } else {
        usize::MAX
    }
}

/// Saturating addition on timestamps, for the cut `now + buffer_time`.
pub open spec fn sat_add_u128(x: u128, d: u128) -> u128 {
    if x + d <= u128::MAX {
        (x + d) as u128
    } else {
        u128::MAX
    }
}

/// The timestamps and payloads of an event list.
pub open spec fn events_view(s: Seq<Event>) -> Seq<(u128, Seq<u8>)> {
    Seq::new(s.len(), |i: int| (s[i].timestamp, s[i].data@))
}


/// The name, timestamp and payload of each event in a list.
pub open spec fn event_triples(s: Seq<Event>) -> Seq<(Seq<char>, u128, Seq<u8>)> {
    Seq::new(s.len(), |i: int| (s[i].queue_name@, s[i].timestamp, s[i].data@))
}

/// How many entries one drain takes from a queue: its time-cut prefix,
/// bounded by the budget still left.
pub open spec fn seg_take(entries: Seq<(u128, Seq<u8>)>, cut: u128, rem: int) -> int {
    if rem <= 0 {
        0
    } else {
        let k = cutoff(entries, cut);
        if k <= 0 {
            0
        } else if k <= rem {
            k
        } else {
            rem
        }
    }
}

/// The events one queue contributes to a read.
pub open spec fn drain_seg(pool: QueuePool, q: Seq<char>, cut: u128, rem: int) -> Seq<
    (Seq<char>, u128, Seq<u8>),
> {
    let entries = pool.queue_entries(q);
    Seq::new(seg_take(entries, cut, rem) as nat, |j: int| (q, entries[j].0, entries[j].1))
}

/// The events a whole read hands out: the channel's queues in order, each
/// contributing its time-cut prefix, bounded by the budget left when its
/// turn comes.
pub open spec fn drained_events(
    pool: QueuePool,
    qnames: Seq<Seq<char>>,
    cut: u128,
    rem: int,
) -> Seq<(Seq<char>, u128, Seq<u8>)>
    decreases qnames.len(),
{
    if qnames.len() == 0 {
        Seq::empty()
    } else {
        let first = drain_seg(pool, qnames[0], cut, rem);
        first + drained_events(pool, qnames.skip(1), cut, rem - first.len())
    }
}

/// Unrolling the drain one queue at a time: the first `i + 1` queues hand
/// out what the first `i` do, followed by queue `i`'s own segment under the
/// budget that remains.
pub proof fn lemma_drained_step(pool: QueuePool, qnames: Seq<Seq<char>>, cut: u128, r: int, i: int)
    requires
        0 <= i < qnames.len(),
    ensures
        drained_events(pool, qnames.take(i + 1), cut, r) == drained_events(
            pool,
            qnames.take(i),
            cut,
            r,
        ) + drain_seg(pool, qnames[i], cut, r - drained_events(pool, qnames.take(i), cut, r).len()),
    decreases i,
{
    if i == 0 {
        let s1 = qnames.take(1);
        assert(s1.len() == 1);
        assert(s1[0] == qnames[0]);
        assert(s1.skip(1) =~= Seq::<Seq<char>>::empty());
        assert(qnames.take(0) =~= Seq::<Seq<char>>::empty());
        let seg = drain_seg(pool, qnames[0], cut, r);
        assert(drained_events(pool, s1, cut, r) == seg + drained_events(
            pool,
            s1.skip(1),
            cut,
            r - seg.len(),
        ));
        assert(drained_events(pool, s1.skip(1), cut, r - seg.len()) == Seq::<
            (Seq<char>, u128, Seq<u8>),
        >::empty());
        assert(drained_events(pool, qnames.take(0), cut, r) == Seq::<
            (Seq<char>, u128, Seq<u8>),
        >::empty());
        assert(seg + Seq::<(Seq<char>, u128, Seq<u8>)>::empty() =~= seg);
        assert(Seq::<(Seq<char>, u128, Seq<u8>)>::empty() + seg =~= seg);
    } else {
        let s1 = qnames.take(i + 1);
        let s0 = qnames.take(i);
        assert(s1[0] == qnames[0]);
        assert(s0[0] == qnames[0]);
        assert(s1.skip(1) =~= qnames.skip(1).take(i));
        assert(s0.skip(1) =~= qnames.skip(1).take(i - 1));
        let seg0 = drain_seg(pool, qnames[0], cut, r);
        let t0 = seg0.len() as int;
        assert(drained_events(pool, s1, cut, r) == seg0 + drained_events(
            pool,
            qnames.skip(1).take(i),
            cut,
            r - t0,
        ));
        assert(drained_events(pool, s0, cut, r) == seg0 + drained_events(
            pool,
            qnames.skip(1).take(i - 1),
            cut,
            r - t0,
        ));
        lemma_drained_step(pool, qnames.skip(1), cut, r - t0, i - 1);
        assert(qnames.skip(1)[i - 1] == qnames[i]);
        let prev = drained_events(pool, qnames.skip(1).take(i - 1), cut, r - t0);
        assert(drained_events(pool, qnames.skip(1).take(i), cut, r - t0) == prev + drain_seg(
            pool,
            qnames[i],
            cut,
            (r - t0) - prev.len(),
        ));
        assert(drained_events(pool, s0, cut, r).len() == t0 + prev.len());
        assert(seg0 + (prev + drain_seg(pool, qnames[i], cut, (r - t0) - prev.len())) =~= (seg0
            + prev) + drain_seg(pool, qnames[i], cut, r - (t0 + prev.len())));
    }
}

/// Once the budget is spent, the remaining queues contribute nothing.
pub proof fn lemma_drained_stable(
    pool: QueuePool,
    qnames: Seq<Seq<char>>,
    cut: u128,
    r: int,
    i: int,
    j: int,
)
    requires
        0 <= i <= j <= qnames.len(),
        drained_events(pool, qnames.take(i), cut, r).len() >= r,
    ensures
        drained_events(pool, qnames.take(j), cut, r) == drained_events(pool, qnames.take(i), cut, r),
    decreases j - i,
{
    if j > i {
        lemma_drained_stable(pool, qnames, cut, r, i, j - 1);
        lemma_drained_step(pool, qnames, cut, r, j - 1);
        let rem = r - drained_events(pool, qnames.take(j - 1), cut, r).len();
        assert(rem <= 0);
        assert(seg_take(pool.queue_entries(qnames[j - 1]), cut, rem) == 0);
        assert(drain_seg(pool, qnames[j - 1], cut, rem) =~= Seq::<
            (Seq<char>, u128, Seq<u8>),
        >::empty());
        assert(drained_events(pool, qnames.take(j), cut, r) =~= drained_events(
            pool,
            qnames.take(j - 1),
            cut,
            r,
        ));
    }
}

/// Relies on `uuid::Uuid::new_v4` and its hyphenated text form: a freshly
/// drawn random identifier of 36 characters; nothing more is promised of a
/// random value.
#[verifier::external_body]
fn fresh_channel_id() -> (r: String)
    ensures
        r@.len() == 36,
{
    uuid::Uuid::new_v4().to_string()
}

/// One channel: an id, the queues it reads, its buffering parameters, and
/// the milliseconds since its last read.
pub struct Channel {
    id: String,
    queues: Vec<String>,
    buffer_size: usize,
    buffer_time: u128,
    msec_from_last_op: usize,
}

impl Channel {
    pub closed spec fn spec_id(&self) -> Seq<char> {
        self.id@
    }

    pub closed spec fn spec_queues(&self) -> Seq<Seq<char>> {
        Seq::new(self.queues@.len(), |i: int| self.queues@[i]@)
    }

    pub closed spec fn spec_buffer_size(&self) -> usize {
        self.buffer_size
    }

    pub closed spec fn spec_buffer_time(&self) -> u128 {
        self.buffer_time
    }

    pub closed spec fn spec_msec(&self) -> usize {
        self.msec_from_last_op
    }

    pub fn id(&self) -> (r: &str)
        ensures
            r@ == self.spec_id(),
    {
        self.id.as_str()
    }

    pub fn queues(&self) -> (r: &Vec<String>)
        ensures
            r@.len() == self.spec_queues().len(),
            forall|i: int| 0 <= i < r@.len() ==> r@[i]@ == self.spec_queues()[i],
    {
        &self.queues
    }

    pub fn buffer_size(&self) -> (r: usize)
        ensures
            r == self.spec_buffer_size(),
    {
        self.buffer_size
    }

    pub fn buffer_time(&self) -> (r: u128)
        ensures
            r == self.spec_buffer_time(),
    {
        self.buffer_time
    }

    pub fn msec_from_last_op(&self) -> (r: usize)
        ensures
            r == self.spec_msec(),
    {
        self.msec_from_last_op
    }

    /// Advances the idle counter by `msec`, saturating rather than wrapping.
    pub fn update_msec_from_last_op(&mut self, msec: usize)
        ensures
            final(self).spec_msec() == sat_add_usize(old(self).spec_msec(), msec),
            final(self).spec_id() == old(self).spec_id(),
            final(self).spec_queues() == old(self).spec_queues(),
            final(self).spec_buffer_size() == old(self).spec_buffer_size(),
            final(self).spec_buffer_time() == old(self).spec_buffer_time(),
    {
        if usize::MAX - self.msec_from_last_op >= msec {
            self.msec_from_last_op = self.msec_from_last_op + msec;
        } else {
            self.msec_from_last_op = usize::MAX;
        }
    }

    /// Zeroes the idle counter; every read through the channel does this.
    pub fn reset_msec_from_last_op(&mut self)
        ensures
            final(self).spec_msec() == 0,
            final(self).spec_id() == old(self).spec_id(),
            final(self).spec_queues() == old(self).spec_queues(),
            final(self).spec_buffer_size() == old(self).spec_buffer_size(),
            final(self).spec_buffer_time() == old(self).spec_buffer_time(),
    {
        self.msec_from_last_op = 0;
    }

    /// A copy of the channel whose fields read the same.
    fn duplicate(&self) -> (r: Channel)
        ensures
            r.spec_id() == self.spec_id(),
            r.spec_queues() == self.spec_queues(),
            r.spec_buffer_size() == self.spec_buffer_size(),
            r.spec_buffer_time() == self.spec_buffer_time(),
            r.spec_msec() == self.spec_msec(),
    {
        let n = self.queues.len();
        let mut queues: Vec<String> = Vec::new();
        let mut i: usize = 0;
        while i < n
            invariant
                n == self.queues@.len(),
                0 <= i <= n,
                queues@.len() == i,
                forall|j: int| 0 <= j < i ==> queues@[j]@ == self.queues@[j]@,
            decreases n - i,
        {
            queues.push(self.queues[i].clone());
            i = i + 1;
        }
        let r = Channel {
            id: self.id.clone(),
            queues,
            buffer_size: self.buffer_size,
            buffer_time: self.buffer_time,
            msec_from_last_op: self.msec_from_last_op,
        };
        proof {
            assert(r.spec_queues() =~= self.spec_queues());
        }
        r
    }
}

/// The exact effect of one sweeper step as a relation between manager
/// states: every idle counter grows by the delta (saturating), every
/// channel carried past the timeout is gone, every other channel is kept
/// unchanged, and no channel appears.  `tick` establishes it, and the
/// expiry law is proved over chains of it.
pub open spec fn tick_rel(
    pre: ChannelManager,
    post: ChannelManager,
    delta_ms: usize,
    timeout: usize,
) -> bool {
    &&& post.wf()
    &&& forall|id: Seq<char>| #[trigger]
        pre.has_channel(id) ==> {
            let m = sat_add_usize(pre.channel_msec(id), delta_ms);
            if m > timeout {
                !post.has_channel(id)
            } else {
                &&& post.has_channel(id)
                &&& post.channel_msec(id) == m
                &&& post.channel_queues(id) == pre.channel_queues(id)
                &&& post.channel_buffer_size(id) == pre.channel_buffer_size(id)
                &&& post.channel_buffer_time(id) == pre.channel_buffer_time(id)
            }
        }
    &&& forall|id: Seq<char>| !pre.has_channel(id) ==> !(#[trigger] post.has_channel(id))
}

/// A channel absent from the head of a sweep chain stays absent.
pub proof fn lemma_absent_stays_absent(
    states: Seq<ChannelManager>,
    id: Seq<char>,
    delta_ms: usize,
    timeout: usize,
)
    requires
        states.len() >= 1,
        forall|i: int|
            0 <= i < states.len() - 1 ==> tick_rel(
                #[trigger] states[i],
                states[i + 1],
                delta_ms,
                timeout,
            ),
        !states[0].has_channel(id),
    ensures
        !states.last().has_channel(id),
    decreases states.len(),
{
    if states.len() > 1 {
        assert(tick_rel(states[0], states[1], delta_ms, timeout));
        let rest = states.skip(1);
        assert forall|i: int| 0 <= i < rest.len() - 1 implies tick_rel(
            #[trigger] rest[i],
            rest[i + 1],
            delta_ms,
            timeout,
        ) by {
            assert(rest[i] == states[i + 1]);
            assert(rest[i + 1] == states[i + 2]);
            assert(tick_rel(states[i + 1], states[i + 2], delta_ms, timeout));
        }
        lemma_absent_stays_absent(rest, id, delta_ms, timeout);
        assert(rest.last() == states.last());
    }
}

/// Channel expiry: along any chain of sweeper steps during which a channel
/// is never read, the tick that carries its idle counter past the timeout
/// removes it — once enough ticks have passed, the channel is gone.
pub proof fn lemma_idle_channel_expires(
    states: Seq<ChannelManager>,
    id: Seq<char>,
    delta_ms: usize,
    timeout: usize,
)
    requires
        states.len() >= 2,
        timeout < usize::MAX,
        forall|i: int|
            0 <= i < states.len() - 1 ==> tick_rel(
                #[trigger] states[i],
                states[i + 1],
                delta_ms,
                timeout,
            ),
        states[0].has_channel(id),
        states[0].channel_msec(id) + (states.len() - 1) * delta_ms > timeout,
    ensures
        !states.last().has_channel(id),
    decreases states.len(),
{
    let n = states.len() as int;
    let m0 = states[0].channel_msec(id);
    assert(tick_rel(states[0], states[1], delta_ms, timeout));
    let m1 = sat_add_usize(m0, delta_ms);
    let rest = states.skip(1);
    assert forall|i: int| 0 <= i < rest.len() - 1 implies tick_rel(
        #[trigger] rest[i],
        rest[i + 1],
        delta_ms,
        timeout,
    ) by {
        assert(rest[i] == states[i + 1]);
        assert(rest[i + 1] == states[i + 2]);
        assert(tick_rel(states[i + 1], states[i + 2], delta_ms, timeout));
    }
    assert(rest.last() == states.last());
    if m1 > timeout {
        assert(!states[1].has_channel(id));
        assert(rest[0] == states[1]);
        lemma_absent_stays_absent(rest, id, delta_ms, timeout);
    } else {
        assert(m1 == m0 + delta_ms);
        assert(n >= 3) by {
            if n == 2 {
                assert((n - 1) * delta_ms == delta_ms) by (nonlinear_arith)
                    requires n == 2;
                assert(m0 + delta_ms > timeout);
            }
        }
        assert(rest[0] == states[1]);
        assert(states[1].channel_msec(id) + (rest.len() - 1) * delta_ms > timeout) by {
            assert((n - 1) * delta_ms == (n - 2) * delta_ms + delta_ms) by (nonlinear_arith);
        }
        lemma_idle_channel_expires(rest, id, delta_ms, timeout);
    }
}

/// The process-local dictionary of live channels.
pub struct ChannelManager {
    channels: Registry<Channel>,
}

impl ChannelManager {
    pub closed spec fn has_channel(&self, id: Seq<char>) -> bool {
        self.channels@.contains_key(id)
    }

    pub closed spec fn channel_msec(&self, id: Seq<char>) -> usize {
        self.channels@[id].spec_msec()
    }

    pub closed spec fn channel_queues(&self, id: Seq<char>) -> Seq<Seq<char>> {
        self.channels@[id].spec_queues()
    }

    pub closed spec fn channel_buffer_size(&self, id: Seq<char>) -> usize {
        self.channels@[id].spec_buffer_size()
    }

    pub closed spec fn channel_buffer_time(&self, id: Seq<char>) -> u128 {
        self.channels@[id].spec_buffer_time()
    }

    /// The channel ids, oldest first.
    pub closed spec fn channel_ids(&self) -> Seq<Seq<char>> {
        self.channels.keys_seq()
    }

    /// Well-formedness: a sound table whose every channel carries the id it
    /// is filed under.
    pub closed spec fn wf(&self) -> bool {
        &&& self.channels.wf()
        &&& forall|id: Seq<char>| #[trigger]
            self.channels@.contains_key(id) ==> self.channels@[id].spec_id() == id
    }

    /// Whether two manager states agree on every channel but `id`.
    pub open spec fn other_channels_unchanged(
        pre: ChannelManager,
        post: ChannelManager,
        id: Seq<char>,
    ) -> bool {
        forall|id2: Seq<char>|
            id2 != id ==> {
                &&& #[trigger] post.has_channel(id2) == pre.has_channel(id2)
                &&& (pre.has_channel(id2) ==> {
                    &&& post.channel_msec(id2) == pre.channel_msec(id2)
                    &&& post.channel_queues(id2) == pre.channel_queues(id2)
                    &&& post.channel_buffer_size(id2) == pre.channel_buffer_size(id2)
                    &&& post.channel_buffer_time(id2) == pre.channel_buffer_time(id2)
                })
            }
    }

    pub fn new() -> (r: ChannelManager)
        ensures
            r.wf(),
            r.channel_ids() == Seq::<Seq<char>>::empty(),
            forall|id: Seq<char>| !r.has_channel(id),
    {
        let r = ChannelManager { channels: Registry::new() };
        proof {
            assert(forall|id: Seq<char>| !r.channels@.contains_key(id));
        }
        r
    }

    /// Creates a channel under a caller-chosen id: every named queue must
    /// exist in the pool, and the id must be free.
    pub fn create_channel_with_id(
        &mut self,
        queue_pool: &QueuePool,
        channel_id: String,
        queues: Vec<String>,
        buffer_size: usize,
        buffer_time: u128,
    ) -> (r: Result<Channel, MoraError>)
        requires
            old(self).wf(),
            queue_pool.wf(),
            !old(self).has_channel(channel_id@),
        ensures
            final(self).wf(),
            match r {
                Ok(ch) => {
                    &&& forall|i: int|
                        0 <= i < queues@.len() ==> queue_pool.has_queue(#[trigger] queues@[i]@)
                    &&& ch.spec_id() == channel_id@
                    &&& ch.spec_queues().len() == queues@.len()
                    &&& forall|i: int| 0 <= i < queues@.len() ==> ch.spec_queues()[i] == queues@[i]@
                    &&& ch.spec_buffer_size() == buffer_size
                    &&& ch.spec_buffer_time() == buffer_time
                    &&& ch.spec_msec() == 0
                    &&& final(self).has_channel(channel_id@)
                    &&& final(self).channel_msec(channel_id@) == 0
                    &&& final(self).channel_queues(channel_id@) == ch.spec_queues()
                    &&& final(self).channel_buffer_size(channel_id@) == buffer_size
                    &&& final(self).channel_buffer_time(channel_id@) == buffer_time
                    &&& final(self).channel_ids() == old(self).channel_ids().push(channel_id@)
                    &&& Self::other_channels_unchanged(*old(self), *final(self), channel_id@)
                },
                Err(e) => {
                    &&& *final(self) == *old(self)
                    &&& e matches MoraError::QueueNotFound(s) && !queue_pool.has_queue(s@)
                        && exists|i: int| 0 <= i < queues@.len() && #[trigger] queues@[i]@ == s@
                },
            },
    {
        let n = queues.len();
        let mut i: usize = 0;
        while i < n
            invariant
                queue_pool.wf(),
                *self == *old(self),
                old(self).wf(),
                n == queues@.len(),
                0 <= i <= n,
                forall|j: int| 0 <= j < i ==> queue_pool.has_queue(#[trigger] queues@[j]@),
            decreases n - i,
        {
            if !queue_pool.contains_queue(&queues[i]) {
                return Err(MoraError::QueueNotFound(queues[i].clone()));
            }
            i = i + 1;
        }
        let channel = Channel {
            id: channel_id,
            queues,
            buffer_size,
            buffer_time,
            msec_from_last_op: 0,
        };
        let stored = channel.duplicate();
        let key = channel.id.clone();
        self.channels.insert(key, stored);
        proof {
            assert forall|id: Seq<char>| #[trigger] self.channels@.contains_key(id) implies
                self.channels@[id].spec_id() == id by {
                if id != channel.spec_id() {
                    assert(old(self).channels@.contains_key(id));
                }
            }
        }
        Ok(channel)
    }

    /// Creates a channel under a fresh random id.  The id is drawn again on
    /// the astronomically unlikely collision; after a bounded number of
    /// collisions the attempt is given up as an internal error rather than
    /// looping without a bound.
    pub fn create_channel(
        &mut self,
        queue_pool: &QueuePool,
        queues: Vec<String>,
        buffer_size: usize,
        buffer_time: u128,
    ) -> (r: Result<Channel, MoraError>)
        requires
            old(self).wf(),
            queue_pool.wf(),
        ensures
            final(self).wf(),
            match r {
                Ok(ch) => {
                    &&& forall|i: int|
                        0 <= i < queues@.len() ==> queue_pool.has_queue(#[trigger] queues@[i]@)
                    &&& !old(self).has_channel(ch.spec_id())
                    &&& ch.spec_queues().len() == queues@.len()
                    &&& forall|i: int| 0 <= i < queues@.len() ==> ch.spec_queues()[i] == queues@[i]@
                    &&& ch.spec_buffer_size() == buffer_size
                    &&& ch.spec_buffer_time() == buffer_time
                    &&& ch.spec_msec() == 0
                    &&& final(self).has_channel(ch.spec_id())
                    &&& final(self).channel_msec(ch.spec_id()) == 0
                    &&& final(self).channel_queues(ch.spec_id()) == ch.spec_queues()
                    &&& final(self).channel_buffer_size(ch.spec_id()) == buffer_size
                    &&& final(self).channel_buffer_time(ch.spec_id()) == buffer_time
                    &&& final(self).channel_ids() == old(self).channel_ids().push(ch.spec_id())
                    &&& Self::other_channels_unchanged(*old(self), *final(self), ch.spec_id())
                },
                Err(e) => {
                    &&& *final(self) == *old(self)
                    &&& ((e matches MoraError::QueueNotFound(s) && !queue_pool.has_queue(s@)
                        && exists|i: int| 0 <= i < queues@.len() && #[trigger] queues@[i]@ == s@)
                        || (e is GenericError))
                    &&& (e is GenericError ==> old(self).channel_ids().len() > 0)
                },
            },
    {
        let mut attempts: usize = 0;
        while attempts < 16
            invariant
                self.wf(),
                *self == *old(self),
                queue_pool.wf(),
                attempts > 0 ==> old(self).channel_ids().len() > 0,
            decreases 16 - attempts,
        {
            let candidate = fresh_channel_id();
            if !self.channels.contains(&candidate) {
                return self.create_channel_with_id(
                    queue_pool,
                    candidate,
                    queues,
                    buffer_size,
                    buffer_time,
                );
            }
            proof {
                // A colliding draw proves the manager already holds a channel.
                let w = choose|w: int|
                    0 <= w < self.channels.keys_seq().len() && self.channels.keys_seq()[w]
                        == candidate@;
                assert(old(self).channel_ids().len() > 0);
            }
            attempts = attempts + 1;
        }
        Err(MoraError::GenericError("could not draw a fresh channel id".to_owned()))
    }

    /// The listed channel ids are distinct, each names a live channel, and
    /// every live channel appears among them — the listing `get_channels`
    /// hands out is complete and free of duplicates.
    pub proof fn lemma_channel_ids_unique(m: ChannelManager)
        requires
            m.wf(),
        ensures
            crate::registry::keys_unique(m.channel_ids()),
            forall|i: int|
                0 <= i < m.channel_ids().len() ==> m.has_channel(#[trigger] m.channel_ids()[i]),
            forall|id: Seq<char>| #[trigger]
                m.has_channel(id) ==> exists|i: int|
                    0 <= i < m.channel_ids().len() && m.channel_ids()[i] == id,
    {
        assert forall|i: int| 0 <= i < m.channel_ids().len() implies m.has_channel(
            #[trigger] m.channel_ids()[i],
        ) by {
            assert(m.channels.keys_seq()[i] == m.channel_ids()[i]);
        }
        assert forall|id: Seq<char>| #[trigger] m.has_channel(id) implies exists|i: int|
            0 <= i < m.channel_ids().len() && m.channel_ids()[i] == id by {
            let w = choose|w: int|
                0 <= w < m.channels.keys_seq().len() && m.channels.keys_seq()[w] == id;
            assert(m.channel_ids()[w] == id);
        }
    }

    /// Shared borrows of every channel, oldest first.
    pub fn get_channels(&self) -> (r: Result<Vec<&Channel>, MoraError>)
        requires
            self.wf(),
        ensures
            r matches Ok(cs) && {
                &&& cs@.len() == self.channel_ids().len()
                &&& forall|i: int|
                    0 <= i < cs@.len() ==> (#[trigger] cs@[i]).spec_id() == self.channel_ids()[i]
                        && self.has_channel(cs@[i].spec_id())
                        && cs@[i].spec_msec() == self.channel_msec(cs@[i].spec_id())
            },
    {
        let n = self.channels.len();
        let mut out: Vec<&Channel> = Vec::new();
        let mut i: usize = 0;
        while i < n
            invariant
                self.wf(),
                n == self.channel_ids().len(),
                0 <= i <= n,
                out@.len() == i,
                forall|j: int|
                    0 <= j < i ==> (#[trigger] out@[j]).spec_id() == self.channel_ids()[j]
                        && self.has_channel(out@[j].spec_id())
                        && out@[j].spec_msec() == self.channel_msec(out@[j].spec_id()),
            decreases n - i,
        {
            let c = self.channels.value_at(i);
            proof {
                lemma_table_at_index(self.channels.keys_seq(), self.channels.values_seq(), i as int);
            }
            out.push(c);
            i = i + 1;
        }
        Ok(out)
    }

    /// A shared borrow of one channel, if it is live.
    pub fn get_channel(&self, channel_id: &String) -> (r: Result<Option<&Channel>, MoraError>)
        requires
            self.wf(),
        ensures
            r matches Ok(c) && match c {
                Some(ch) => {
                    &&& self.has_channel(channel_id@)
                    &&& ch.spec_id() == channel_id@
                    &&& ch.spec_msec() == self.channel_msec(channel_id@)
                    &&& ch.spec_queues() == self.channel_queues(channel_id@)
                    &&& ch.spec_buffer_size() == self.channel_buffer_size(channel_id@)
                    &&& ch.spec_buffer_time() == self.channel_buffer_time(channel_id@)
                },
                None => !self.has_channel(channel_id@),
            },
    {
        Ok(self.channels.get(channel_id))
    }

    /// A mutable borrow of one channel, if it is live.
    #[verifier::rlimit(100)]
    #[verifier::spinoff_prover]
    pub fn get_mut_channel(&mut self, channel_id: &String) -> (r: Result<
        Option<&mut Channel>,
        MoraError,
    >)
        requires
            old(self).wf(),
        ensures
            r matches Ok(c) && match c {
                Some(ch) => {
                    &&& old(self).has_channel(channel_id@)
                    &&& ch.spec_id() == channel_id@
                    &&& ch.spec_msec() == old(self).channel_msec(channel_id@)
                    &&& ch.spec_queues() == old(self).channel_queues(channel_id@)
                    &&& final(self).channel_ids() == old(self).channel_ids()
                    &&& (final(ch).spec_id() == channel_id@ ==> final(self).wf())
                    &&& final(self).has_channel(channel_id@)
                    &&& final(self).channels_view() == old(self).channels_view().insert(
                        channel_id@,
                        *final(ch),
                    )
                    &&& Self::other_channels_unchanged(*old(self), *final(self), channel_id@)
                },
                None => !old(self).has_channel(channel_id@) && *final(self) == *old(self),
            },
    {
        let ghost pre = *self;
        match self.channels.get_mut(channel_id) {
            Some(ch) => {
                proof {
                    let i = choose|i: int|
                        0 <= i < pre.channels.keys_seq().len() && #[trigger] pre.channels.keys_seq()[i]
                            == channel_id@ && *ch == pre.channels.values_seq()[i];
                    lemma_table_at_index(pre.channels.keys_seq(), pre.channels.values_seq(), i);
                    lemma_table_update(
                        pre.channels.keys_seq(),
                        pre.channels.values_seq(),
                        i,
                        *final(ch),
                    );
                }
                Ok(Some(ch))
            },
            None => Ok(None),
        }
    }

    /// The channel table as a mapping; mutation through a borrowed channel
    /// is stated over it.
    pub closed spec fn channels_view(&self) -> Map<Seq<char>, Channel> {
        self.channels@
    }

    /// Closes a channel; closing an absent id is a no-op.  The manager owns
    /// no durable state, so closing a channel can touch none.
    pub fn close_channel(&mut self, channel_id: &String)
        requires
            old(self).wf(),
        ensures
            final(self).wf(),
            !final(self).has_channel(channel_id@),
            Self::other_channels_unchanged(*old(self), *final(self), channel_id@),
    {
        self.channels.remove(channel_id);
        proof {
            assert forall|id: Seq<char>| #[trigger] self.channels@.contains_key(id) implies
                self.channels@[id].spec_id() == id by {
                assert(old(self).channels@.contains_key(id));
            }
        }
    }

    /// The sweeper's step: adds `delta_ms` to every idle counter and closes
    /// every channel whose counter then exceeds the timeout.  Any channel
    /// that sees no read for longer than the timeout is removed by the tick
    /// that carries it past the timeout; the closed ids are returned.
    pub fn tick(&mut self, delta_ms: usize, timeout: usize) -> (r: Vec<String>)
        requires
            old(self).wf(),
        ensures
            final(self).wf(),
            tick_rel(*old(self), *final(self), delta_ms, timeout),
            forall|id: Seq<char>| #[trigger]
                old(self).has_channel(id) ==> {
                    let m = sat_add_usize(old(self).channel_msec(id), delta_ms);
                    if m > timeout {
                        !final(self).has_channel(id)
                    } else {
                        &&& final(self).has_channel(id)
                        &&& final(self).channel_msec(id) == m
                        &&& final(self).channel_queues(id) == old(self).channel_queues(id)
                        &&& final(self).channel_buffer_size(id) == old(self).channel_buffer_size(id)
                        &&& final(self).channel_buffer_time(id) == old(self).channel_buffer_time(id)
                    }
                },
            forall|id: Seq<char>|
                !old(self).has_channel(id) ==> !(#[trigger] final(self).has_channel(id)),
            forall|i: int|
                0 <= i < r@.len() ==> old(self).has_channel(#[trigger] r@[i]@) && sat_add_usize(
                    old(self).channel_msec(r@[i]@),
                    delta_ms,
                ) > timeout,
            forall|id: Seq<char>| #[trigger]
                old(self).has_channel(id) && sat_add_usize(old(self).channel_msec(id), delta_ms)
                    > timeout ==> exists|i: int| 0 <= i < r@.len() && r@[i]@ == id,
    {
        let n = self.channels.len();
        let mut kept: Registry<Channel> = Registry::new();
        let mut closed: Vec<String> = Vec::new();
        let mut i: usize = 0;
        while i < n
            invariant
                old(self).wf(),
                *self == *old(self),
                n == old(self).channel_ids().len(),
                0 <= i <= n,
                kept.wf(),
                forall|id: Seq<char>| #[trigger] kept@.contains_key(id) ==> {
                    &&& exists|j: int| 0 <= j < i && old(self).channel_ids()[j] == id
                    &&& old(self).has_channel(id)
                    &&& sat_add_usize(old(self).channel_msec(id), delta_ms) <= timeout
                    &&& kept@[id].spec_id() == id
                    &&& kept@[id].spec_msec() == sat_add_usize(old(self).channel_msec(id), delta_ms)
                    &&& kept@[id].spec_queues() == old(self).channel_queues(id)
                    &&& kept@[id].spec_buffer_size() == old(self).channel_buffer_size(id)
                    &&& kept@[id].spec_buffer_time() == old(self).channel_buffer_time(id)
                },
                forall|j: int|
                    0 <= j < i ==> {
                        let id = #[trigger] old(self).channel_ids()[j];
                        if sat_add_usize(old(self).channel_msec(id), delta_ms) <= timeout {
                            kept@.contains_key(id)
                        } else {
                            !kept@.contains_key(id)
                        }
                    },
                forall|a: int|
                    0 <= a < closed@.len() ==> old(self).has_channel(#[trigger] closed@[a]@)
                        && sat_add_usize(old(self).channel_msec(closed@[a]@), delta_ms) > timeout,
                forall|j: int|
                    0 <= j < i && sat_add_usize(
                        old(self).channel_msec(#[trigger] old(self).channel_ids()[j]),
                        delta_ms,
                    ) > timeout ==> exists|a: int|
                        0 <= a < closed@.len() && closed@[a]@ == old(self).channel_ids()[j],
            decreases n - i,
        {
            let c = self.channels.value_at(i);
            proof {
                lemma_table_at_index(self.channels.keys_seq(), self.channels.values_seq(), i as int);
            }
            let mut c2 = c.duplicate();
            c2.update_msec_from_last_op(delta_ms);
            let expired = c2.msec_from_last_op() > timeout;
            let ghost id = old(self).channel_ids()[i as int];
            if expired {
                let ghost closed0 = closed@;
                closed.push(self.channels.key_at(i).clone());
                proof {
                    assert(closed@.last()@ == id);
                    assert forall|j: int|
                        0 <= j < i + 1 && sat_add_usize(
                            old(self).channel_msec(#[trigger] old(self).channel_ids()[j]),
                            delta_ms,
                        ) > timeout implies exists|a: int|
                        0 <= a < closed@.len() && closed@[a]@ == old(self).channel_ids()[j] by {
                        if j < i {
                            let a0 = choose|a0: int|
                                0 <= a0 < closed0.len() && closed0[a0]@ == old(self).channel_ids()[j];
                            assert(closed@[a0]@ == old(self).channel_ids()[j]);
                        } else {
                            assert(closed@[closed@.len() - 1]@ == old(self).channel_ids()[j]);
                        }
                    }
                }
            } else {
                proof {
                    if kept@.contains_key(id) {
                        let j = choose|j: int| 0 <= j < i && old(self).channel_ids()[j] == id;
                        let ii = i as int;
                        assert(old(self).channels.keys_seq()[j] == old(self).channels.keys_seq()[ii]);
                        assert(false);
                    }
                }
                kept.insert(self.channels.key_at(i).clone(), c2);
            }
            i = i + 1;
        }
        self.channels = kept;
        proof {
            assert forall|id: Seq<char>| #[trigger] old(self).has_channel(id) implies {
                let m = sat_add_usize(old(self).channel_msec(id), delta_ms);
                if m > timeout {
                    !self.has_channel(id)
                } else {
                    &&& self.has_channel(id)
                    &&& self.channel_msec(id) == m
                    &&& self.channel_queues(id) == old(self).channel_queues(id)
                    &&& self.channel_buffer_size(id) == old(self).channel_buffer_size(id)
                    &&& self.channel_buffer_time(id) == old(self).channel_buffer_time(id)
                }
            } by {
                let w = choose|w: int|
                    0 <= w < old(self).channels.keys_seq().len() && old(
                        self,
                    ).channels.keys_seq()[w] == id;
                assert(old(self).channel_ids()[w] == id);
            }
            assert forall|id: Seq<char>| !old(self).has_channel(id) implies !(
            #[trigger] self.has_channel(id)) by {
                if self.has_channel(id) {
                    let j = choose|j: int| 0 <= j < n && old(self).channel_ids()[j] == id;
                    assert(old(self).channels.keys_seq()[j] == id);
                }
            }
        }
        closed
    }

    /// One read through a channel: resolves the channel, zeroes its idle
    /// counter, computes the cut `now + buffer_time` (saturating), and
    /// drains each of the channel's queues up to the cut, in the channel's
    /// queue order, never taking more than `buffer_size` events in all.
    /// With `delete` exactly the returned entries are durably tombstoned
    /// and leave memory; without it the read is a pure peek.  The read
    /// succeeds whenever the channel is live and every queue it names still
    /// exists; a missing channel is reported as a generic error carrying
    /// its id, and a queue deleted since the channel was created propagates
    /// its own error.
    #[verifier::loop_isolation(false)]
    pub fn read_events(
        &mut self,
        pool: &mut QueuePool,
        channel_id: &String,
        now: u128,
        delete: bool,
    ) -> (r: MoraResult<Vec<Event>>)
        requires
            old(self).wf(),
            old(pool).wf(),
        ensures
            final(self).wf(),
            final(pool).wf(),
            old(self).has_channel(channel_id@) && (forall|i: int|
                0 <= i < old(self).channel_queues(channel_id@).len() ==> old(pool).has_queue(
                    #[trigger] old(self).channel_queues(channel_id@)[i],
                )) ==> r is Ok,
            match r {
                Ok(events) => {
                    let cut = sat_add_u128(now, old(self).channel_buffer_time(channel_id@));
                    let bs = old(self).channel_buffer_size(channel_id@);
                    &&& old(self).has_channel(channel_id@)
                    &&& final(self).has_channel(channel_id@)
                    &&& final(self).channel_msec(channel_id@) == 0
                    &&& final(self).channel_queues(channel_id@) == old(self).channel_queues(
                        channel_id@,
                    )
                    &&& final(self).channel_buffer_size(channel_id@) == bs
                    &&& final(self).channel_buffer_time(channel_id@) == old(
                        self,
                    ).channel_buffer_time(channel_id@)
                    &&& final(self).channel_ids() == old(self).channel_ids()
                    &&& Self::other_channels_unchanged(*old(self), *final(self), channel_id@)
                    &&& events@.len() <= bs
                    &&& forall|i: int|
                        0 <= i < events@.len() ==> (#[trigger] events@[i]).timestamp <= cut
                    &&& final(pool).queue_ids() == old(pool).queue_ids()
                    &&& forall|q: Seq<char>| #[trigger]
                        final(pool).has_queue(q) == old(pool).has_queue(q)
                    &&& (!delete ==> {
                        &&& final(pool).spec_storage() == old(pool).spec_storage()
                        &&& forall|q: Seq<char>| #[trigger]
                            old(pool).has_queue(q) ==> final(pool).queue_entries(q) == old(
                                pool,
                            ).queue_entries(q)
                    })
                    &&& (crate::registry::keys_unique(old(self).channel_queues(channel_id@))
                        ==> {
                        let qnames = old(self).channel_queues(channel_id@);
                        &&& event_triples(events@) == drained_events(
                            *old(pool),
                            qnames,
                            cut,
                            bs as int,
                        )
                        &&& (delete ==> forall|j: int|
                            0 <= j < qnames.len() && old(pool).has_queue(#[trigger] qnames[j])
                                ==> final(pool).queue_entries(qnames[j]) == old(
                                pool,
                            ).queue_entries(qnames[j]).skip(
                                seg_take(
                                    old(pool).queue_entries(qnames[j]),
                                    cut,
                                    bs - drained_events(
                                        *old(pool),
                                        qnames.take(j),
                                        cut,
                                        bs as int,
                                    ).len(),
                                ),
                            ))
                    })
                    &&& (old(self).channel_queues(channel_id@).len() == 1 ==> {
                        let q = old(self).channel_queues(channel_id@)[0];
                        let k = cutoff(old(pool).queue_entries(q), cut);
                        let kb = if k <= bs {
                            k
                        } else {
                            bs as int
                        };
                        &&& forall|i: int|
                            0 <= i < events@.len() ==> (#[trigger] events@[i]).queue_name@ == q
                        &&& (bs == 0 ==> events@.len() == 0)
                        &&& (bs > 0 ==> old(pool).has_queue(q))
                        &&& (bs > 0 ==> {
                            &&& events_view(events@) == old(pool).queue_entries(q).take(kb)
                            &&& (delete ==> {
                                &&& final(pool).queue_entries(q) == old(pool).queue_entries(
                                    q,
                                ).skip(kb)
                                &&& final(pool).spec_storage().index_map(q)
                                    == crate::codec::replay_from(
                                    old(pool).spec_storage().index_map(q),
                                    crate::storage::tombstone_records(
                                        Seq::new(
                                            kb as nat,
                                            |i: int| old(pool).queue_entries(q)[i].0,
                                        ),
                                    ),
                                )
                            })
                        })
                    })
                },
                Err(e) => {
                    &&& (!old(self).has_channel(channel_id@) ==> {
                        &&& *final(self) == *old(self)
                        &&& *final(pool) == *old(pool)
                        &&& e matches MoraError::GenericError(s) && s@ == channel_id@
                    })
                    &&& (old(self).has_channel(channel_id@) ==> {
                        &&& e matches MoraError::QueueNotFound(s) && !old(pool).has_queue(s@)
                            && exists|i: int|
                            0 <= i < old(self).channel_queues(channel_id@).len()
                                && #[trigger] old(self).channel_queues(channel_id@)[i] == s@
                        &&& final(self).has_channel(channel_id@)
                        &&& final(self).channel_msec(channel_id@) == 0
                        &&& final(self).channel_ids() == old(self).channel_ids()
                        &&& Self::other_channels_unchanged(*old(self), *final(self), channel_id@)
                        &&& final(pool).queue_ids() == old(pool).queue_ids()
                        &&& forall|q: Seq<char>| #[trigger]
                            final(pool).has_queue(q) == old(pool).has_queue(q)
                        &&& (!delete ==> {
                            &&& final(pool).spec_storage() == old(pool).spec_storage()
                            &&& forall|q: Seq<char>| #[trigger]
                                old(pool).has_queue(q) ==> final(pool).queue_entries(q) == old(
                                    pool,
                                ).queue_entries(q)
                        })
                    })
                },
            },
    {
        let ci = match self.channels.index_of(channel_id) {
            Some(ci) => ci,
            None => {
                return Err(MoraError::GenericError(channel_id.clone()));
            },
        };
        let ghost pre = *self;
        proof {
            lemma_table_at_index(pre.channels.keys_seq(), pre.channels.values_seq(), ci as int);
        }
        let ghost qnames = pre.channels@[channel_id@].spec_queues();
        let snapshot = self.channels.value_at(ci).duplicate();
        let names = snapshot.queues;
        let bsize = snapshot.buffer_size;
        let btime = snapshot.buffer_time;
        let c = self.channels.value_at_mut(ci);
        c.reset_msec_from_last_op();
        proof {
            lemma_table_update(
                pre.channels.keys_seq(),
                pre.channels.values_seq(),
                ci as int,
                self.channels.values_seq()[ci as int],
            );
            assert forall|id: Seq<char>| #[trigger] self.channels@.contains_key(id) implies
                self.channels@[id].spec_id() == id by {
                if id != channel_id@ {
                    assert(pre.channels@.contains_key(id));
                }
            }
        }
        let cut = if u128::MAX - now >= btime {
            now + btime
        } else {
            u128::MAX
        };
        let ghost pool0 = *pool;
        let mut events: Vec<Event> = Vec::new();
        let n = names.len();
        let mut i: usize = 0;
        while i < n && events.len() < bsize
            invariant
                pool.wf(),
                n == names@.len(),
                0 <= i <= n,
                forall|j: int| 0 <= j < n ==> names@[j]@ == qnames[j],
                events@.len() <= bsize,
                forall|a: int| 0 <= a < events@.len() ==> (#[trigger] events@[a]).timestamp <= cut,
                i == 0 ==> *pool == pool0,
                i == 0 ==> events@.len() == 0,
                bsize == 0 ==> i == 0,
                pool.queue_ids() == pool0.queue_ids(),
                forall|q: Seq<char>| #[trigger] pool.has_queue(q) == pool0.has_queue(q),
                !delete ==> {
                    &&& pool.spec_storage() == pool0.spec_storage()
                    &&& forall|q: Seq<char>| #[trigger]
                        pool0.has_queue(q) ==> pool.queue_entries(q) == pool0.queue_entries(q)
                },
                n == 1 && i == 1 ==> {
                    let q = qnames[0];
                    let k = cutoff(pool0.queue_entries(q), cut);
                    let kb = if k <= bsize {
                        k
                    } else {
                        bsize as int
                    };
                    &&& pool0.has_queue(q)
                    &&& forall|a: int|
                        0 <= a < events@.len() ==> (#[trigger] events@[a]).queue_name@ == q
                    &&& events_view(events@) == pool0.queue_entries(q).take(kb)
                    &&& (delete ==> {
                        &&& pool.queue_entries(q) == pool0.queue_entries(q).skip(kb)
                        &&& pool.spec_storage().index_map(q) == crate::codec::replay_from(
                            pool0.spec_storage().index_map(q),
                            crate::storage::tombstone_records(
                                Seq::new(kb as nat, |a: int| pool0.queue_entries(q)[a].0),
                            ),
                        )
                    })
                },
            crate::registry::keys_unique(qnames) ==> {
                    &&& event_triples(events@) == drained_events(
                        pool0,
                        qnames.take(i as int),
                        cut,
                        bsize as int,
                    )
                    &&& forall|j: int|
                        i <= j < n && pool0.has_queue(#[trigger] qnames[j]) ==> pool.queue_entries(
                            qnames[j],
                        ) == pool0.queue_entries(qnames[j])
                    &&& forall|j: int| 0 <= j < i ==> pool0.has_queue(#[trigger] qnames[j])
                    &&& (delete ==> forall|j: int|
                        0 <= j < i ==> pool.queue_entries(#[trigger] qnames[j])
                            == pool0.queue_entries(qnames[j]).skip(
                            seg_take(
                                pool0.queue_entries(qnames[j]),
                                cut,
                                bsize - drained_events(
                                    pool0,
                                    qnames.take(j),
                                    cut,
                                    bsize as int,
                                ).len(),
                            ),
                        ))
                },
            decreases n - i,
        {
            let name = &names[i];
            let ghost pool_at = *pool;
            let remaining = bsize - events.len();
            let drained = match pool.dequeue_until_limited(name, cut, remaining, delete) {
                Ok(d) => d,
                Err(e) => {
                    proof {
                        assert(names@[i as int]@ == qnames[i as int]);
                        assert(old(self).channel_queues(channel_id@)[i as int]
                            == qnames[i as int]);
                        assert(!pool0.has_queue(qnames[i as int]));
                    }
                    return Err(e);
                },
            };
            let ghost events0 = events@;
            let m = drained.len();
            let mut j: usize = 0;
            while j < m
                invariant
                    0 <= j <= m,
                    m == drained@.len(),
                    i < n,
                    n == names@.len(),
                    events@.len() == events0.len() + j,
                    forall|a: int| 0 <= a < events0.len() ==> events@[a] == events0[a],
                    forall|a: int|
                        events0.len() <= a < events@.len() ==> {
                            &&& (#[trigger] events@[a]).timestamp == drained@[a - events0.len()].0
                            &&& events@[a].data@ == drained@[a - events0.len()].1@
                            &&& events@[a].queue_name@ == names@[i as int]@
                        },
                decreases m - j,
            {
                let entry_ts = drained[j].0;
                let entry_data = drained[j].1.clone();
                proof {
                    crate::pool::lemma_cloned_bytes(drained@[j as int].1, entry_data);
                }
                events.push(Event { timestamp: entry_ts, queue_name: name.clone(), data: entry_data });
                j = j + 1;
            }
            proof {
                let nameview = names@[i as int]@;
                assert(drained@.len() <= remaining) by {
                    let entries = pool_at.queue_entries(nameview);
                    let kcut = cutoff(entries, cut);
                    crate::temporal_queue::lemma_cutoff_range(entries, cut);
                    let k = if kcut <= remaining {
                        kcut
                    } else {
                        remaining as int
                    };
                    assert(batch_view(drained@) == entries.take(k));
                    assert(batch_view(drained@).len() == drained@.len());
                    assert(entries.take(k).len() == k);
                }
                assert forall|a: int| 0 <= a < events@.len() implies
                    (#[trigger] events@[a]).timestamp <= cut by {
                    if a < events0.len() {
                        assert(events@[a] == events0[a]);
                    } else {
                        assert(events@[a].timestamp == drained@[a - events0.len()].0);
                        assert(drained@[a - events0.len()].0 <= cut);
                    }
                }
                assert forall|q: Seq<char>| #[trigger] pool.has_queue(q)
                    == pool0.has_queue(q) by {
                    if q != nameview {
                        assert(pool.has_queue(q) == pool_at.has_queue(q));
                    }
                }
                if !delete {
                    assert(pool.spec_storage() == pool_at.spec_storage());
                    assert forall|q: Seq<char>| #[trigger] pool0.has_queue(q) implies
                        pool.queue_entries(q) == pool0.queue_entries(q) by {
                        if q == nameview {
                            assert(pool.queue_entries(q) == pool_at.queue_entries(q));
                        } else {
                            assert(pool_at.has_queue(q) == pool0.has_queue(q));
                            assert(pool.has_queue(q) == pool_at.has_queue(q));
                            assert(pool.queue_entries(q) == pool_at.queue_entries(q));
                        }
                    }
                }
                if n == 1 {
                    let q = qnames[0];
                    assert(i == 0);
                    assert(pool_at == pool0);
                    assert(remaining == bsize);
                    let k = cutoff(pool0.queue_entries(q), cut);
                    let kb = if k <= bsize {
                        k
                    } else {
                        bsize as int
                    };
                    assert(events0.len() == 0);
                    assert(batch_view(drained@) == pool0.queue_entries(q).take(kb));
                    assert(events_view(events@).len() == drained@.len());
                    assert forall|a: int| 0 <= a < events@.len() implies
                        #[trigger] events_view(events@)[a] == batch_view(drained@)[a] by {
                        assert(events@[a].timestamp == drained@[a].0);
                        assert(events@[a].data@ == drained@[a].1@);
                    }
                    assert(events_view(events@) =~= batch_view(drained@));
                }
                if crate::registry::keys_unique(qnames) {
                    let ii = i as int;
                    let r = bsize as int;
                    assert(pool_at.has_queue(nameview));
                    assert(pool0.has_queue(qnames[ii]));
                    assert(pool_at.queue_entries(nameview) == pool0.queue_entries(qnames[ii]));
                    let pre_drained = drained_events(pool0, qnames.take(ii), cut, r);
                    assert(event_triples(events0) == pre_drained);
                    assert(events0.len() == pre_drained.len());
                    let rem = r - pre_drained.len();
                    assert(rem == remaining);
                    let entries = pool0.queue_entries(qnames[ii]);
                    crate::temporal_queue::lemma_cutoff_range(entries, cut);
                    let kcut = cutoff(entries, cut);
                    let kb = if kcut <= remaining {
                        kcut
                    } else {
                        remaining as int
                    };
                    assert(kb == seg_take(entries, cut, rem));
                    assert(batch_view(drained@) == entries.take(kb));
                    lemma_drained_step(pool0, qnames, cut, r, ii);
                    assert(event_triples(events@).len() == events0.len() + drained@.len());
                    assert(drained@.len() == batch_view(drained@).len());
                    assert(drain_seg(pool0, qnames[ii], cut, rem).len() == kb);
                    assert forall|a: int| 0 <= a < events@.len() implies
                        #[trigger] event_triples(events@)[a] == drained_events(
                            pool0,
                            qnames.take(ii + 1),
                            cut,
                            r,
                        )[a] by {
                        if a < events0.len() {
                            assert(events@[a] == events0[a]);
                            assert(event_triples(events0)[a] == pre_drained[a]);
                        } else {
                            let b = a - events0.len();
                            assert(events@[a].timestamp == drained@[b].0);
                            assert(events@[a].data@ == drained@[b].1@);
                            assert(events@[a].queue_name@ == nameview);
                            assert(batch_view(drained@)[b] == (drained@[b].0, drained@[b].1@));
                            assert(entries.take(kb)[b] == entries[b]);
                            assert(drain_seg(pool0, qnames[ii], cut, rem)[b] == (
                                qnames[ii],
                                entries[b].0,
                                entries[b].1,
                            ));
                        }
                    }
                    assert(event_triples(events@) =~= drained_events(
                        pool0,
                        qnames.take(ii + 1),
                        cut,
                        r,
                    ));
                    if delete {
                        assert(pool.queue_entries(nameview) == pool_at.queue_entries(
                            nameview,
                        ).skip(kb));
                        assert forall|j: int| 0 <= j < ii + 1 && delete implies pool.queue_entries(
                            #[trigger] qnames[j],
                        ) == pool0.queue_entries(qnames[j]).skip(
                            seg_take(
                                pool0.queue_entries(qnames[j]),
                                cut,
                                r - drained_events(pool0, qnames.take(j), cut, r).len(),
                            ),
                        ) by {
                            if j < ii {
                                assert(qnames[j] != qnames[ii]);
                                assert(pool_at.has_queue(qnames[j]) == pool0.has_queue(
                                    qnames[j],
                                ));
                                assert(pool.has_queue(qnames[j]) == pool_at.has_queue(qnames[j]));
                                assert(pool.queue_entries(qnames[j]) == pool_at.queue_entries(
                                    qnames[j],
                                ));
                            }
                        }
                    }
                    assert forall|j: int|
                        ii + 1 <= j < n && pool0.has_queue(#[trigger] qnames[j]) implies
                        pool.queue_entries(qnames[j]) == pool0.queue_entries(qnames[j]) by {
                        assert(qnames[j] != qnames[ii]);
                        assert(pool_at.has_queue(qnames[j]) == pool0.has_queue(qnames[j]));
                        assert(pool.has_queue(qnames[j]) == pool_at.has_queue(qnames[j]));
                        assert(pool.queue_entries(qnames[j]) == pool_at.queue_entries(qnames[j]));
                        assert(pool_at.queue_entries(qnames[j]) == pool0.queue_entries(qnames[j]));
                    }
                }
            }
            i = i + 1;
        }
        proof {
            if qnames.len() == 1 && bsize > 0 {
                assert(i == 1);
            }
            if crate::registry::keys_unique(qnames) {
                let r = bsize as int;
                if i < n {
                    assert(events@.len() == bsize);
                    assert(event_triples(events@).len() == events@.len());
                    assert(drained_events(pool0, qnames.take(i as int), cut, r).len() >= r);
                    lemma_drained_stable(pool0, qnames, cut, r, i as int, n as int);
                }
                assert(qnames.take(n as int) =~= qnames);
                assert(event_triples(events@) == drained_events(pool0, qnames, cut, r));
                if delete {
                    assert forall|j: int|
                        0 <= j < n && pool0.has_queue(#[trigger] qnames[j]) implies
                        pool.queue_entries(qnames[j]) == pool0.queue_entries(qnames[j]).skip(
                            seg_take(
                                pool0.queue_entries(qnames[j]),
                                cut,
                                r - drained_events(pool0, qnames.take(j), cut, r).len(),
                            ),
                        ) by {
                        if j >= i {
                            lemma_drained_stable(pool0, qnames, cut, r, i as int, j);
                            assert(drained_events(pool0, qnames.take(j), cut, r).len() >= r);
                            assert(seg_take(
                                pool0.queue_entries(qnames[j]),
                                cut,
                                r - drained_events(pool0, qnames.take(j), cut, r).len(),
                            ) == 0);
                            assert(pool0.queue_entries(qnames[j]).skip(0) =~= pool0.queue_entries(
                                qnames[j],
                            ));
                        }
                    }
                }
            }
        }
        Ok(events)
    }
}

} // verus!