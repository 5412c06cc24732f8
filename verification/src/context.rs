//! A minimal registry of in-memory temporal queues, with no durable
//! backing: the lightweight context used where the full pool is not.

use vstd::prelude::*;
use crate::errors::{MoraError, MoraResult};
use crate::registry::{lemma_table_at_index, lemma_table_update, Registry};
use crate::temporal_queue::TemporalQueue;

verus! {

type Value = Vec<u8>;

/// The context: named temporal queues, nothing else.
pub struct MoraContext {
    temporal_queues: Registry<TemporalQueue<Value>>,
}

impl MoraContext {
    pub closed spec fn has_queue(&self, name: Seq<char>) -> bool {
        self.temporal_queues@.contains_key(name)
    }

    /// The queue table as a mapping; lookups and mutation through a
    /// borrowed queue are stated over it.
    pub closed spec fn queues_view(&self) -> Map<Seq<char>, TemporalQueue<Value>> {
        self.temporal_queues@
    }

    /// Well-formedness: a sound table of well-formed, unbounded queues.
    pub closed spec fn wf(&self) -> bool {
        &&& self.temporal_queues.wf()
        &&& forall|name: Seq<char>| #[trigger]
            self.temporal_queues@.contains_key(name) ==> self.temporal_queues@[name].wf()
                && self.temporal_queues@[name].spec_capacity() == u128::MAX
    }

    /// Drops every queue.
    pub fn clear(&mut self)
        ensures
            final(self).wf(),
            forall|name: Seq<char>| !final(self).has_queue(name),
    {
        let fresh: Registry<TemporalQueue<Value>> = Registry::new();
        self.temporal_queues = fresh;
        proof {
            assert(forall|name: Seq<char>| !self.temporal_queues@.contains_key(name));
        }
    }

    /// Adds an empty unbounded queue under a fresh name.
    pub fn add_queue(&mut self, queue_name: String) -> (r: MoraResult<()>)
        requires
            old(self).wf(),
        ensures
            final(self).wf(),
            match r {
                Ok(_) => {
                    &&& !old(self).has_queue(queue_name@)
                    &&& final(self).has_queue(queue_name@)
                    &&& final(self).queues_view()[queue_name@]@ == Seq::<(u128, Value)>::empty()
                    &&& final(self).queues_view()[queue_name@].spec_len() == 0
                },
                Err(e) => {
                    &&& old(self).has_queue(queue_name@)
                    &&& *final(self) == *old(self)
                    &&& e matches MoraError::QueueAlreadyExists(s) && s@ == queue_name@
                },
            },
            forall|name: Seq<char>|
                name != queue_name@ ==> {
                    &&& #[trigger] final(self).has_queue(name) == old(self).has_queue(name)
                    &&& (old(self).has_queue(name) ==> final(self).queues_view()[name] == old(
                        self,
                    ).queues_view()[name])
                },
    {
        if self.temporal_queues.contains(&queue_name) {
            return Err(MoraError::QueueAlreadyExists(queue_name));
        }
        let q: TemporalQueue<Value> = TemporalQueue::default();
        self.temporal_queues.insert(queue_name, q);
        Ok(())
    }

    /// A mutable borrow of one queue exactly when the name was added and
    /// not cleared since; the lookup neither creates nor removes queues.
    #[verifier::rlimit(100)]
    #[verifier::spinoff_prover]
    pub fn get_queue(&mut self, queue_name: &str) -> (r: Option<&mut TemporalQueue<Value>>)
        requires
            old(self).wf(),
        ensures
            match r {
                Some(q) => {
                    &&& old(self).has_queue(queue_name@)
                    &&& q.wf()
                    &&& q.spec_capacity() == u128::MAX
                    &&& *q == old(self).queues_view()[queue_name@]
                    &&& final(self).has_queue(queue_name@)
                    &&& forall|name: Seq<char>| #[trigger]
                        final(self).has_queue(name) == old(self).has_queue(name)
                    &&& final(self).queues_view() == old(self).queues_view().insert(
                        queue_name@,
                        *final(q),
                    )
                    &&& (final(q).wf() && final(q).spec_capacity() == u128::MAX
                        ==> final(self).wf())
                },
                None => !old(self).has_queue(queue_name@) && *final(self) == *old(self),
            },
    {
        let key = queue_name.to_owned();
        let ghost pre = *self;
        match self.temporal_queues.get_mut(&key) {
            Some(q) => {
                proof {
                    let i = choose|i: int|
                        0 <= i < pre.temporal_queues.keys_seq().len()
                            && #[trigger] pre.temporal_queues.keys_seq()[i] == key@ && *q
                            == pre.temporal_queues.values_seq()[i];
                    lemma_table_at_index(
                        pre.temporal_queues.keys_seq(),
                        pre.temporal_queues.values_seq(),
                        i,
                    );
                    lemma_table_update(
                        pre.temporal_queues.keys_seq(),
                        pre.temporal_queues.values_seq(),
                        i,
                        *final(q),
                    );
                }
                Some(q)
            },
            None => None,
        }
    }
}

impl Default for MoraContext {
    /// A context with no queues.
    fn default() -> (r: Self)
        ensures
            r.wf(),
            forall|name: Seq<char>| !r.has_queue(name),
    {
        let r = MoraContext { temporal_queues: Registry::new() };
        proof {
            assert(forall|name: Seq<char>| !r.temporal_queues@.contains_key(name));
        }
        r
    }
}

} // verus!
