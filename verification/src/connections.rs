//! The connection registry behind the `connections_info` surface: which
//! clients spoke recently, purged after a fixed quiet period.

use vstd::prelude::*;
use vstd::string::StringExecFns;
use crate::registry::Registry;

verus! {

pub type ConnectionId = String;

/// Milliseconds of silence after which a client is considered gone.
pub const CONNECTION_TIMEOUT_IN_MSEC: i64 = 5000;

/// One connected client: its address and when it last spoke, in
/// milliseconds of Unix time.
pub struct Client {
    ip: String,
    last_activity: i64,
}

impl Client {
    pub closed spec fn spec_last_activity(&self) -> i64 {
        self.last_activity
    }
}

/// The registry of connected clients, keyed by `id-ip`.
pub struct Connections {
    clients: Registry<Client>,
}

impl Connections {
    pub closed spec fn wf(&self) -> bool {
        self.clients.wf()
    }

    pub closed spec fn spec_clients(&self) -> Map<Seq<char>, Client> {
        self.clients@
    }

    pub closed spec fn client_count(&self) -> nat {
        self.clients.keys_seq().len()
    }

    /// How many clients are currently known.
    pub fn clients_connected(&self) -> (r: usize)
        ensures
            r == self.client_count(),
    {
        self.clients.len()
    }

    /// Records activity from a client at the given time; a client already
    /// known under the same `id-ip` key is refreshed in place.
    pub fn add_client(&mut self, id: String, ip: String, now_ms: i64)
        requires
            old(self).wf(),
        ensures
            final(self).wf(),
            ({
                let key = id@ + "-"@ + ip@;
                &&& final(self).spec_clients().contains_key(key)
                &&& final(self).spec_clients()[key].spec_last_activity() == now_ms
                &&& forall|k: Seq<char>|
                    k != key ==> {
                        &&& #[trigger] final(self).spec_clients().contains_key(k)
                            == old(self).spec_clients().contains_key(k)
                        &&& (old(self).spec_clients().contains_key(k)
                            ==> final(self).spec_clients()[k] == old(self).spec_clients()[k])
                    }
            }),
    {
        let mut key = id;
        key.append("-");
        key.append(ip.as_str());
        let client = Client { ip, last_activity: now_ms };
        self.clients.insert(key, client);
    }

    /// Forgets every client whose last activity is older than the timeout
    /// before the given time.
    pub fn purge_old_connections(&mut self, now_ms: i64)
        requires
            old(self).wf(),
        ensures
            final(self).wf(),
            forall|k: Seq<char>| #[trigger]
                final(self).spec_clients().contains_key(k)
                    == (old(self).spec_clients().contains_key(k)
                        && old(self).spec_clients()[k].spec_last_activity()
                            > now_ms - CONNECTION_TIMEOUT_IN_MSEC),
            forall|k: Seq<char>| #[trigger]
                final(self).spec_clients().contains_key(k)
                    ==> final(self).spec_clients()[k].spec_last_activity()
                        == old(self).spec_clients()[k].spec_last_activity(),
    {
        let n = self.clients.len();
        let mut kept: Registry<Client> = Registry::new();
        let mut i: usize = 0;
        while i < n
            invariant
                old(self).wf(),
                *self == *old(self),
                n == self.clients.keys_seq().len(),
                0 <= i <= n,
                kept.wf(),
                forall|k: Seq<char>| #[trigger] kept@.contains_key(k) ==> {
                    &&& exists|j: int| 0 <= j < i && self.clients.keys_seq()[j] == k
                    &&& self.clients@.contains_key(k)
                    &&& self.clients@[k].spec_last_activity() > now_ms - CONNECTION_TIMEOUT_IN_MSEC
                    &&& kept@[k].spec_last_activity() == self.clients@[k].spec_last_activity()
                },
                forall|j: int|
                    0 <= j < i ==> {
                        let k = #[trigger] self.clients.keys_seq()[j];
                        kept@.contains_key(k) == (self.clients@[k].spec_last_activity() > now_ms
                            - CONNECTION_TIMEOUT_IN_MSEC)
                    },
            decreases n - i,
        {
            proof {
                crate::registry::lemma_table_at_index(
                    self.clients.keys_seq(),
                    self.clients.values_seq(),
                    i as int,
                );
            }
            let ghost k = self.clients.keys_seq()[i as int];
            let c = self.clients.value_at(i);
            let keep = (c.last_activity as i128)
                > (now_ms as i128) - (CONNECTION_TIMEOUT_IN_MSEC as i128);
            if keep {
                proof {
                    if kept@.contains_key(k) {
                        let j = choose|j: int| 0 <= j < i && self.clients.keys_seq()[j] == k;
                        assert(false);
                    }
                }
                let c2 = Client { ip: c.ip.clone(), last_activity: c.last_activity };
                kept.insert(self.clients.key_at(i).clone(), c2);
            }
            i = i + 1;
        }
        self.clients = kept;
        proof {
            assert forall|k: Seq<char>| #[trigger]
                self.clients@.contains_key(k)
                    == (old(self).clients@.contains_key(k)
                        && old(self).clients@[k].spec_last_activity()
                            > now_ms - CONNECTION_TIMEOUT_IN_MSEC) by {
                if old(self).clients@.contains_key(k) {
                    let w = choose|w: int|
                        0 <= w < old(self).clients.keys_seq().len() && old(
                            self,
                        ).clients.keys_seq()[w] == k;
                }
            }
        }
    }
}

impl Default for Connections {
    /// A registry with no clients.
    fn default() -> (r: Self)
        ensures
            r.wf(),
            r.client_count() == 0,
    {
        Connections { clients: Registry::new() }
    }
}

} // verus!
