//! The hub of live viewer connections: a registry from connection id to an
//! outbound channel, with unicast and broadcast delivery. Ids are handed
//! out once per process run and never reused, so a registered id is unique;
//! delivery is best effort and a gone viewer never disturbs the others.
use vstd::prelude::*;
use tokio::sync::mpsc::UnboundedSender;

verus! {

#[verifier::external_type_specification]
#[verifier::external_body]
#[verifier::reject_recursive_types(T)]
pub struct ExUnboundedSender<T>(UnboundedSender<T>);

/// Relies on `tokio::sync::mpsc::UnboundedSender::send`: queues the message
/// unless the receiving half is gone; the result reports which.
#[verifier::external_body]
fn channel_send(tx: &UnboundedSender<String>, msg: String) -> (delivered: bool) {
    tx.send(msg).is_ok()
}

struct HubEntry {
    id: u64,
    tx: UnboundedSender<String>,
}

/// The registry of live viewer connections.
pub struct ConnectionHub {
    entries: Vec<HubEntry>,
}

impl ConnectionHub {
    /// The registered connection ids, in registration order.
    pub closed spec fn ids(&self) -> Seq<u64> {
        self.entries@.map_values(|e: HubEntry| e.id)
    }

    /// No id is registered twice: ids are never reused within a process
    /// run, and an entry is removed exactly once, on disconnect.
    pub open spec fn wf(&self) -> bool {
        forall|i: int, j: int|
            0 <= i < j < self.ids().len() ==> self.ids()[i] != self.ids()[j]
    }

    pub open spec fn has_id(&self, id: u64) -> bool {
        self.ids().contains(id)
    }

    /// An empty hub.
    pub fn new() -> (r: ConnectionHub)
        ensures
            r.ids() == Seq::<u64>::empty(),
            r.wf(),
    {
        let r = ConnectionHub { entries: Vec::new() };
        proof {
            assert(r.ids() =~= Seq::<u64>::empty());
        }
        r
    }

    pub fn len(&self) -> (n: usize)
        ensures
            n == self.ids().len(),
    {
        self.entries.len()
    }

    /// Whether `id` is currently registered.
    pub fn contains(&self, id: u64) -> (r: bool)
        ensures
            r == self.has_id(id),
    {
        let mut i: usize = 0;
        while i < self.entries.len()
            invariant
                0 <= i <= self.entries@.len(),
                forall|j: int| 0 <= j < i ==> self.ids()[j] != id,
            decreases self.entries@.len() - i,
        {
            if self.entries[i].id == id {
                proof {
                    assert(self.ids()[i as int] == id);
                }
                return true;
            }
            i += 1;
        }
        proof {
            assert(forall|j: int| 0 <= j < self.ids().len() ==> self.ids()[j] != id);
        }
        false
    }

    /// Registers a fresh connection under its channel. The id is new by
    /// construction: the caller allocates ids from a counter that never
    /// repeats one.
    pub fn register(&mut self, id: u64, tx: UnboundedSender<String>)
        requires
            old(self).wf(),
            !old(self).has_id(id),
        ensures
            final(self).ids() == old(self).ids().push(id),
            final(self).wf(),
    {
        self.entries.push(HubEntry { id, tx });
        proof {
            assert(self.ids() =~= old(self).ids().push(id));
            assert forall|i: int, j: int|
                0 <= i < j < self.ids().len() implies self.ids()[i] != self.ids()[j] by {
                if j < self.ids().len() - 1 {
                    assert(old(self).ids()[i] != old(self).ids()[j]);
                } else {
                    assert(old(self).ids().contains(old(self).ids()[i]));
                }
            }
        }
    }

    /// Removes a connection; absent ids are a no-op, so a disconnect
    /// observed twice cannot disturb anyone else.
    pub fn unregister(&mut self, id: u64)
        requires
            old(self).wf(),
        ensures
            final(self).ids() == old(self).ids().remove_value(id),
            final(self).wf(),
            !final(self).has_id(id),
    {
        let ghost old_ids = old(self).ids();
        let n = self.entries.len();
        let mut i: usize = 0;
        while i < n
            invariant
                0 <= i <= n,
                n == self.entries@.len(),
                self == old(self),
                old_ids == old(self).ids(),
                old(self).wf(),
                forall|j: int| 0 <= j < i ==> self.ids()[j] != id,
            decreases n - i,
        {
            if self.entries[i].id == id {
                proof {
                    assert(self.ids()[i as int] == id);
                    assert(self.ids().contains(id));
                    self.ids().index_of_first_ensures(id);
                    assert(self.ids().index_of_first(id) == Some(i as int));
                }
                self.entries.remove(i);
                proof {
                    assert(self.ids() =~= old_ids.remove(i as int));
                    assert(old_ids.remove_value(id) == old_ids.remove(i as int));
                    assert forall|a: int, b: int|
                        0 <= a < b < self.ids().len() implies self.ids()[a] != self.ids()[b] by {
                        let a0 = if a < i as int {
                            a
                        } else {
                            a + 1
                        };
                        let b0 = if b < i as int {
                            b
                        } else {
                            b + 1
                        };
                        assert(old_ids[a0] != old_ids[b0]);
                    }
                    assert forall|j: int|
                        0 <= j < self.ids().len() implies self.ids()[j] != id by {
                        let j0 = if j < i as int {
                            j
                        } else {
                            j + 1
                        };
                        assert(self.ids()[j] == old_ids[j0]);
                        if j0 != i as int {
                            assert(old_ids[i as int] == id);
                            assert(old_ids[j0] != old_ids[i as int]);
                        }
                    }
                    assert(!self.ids().contains(id));
                }
                return ;
            }
            i += 1;
        }
        proof {
            assert(forall|j: int| 0 <= j < self.ids().len() ==> self.ids()[j] != id);
            assert(!self.ids().contains(id));
            self.ids().index_of_first_ensures(id);
            assert(self.ids().remove_value(id) == self.ids());
        }
    }

    /// Delivers to one connection: reports whether the id was registered,
    /// with delivery itself best effort — a gone peer is not an error.
    pub fn unicast(&self, id: u64, msg: &str) -> (found: bool)
        ensures
            found == self.has_id(id),
    {
        let mut i: usize = 0;
        while i < self.entries.len()
            invariant
                0 <= i <= self.entries@.len(),
                forall|j: int| 0 <= j < i ==> self.ids()[j] != id,
            decreases self.entries@.len() - i,
        {
            if self.entries[i].id == id {
                proof {
                    assert(self.ids()[i as int] == id);
                }
                let _ = channel_send(&self.entries[i].tx, msg.to_owned());
                return true;
            }
            i += 1;
        }
        proof {
            assert(forall|j: int| 0 <= j < self.ids().len() ==> self.ids()[j] != id);
        }
        false
    }

    /// Delivers to every registered connection; a failed recipient is
    /// skipped and the rest still receive. Returns how many deliveries the
    /// channels accepted.
    pub fn broadcast(&self, msg: &str) -> (accepted: usize)
        ensures
            accepted <= self.ids().len(),
    {
        let mut accepted: usize = 0;
        let mut i: usize = 0;
        while i < self.entries.len()
            invariant
                0 <= i <= self.entries@.len(),
                accepted <= i,
            decreases self.entries@.len() - i,
        {
            if channel_send(&self.entries[i].tx, msg.to_owned()) {
                accepted += 1;
            }
            i += 1;
        }
        accepted
    }
}

} // verus!
