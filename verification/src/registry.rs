//! The single source of truth for which downstream connections are
//! currently reachable: a map from connection identifier to outbound
//! sink, with point-in-time snapshots for broadcast fan-out.  The
//! transport alone creates and destroys connections; this registry only
//! tracks what it reports.  Callers serialize access through one lock
//! and deliver to the snapshot after releasing it, so one slow sink
//! never stalls registration.
use vstd::prelude::*;

verus! {

/// The registry of live downstream connections, in registration order.
/// `S` is the transport's outbound sink for one connection.
pub struct ConnectionRegistry<S> {
    entries: Vec<(i32, S)>,
}

impl<S> View for ConnectionRegistry<S> {
    type V = Seq<(i32, S)>;

    closed spec fn view(&self) -> Seq<(i32, S)> {
        self.entries@
    }
}

impl<S> ConnectionRegistry<S> {
    /// No two entries ever carry the same identifier.
    pub open spec fn wf(&self) -> bool {
        forall|i: int, j: int|
            0 <= i < j < self@.len() ==> (#[trigger] self@[i]).0 != (#[trigger] self@[j]).0
    }

    pub open spec fn spec_contains(&self, id: i32) -> bool {
        exists|i: int| 0 <= i < self@.len() && (#[trigger] self@[i]).0 == id
    }

    pub fn new() -> (r: Self)
        ensures
            r@ == Seq::<(i32, S)>::empty(),
            r.wf(),
    {
        ConnectionRegistry { entries: Vec::new() }
    }

    pub fn len(&self) -> (r: usize)
        ensures
            r == self@.len(),
    {
        self.entries.len()
    }

    /// Whether a connection with this identifier is registered.
    pub fn contains(&self, id: i32) -> (r: bool)
        ensures
            r == self.spec_contains(id),
    {
        let n = self.entries.len();
        let mut i: usize = 0;
        while i < n
            invariant
                0 <= i <= n == self@.len(),
                forall|t: int| 0 <= t < i ==> (#[trigger] self@[t]).0 != id,
            decreases n - i,
        {
            if self.entries[i].0 == id {
                return true;
            }
            i += 1;
        }
        false
    }

    /// Adds a new connection.  A duplicate identifier is a collaborator
    /// contract breach: nothing is overwritten and the call reports it.
    pub fn register(&mut self, id: i32, sink: S) -> (r: bool)
        requires
            old(self).wf(),
        ensures
            final(self).wf(),
            r == !old(self).spec_contains(id),
            r ==> final(self)@ == old(self)@.push((id, sink)),
            !r ==> final(self)@ == old(self)@,
    {
        if self.contains(id) {
            return false;
        }
        self.entries.push((id, sink));
        proof {
            assert(final(self)@ == old(self)@.push((id, sink)));
        }
        true
    }

    /// Removes the connection with this identifier; absent is a no-op.
    pub fn unregister(&mut self, id: i32)
        requires
            old(self).wf(),
        ensures
            final(self).wf(),
            !final(self).spec_contains(id),
            old(self).spec_contains(id) ==> exists|i: int|
                0 <= i < old(self)@.len() && (#[trigger] old(self)@[i]).0 == id && final(self)@
                    == old(self)@.remove(i),
            !old(self).spec_contains(id) ==> final(self)@ == old(self)@,
    {
        let n = self.entries.len();
        let mut i: usize = 0;
        while i < n
            invariant
                0 <= i <= n == self@.len(),
                self@ == old(self)@,
                old(self).wf(),
                forall|t: int| 0 <= t < i ==> (#[trigger] self@[t]).0 != id,
            decreases n - i,
        {
            if self.entries[i].0 == id {
                self.entries.remove(i);
                proof {
                    assert(final(self)@ == old(self)@.remove(i as int));
                    assert(!final(self).spec_contains(id)) by {
                        if final(self).spec_contains(id) {
                            let t = choose|t: int|
                                0 <= t < final(self)@.len() && (#[trigger] final(self)@[t]).0
                                    == id;
                            if t < i {
                                assert(old(self)@[t].0 == id);
                            } else {
                                assert(old(self)@[t + 1].0 == id);
                            }
                        }
                    }
                }
                return ;
            }
            i += 1;
        }
    }

    /// The point-in-time snapshot that a broadcast delivers to: every
    /// currently registered connection, and no other.  The caller sends
    /// the message to each target after releasing its lock; a failed
    /// send affects neither the registry nor the other targets.
    pub fn broadcast<'a>(&'a self) -> (r: Vec<(i32, &'a S)>)
        ensures
            r@.len() == self@.len(),
            forall|i: int|
                0 <= i < r@.len() ==> (#[trigger] r@[i]).0 == self@[i].0 && *r@[i].1 == self@[i].1,
    {
        let n = self.entries.len();
        let mut targets: Vec<(i32, &'a S)> = Vec::new();
        let mut i: usize = 0;
        while i < n
            invariant
                0 <= i <= n == self@.len(),
                targets@.len() == i,
                forall|t: int|
                    0 <= t < i ==> (#[trigger] targets@[t]).0 == self@[t].0 && *targets@[t].1
                        == self@[t].1,
            decreases n - i,
        {
            let entry = &self.entries[i];
            targets.push((entry.0, &entry.1));
            i += 1;
        }
        targets
    }

    /// The sink of one registered connection, for a direct reply;
    /// `None` when the identifier is no longer registered, in which
    /// case the reply is dropped.
    pub fn reply<'a>(&'a self, id: i32) -> (r: Option<&'a S>)
        requires
            self.wf(),
        ensures
            (r is Some) == self.spec_contains(id),
            r matches Some(s) ==> exists|i: int|
                0 <= i < self@.len() && #[trigger] self@[i] == (id, *s),
    {
        let n = self.entries.len();
        let mut i: usize = 0;
        while i < n
            invariant
                0 <= i <= n == self@.len(),
                forall|t: int| 0 <= t < i ==> (#[trigger] self@[t]).0 != id,
            decreases n - i,
        {
            let entry = &self.entries[i];
            if entry.0 == id {
                proof {
                    assert(self@[i as int] == (id, self@[i as int].1));
                }
                return Some(&entry.1);
            }
            i += 1;
        }
        None
    }
}

} // verus!
