//! The connection registry: the shared, ordered collection of live
//! connection entries — the single source of truth for who is
//! connected. Entries are appended by the accept path and removed
//! only by the control-channel drain, never during the read pass.
//! Lookup is a linear scan: client counts are expected to stay
//! small, a known scaling limit.

use vstd::prelude::*;
use crate::client::Client;
use crate::client::FeedOutcome;

verus! {

/// The registry plus the monotonic identity counter. One counter
/// serves both loop modes, so identities are never reused while the
/// server runs, even after removals.
pub struct Registry {
    /// Live entries, in accept order.
    pub entries: Vec<Client>,
    /// The next identity to assign.
    pub next_id: u64,
}

impl Registry {
    /// The identities of the live entries, in accept order.
    pub open spec fn ids(self) -> Seq<u64> {
        self.entries@.map_values(|c: Client| c.id)
    }

    /// Whether an entry with identity `id` is present.
    pub open spec fn spec_contains(self, id: u64) -> bool {
        exists|k: int| 0 <= k < self.entries@.len() && self.entries@[k].id == id
    }

    /// No two entries share an identity, every identity is below the
    /// counter, and every entry satisfies its own invariant.
    pub open spec fn wf(self) -> bool {
        &&& forall|k: int, l: int|
            0 <= k < self.entries@.len() && 0 <= l < self.entries@.len() && k != l
                ==> (#[trigger] self.entries@[k]).id != (#[trigger] self.entries@[l]).id
        &&& forall|k: int|
            0 <= k < self.entries@.len() ==> (#[trigger] self.entries@[k]).id < self.next_id
        &&& forall|k: int| 0 <= k < self.entries@.len() ==> (#[trigger] self.entries@[k]).wf()
    }

    /// An empty registry; identities start at zero.
    pub fn new() -> (r: Registry)
        ensures
            r.wf(),
            r.entries@.len() == 0,
            r.next_id == 0,
    {
        Registry { entries: Vec::new(), next_id: 0 }
    }

    /// Number of live entries.
    pub fn len(&self) -> (r: usize)
        ensures
            r == self.entries@.len(),
    {
        self.entries.len()
    }

    /// The accept step's registry half: allocate the next sequential
    /// identity and append a fresh entry for it. The new identity
    /// was never in the registry before.
    pub fn add_client(&mut self) -> (id: u64)
        requires
            old(self).wf(),
            old(self).next_id < u64::MAX,
        ensures
            final(self).wf(),
            id == old(self).next_id,
            final(self).next_id == old(self).next_id + 1,
            final(self).entries@.len() == old(self).entries@.len() + 1,
            final(self).entries@.subrange(0, old(self).entries@.len() as int) == old(self).entries@,
            final(self).entries@.last().id == id,
            final(self).entries@.last().history@ == Seq::<u8>::empty(),
            final(self).entries@.last().emitted@ == Seq::<Seq<u8>>::empty(),
            !final(self).entries@.last().dead,
            !old(self).spec_contains(id),
            forall|x: u64|
                final(self).spec_contains(x) <==> (old(self).spec_contains(x) || x == id),
    {
        let id: u64 = self.next_id;
        let c = Client::new(id);
        self.entries.push(c);
        self.next_id = self.next_id + 1;
        proof {
            let oldlen: int = old(self).entries@.len() as int;
            assert(self.entries@.subrange(0, oldlen) =~= old(self).entries@);
            assert(self.entries@[oldlen].id == id);
            assert(!old(self).spec_contains(id)) by {
                if old(self).spec_contains(id) {
                    let k: int = choose|k: int|
                        0 <= k < old(self).entries@.len() && old(self).entries@[k].id == id;
                    assert(old(self).entries@[k].id < old(self).next_id);
                }
            }
            assert forall|x: u64| old(self).spec_contains(x) implies self.spec_contains(x) by {
                let k: int = choose|k: int|
                    0 <= k < old(self).entries@.len() && old(self).entries@[k].id == x;
                assert(self.entries@[k].id == x);
            }
            assert forall|x: u64| self.spec_contains(x) && x != id implies old(self).spec_contains(
                x,
            ) by {
                let k: int = choose|k: int| 0 <= k < self.entries@.len() && self.entries@[k].id == x;
                assert(k <= oldlen);
                if k < oldlen {
                    assert(old(self).entries@[k].id == x);
                } else {
                    assert(self.entries@[k].id == id);
                }
            }
            assert(self.spec_contains(id));
        }
        id
    }

    /// The identity of the entry at position `i`.
    pub fn client_id(&self, i: usize) -> (r: u64)
        requires
            i < self.entries@.len(),
        ensures
            r == self.entries@[i as int].id,
    {
        self.entries[i].id
    }

    /// Whether the entry at position `i` refused further input.
    pub fn client_is_dead(&self, i: usize) -> (r: bool)
        requires
            i < self.entries@.len(),
        ensures
            r == self.entries@[i as int].dead,
    {
        self.entries[i].is_dead()
    }

    /// How many bytes the entry at position `i` can take next.
    pub fn client_wants(&self, i: usize) -> (r: usize)
        requires
            self.wf(),
            i < self.entries@.len(),
            !self.entries@[i as int].dead,
        ensures
            r == self.entries@[i as int].spec_wants(),
            r > 0,
    {
        self.entries[i].wants()
    }

    /// Linear scan for the entry with identity `id`; `None` exactly
    /// when no such entry is present.
    pub fn find_index(&self, id: u64) -> (r: Option<usize>)
        ensures
            match r {
                Some(i) => i < self.entries@.len() && self.entries@[i as int].id == id,
                None => !self.spec_contains(id),
            },
    {
        let mut i: usize = 0;
        let n: usize = self.entries.len();
        while i < n
            invariant
                i <= n,
                n == self.entries@.len(),
                forall|k: int| 0 <= k < i ==> self.entries@[k].id != id,
            decreases n - i,
        {
            if self.entries[i].id == id {
                return Some(i);
            }
            i += 1;
        }
        None
    }

    /// The read pass's per-entry step: hand freshly read bytes to
    /// the entry at position `i`. Every other entry is untouched, so
    /// one connection's bytes can never surface in another
    /// connection's frames.
    pub fn feed_client(&mut self, i: usize, data: &[u8]) -> (r: FeedOutcome)
        requires
            old(self).wf(),
            i < old(self).entries@.len(),
            old(self).entries@[i as int].dead || data@.len() <= old(self).entries@[
                i as int
            ].spec_wants(),
        ensures
            final(self).wf(),
            final(self).next_id == old(self).next_id,
            final(self).entries@.len() == old(self).entries@.len(),
            forall|j: int|
                0 <= j < old(self).entries@.len() && j != i ==> final(self).entries@[j] == old(self).entries@[j],
            Client::feed_post(old(self).entries@[i as int], final(self).entries@[i as int], data@, r),
            final(self).ids() == old(self).ids(),
    {
        proof {
            assert(old(self).entries@[i as int].wf());
        }
        let c = &mut self.entries[i];
        let r = c.feed(data);
        proof {
            assert(final(self).ids() =~= old(self).ids());
        }
        r
    }

    /// The drain path's registry half: delete the entry with
    /// identity `id`, if present; all other entries are untouched
    /// and keep their relative order.
    pub fn remove_client(&mut self, id: u64)
        requires
            old(self).wf(),
        ensures
            final(self).wf(),
            final(self).next_id == old(self).next_id,
            !final(self).spec_contains(id),
            forall|x: u64|
                x != id ==> (final(self).spec_contains(x) <==> old(self).spec_contains(x)),
            old(self).spec_contains(id) ==> exists|k: int|
                0 <= k < old(self).entries@.len() && old(self).entries@[k].id == id && final(self).entries@ == old(self).entries@.remove(k),
            !old(self).spec_contains(id) ==> final(self).entries@ == old(self).entries@,
            forall|j: int|
                0 <= j < final(self).entries@.len() ==> old(self).entries@.contains(
                    #[trigger] final(self).entries@[j],
                ),
    {
        let found = self.find_index(id);
        match found {
            Some(i) => {
                self.entries.remove(i);
                proof {
                    assert forall|j: int|
                        0 <= j < self.entries@.len() implies old(self).entries@.contains(
                        #[trigger] self.entries@[j],
                    ) by {
                        if j < i {
                            assert(self.entries@[j] == old(self).entries@[j]);
                        } else {
                            assert(self.entries@[j] == old(self).entries@[j + 1]);
                        }
                    }
                    assert forall|x: u64|
                        x != id implies (self.spec_contains(x) <==> old(self).spec_contains(
                        x,
                    )) by {
                        if old(self).spec_contains(x) {
                            let k: int = choose|k: int|
                                0 <= k < old(self).entries@.len() && old(self).entries@[k].id == x;
                            if k < i {
                                assert(self.entries@[k].id == x);
                            } else {
                                assert(k != i);
                                assert(self.entries@[k - 1].id == x);
                            }
                        }
                        if self.spec_contains(x) {
                            let k: int = choose|k: int|
                                0 <= k < self.entries@.len() && self.entries@[k].id == x;
                            if k < i {
                                assert(old(self).entries@[k].id == x);
                            } else {
                                assert(old(self).entries@[k + 1].id == x);
                            }
                        }
                    }
                    assert forall|k: int|
                        0 <= k < self.entries@.len() implies (#[trigger] self.entries@[k]).id
                        != id by {
                        if k < i {
                            assert(self.entries@[k] == old(self).entries@[k]);
                            assert(old(self).entries@[k].id != old(self).entries@[i as int].id);
                        } else {
                            assert(self.entries@[k] == old(self).entries@[k + 1]);
                            assert(old(self).entries@[k + 1].id != old(self).entries@[i as int].id);
                        }
                    }
                }
            },
            None => {},
        }
    }
}

} // verus!
