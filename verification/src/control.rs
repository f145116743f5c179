//! The control channel: a mailbox of deferred removal requests.
//! The read pass detects a disconnect while it is iterating the
//! registry, so it must not delete the entry on the spot; it
//! enqueues a request here instead, and the drain step at the end
//! of the tick applies every pending request under exclusive
//! access.

use vstd::prelude::*;
use crate::custom_types::ChannelDataType;
use crate::registry::Registry;

verus! {

/// Whether `q` holds a removal request for identity `id`.
pub open spec fn removal_requested(q: Seq<ChannelDataType>, id: u64) -> bool {
    exists|k: int| 0 <= k < q.len() && q[k] == ChannelDataType::RemoveClient(id)
}

/// The pending control messages, oldest first.
pub struct ControlQueue {
    pub pending: Vec<ChannelDataType>,
}

impl ControlQueue {
    /// An empty mailbox.
    pub fn new() -> (q: ControlQueue)
        ensures
            q.pending@.len() == 0,
    {
        ControlQueue { pending: Vec::new() }
    }

    /// Enqueue a control message.
    pub fn push(&mut self, msg: ChannelDataType)
        ensures
            final(self).pending@ == old(self).pending@.push(msg),
    {
        self.pending.push(msg);
    }

    /// Request that the connection with identity `id` be removed at
    /// the next drain.
    pub fn request_removal(&mut self, id: u64)
        ensures
            final(self).pending@ == old(self).pending@.push(ChannelDataType::RemoveClient(id)),
            removal_requested(final(self).pending@, id),
    {
        self.pending.push(ChannelDataType::RemoveClient(id));
        proof {
            assert(self.pending@[self.pending@.len() - 1] == ChannelDataType::RemoveClient(id));
        }
    }

    /// Drain the mailbox: apply every pending removal request to the
    /// registry, then clear the mailbox. After one drain, every
    /// identity for which a removal was requested is absent from the
    /// registry; every other identity's membership is unchanged, and
    /// the entries that stay are exactly the entries they were.
    /// Messages other than removal requests carry no registry
    /// effect and are discarded.
    pub fn drain(&mut self, registry: &mut Registry)
        requires
            old(registry).wf(),
        ensures
            final(self).pending@.len() == 0,
            final(registry).wf(),
            final(registry).next_id == old(registry).next_id,
            forall|id: u64|
                removal_requested(old(self).pending@, id) ==> !final(registry).spec_contains(id),
            forall|id: u64|
                !removal_requested(old(self).pending@, id) ==> (final(registry).spec_contains(id)
                    <==> old(registry).spec_contains(id)),
            forall|j: int|
                0 <= j < final(registry).entries@.len() ==> old(registry).entries@.contains(
                    #[trigger] final(registry).entries@[j],
                ),
    {
        let ghost q = self.pending@;
        let n: usize = self.pending.len();
        let mut idx: usize = 0;
        while idx < n
            invariant
                idx <= n,
                old(registry).wf(),
                registry.wf(),
                registry.next_id == old(registry).next_id,
                self.pending@ == q,
                n == q.len(),
                forall|id: u64|
                    removal_requested(q.take(idx as int), id) ==> !registry.spec_contains(id),
                forall|id: u64|
                    !removal_requested(q.take(idx as int), id) ==> (registry.spec_contains(id)
                        <==> old(registry).spec_contains(id)),
                forall|j: int|
                    0 <= j < registry.entries@.len() ==> old(registry).entries@.contains(
                        #[trigger] registry.entries@[j],
                    ),
            decreases n - idx,
        {
            let ghost taken = q.take(idx as int);
            let ghost taken1 = q.take(idx as int + 1);
            proof {
                assert(taken1 =~= taken.push(q[idx as int]));
            }
            let msg = &self.pending[idx];
            match msg {
                ChannelDataType::RemoveClient(id) => {
                    let ghost pre = *registry;
                    registry.remove_client(*id);
                    proof {
                        assert forall|x: u64| removal_requested(taken1, x) implies !registry
                            .spec_contains(x) by {
                            if x == *id {
                            } else {
                                let k: int = choose|k: int|
                                    0 <= k < taken1.len() && taken1[k]
                                        == ChannelDataType::RemoveClient(x);
                                assert(taken[k] == ChannelDataType::RemoveClient(x));
                                assert(!pre.spec_contains(x));
                            }
                        }
                        assert forall|x: u64| !removal_requested(taken1, x) implies (registry
                            .spec_contains(x) <==> old(registry).spec_contains(x)) by {
                            assert(taken1[taken.len() as int] == ChannelDataType::RemoveClient(
                                *id,
                            ));
                            assert(x != *id);
                            assert forall|k: int|
                                0 <= k < taken.len() implies taken[k]
                                    != ChannelDataType::RemoveClient(x) by {
                                assert(taken1[k] == taken[k]);
                            }
                        }
                        assert forall|j: int|
                            0 <= j < registry.entries@.len() implies old(
                            registry,
                        ).entries@.contains(#[trigger] registry.entries@[j]) by {
                            assert(pre.entries@.contains(registry.entries@[j]));
                            let k: int = choose|k: int|
                                0 <= k < pre.entries@.len() && pre.entries@[k] == registry
                                    .entries@[j];
                            assert(old(registry).entries@.contains(pre.entries@[k]));
                        }
                    }
                },
                ChannelDataType::Other => {
                    proof {
                        assert forall|x: u64| removal_requested(taken1, x) implies
                            removal_requested(taken, x) by {
                            let k: int = choose|k: int|
                                0 <= k < taken1.len() && taken1[k] == ChannelDataType::RemoveClient(
                                    x,
                                );
                            assert(k < taken.len());
                            assert(taken[k] == ChannelDataType::RemoveClient(x));
                        }
                        assert forall|x: u64| removal_requested(taken, x) implies
                            removal_requested(taken1, x) by {
                            let k: int = choose|k: int|
                                0 <= k < taken.len() && taken[k] == ChannelDataType::RemoveClient(
                                    x,
                                );
                            assert(taken1[k] == ChannelDataType::RemoveClient(x));
                        }
                    }
                },
            }
            idx += 1;
        }
        proof {
            assert(q.take(n as int) =~= q);
        }
        self.pending.clear();
    }
}

} // verus!
