//! The verified half of `send`: building the length-prefixed frame
//! for a payload and tracking how much of it the transport has
//! accepted. The write is split into a header phase and a body
//! phase; the body never starts before the header is fully written,
//! so whatever partial writes the transport imposes, the bytes it
//! receives are always a prefix of `header ++ payload`.

use vstd::prelude::*;
use vstd::bytes::spec_u64_to_le_bytes;
use vstd::bytes::u64_to_le_bytes;
use vstd::slice::slice_subrange;
use crate::registry::Registry;

verus! {

/// An in-progress frame write: the encoded header, the payload, and
/// how many bytes of each the transport has accepted so far.
pub struct SendBuffer {
    /// The eight-byte little-endian encoding of the payload length.
    pub header: Vec<u8>,
    /// The payload.
    pub body: Vec<u8>,
    /// Header bytes accepted by the transport.
    pub header_written: usize,
    /// Payload bytes accepted by the transport.
    pub body_written: usize,
}

impl SendBuffer {
    /// The full wire image of the frame: header, then payload.
    pub open spec fn wire(self) -> Seq<u8> {
        self.header@ + self.body@
    }

    /// The bytes handed to the transport so far, in order.
    pub open spec fn sent(self) -> Seq<u8> {
        self.header@.take(self.header_written as int) + self.body@.take(
            self.body_written as int,
        )
    }

    /// The header is the encoded payload length, and the body phase
    /// never starts before the header phase has completed.
    pub open spec fn wf(self) -> bool {
        &&& self.body@.len() <= u64::MAX
        &&& self.header@ == spec_u64_to_le_bytes(self.body@.len() as u64)
        &&& self.header@.len() == 8
        &&& self.header_written <= 8
        &&& self.body_written <= self.body@.len()
        &&& (self.body_written > 0 ==> self.header_written == 8)
    }

    /// The bytes still owed to the transport in the current phase.
    pub open spec fn remaining(self) -> Seq<u8> {
        if self.header_written < 8 {
            self.header@.skip(self.header_written as int)
        } else {
            self.body@.skip(self.body_written as int)
        }
    }

    /// Frame a payload: encode its length as the header; nothing is
    /// written yet.
    pub fn new(payload: &[u8]) -> (s: SendBuffer)
        ensures
            s.wf(),
            s.body@ == payload@,
            s.header_written == 0,
            s.body_written == 0,
            s.sent() == Seq::<u8>::empty(),
            s.wire() == spec_u64_to_le_bytes(payload@.len() as u64) + payload@,
    {
        let len64: u64 = payload.len() as u64;
        let header = u64_to_le_bytes(len64);
        let mut body: Vec<u8> = Vec::new();
        let n: usize = payload.len();
        let mut i: usize = 0;
        while i < n
            invariant
                i <= n,
                n == payload@.len(),
                body@ == payload@.take(i as int),
            decreases n - i,
        {
            let b: u8 = payload[i];
            body.push(b);
            proof {
                assert(body@ =~= payload@.take(i + 1));
            }
            i += 1;
        }
        proof {
            assert(body@ =~= payload@);
        }
        let s = SendBuffer { header, body, header_written: 0, body_written: 0 };
        proof {
            assert(s.sent() =~= Seq::<u8>::empty());
        }
        s
    }

    /// Whether the whole frame has been handed to the transport.
    pub fn done(&self) -> (r: bool)
        requires
            self.wf(),
        ensures
            r <==> self.sent() == self.wire(),
            r ==> self.sent().len() == 8 + self.body@.len(),
    {
        let r: bool = self.header_written == 8 && self.body_written == self.body.len();
        proof {
            if r {
                assert(self.header@.take(8) =~= self.header@);
                assert(self.body@.take(self.body@.len() as int) =~= self.body@);
                assert(self.sent() =~= self.wire());
            } else {
                assert(self.sent().len() < self.wire().len());
            }
        }
        r
    }

    /// The slice the transport should be offered next: the rest of
    /// the header while the header phase lasts, then the rest of
    /// the payload.
    pub fn next_chunk(&self) -> (r: &[u8])
        requires
            self.wf(),
            self.sent() != self.wire(),
        ensures
            r@ == self.remaining(),
            r@.len() > 0,
    {
        proof {
            if self.header_written == 8 && self.body_written == self.body@.len() {
                assert(self.header@.take(8) =~= self.header@);
                assert(self.body@.take(self.body@.len() as int) =~= self.body@);
                assert(self.sent() =~= self.wire());
            }
        }
        if self.header_written < 8 {
            slice_subrange(self.header.as_slice(), self.header_written, 8)
        } else {
            slice_subrange(self.body.as_slice(), self.body_written, self.body.len())
        }
    }

    /// Record that the transport accepted `n` more bytes of the
    /// current phase. What has been sent grows by exactly those
    /// bytes and stays a prefix of the wire image.
    pub fn advance(&mut self, n: usize)
        requires
            old(self).wf(),
            n <= old(self).remaining().len(),
        ensures
            final(self).wf(),
            final(self).wire() == old(self).wire(),
            final(self).body@ == old(self).body@,
            final(self).sent() == old(self).sent() + old(self).remaining().take(n as int),
    {
        if self.header_written < 8 {
            self.header_written = self.header_written + n;
            proof {
                assert(old(self).body_written == 0);
                assert(self.header@.take(self.header_written as int) =~= self.header@.take(
                    old(self).header_written as int,
                ) + old(self).remaining().take(n as int));
                assert(self.sent() =~= old(self).sent() + old(self).remaining().take(n as int));
            }
        } else {
            let bl: usize = self.body.len();
            proof {
                assert(self.body@.len() == bl);
            }
            self.body_written = self.body_written + n;
            proof {
                assert(self.body@.take(self.body_written as int) =~= self.body@.take(
                    old(self).body_written as int,
                ) + old(self).remaining().take(n as int));
                assert(self.sent() =~= old(self).sent() + old(self).remaining().take(n as int));
            }
        }
    }
}

/// The bytes handed to the transport are always a prefix of the
/// frame's wire image — the header fully precedes the body — and
/// the wire image is exactly `8 + payload.len()` bytes long.
pub proof fn lemma_sent_prefix_of_wire(s: SendBuffer)
    requires
        s.wf(),
    ensures
        s.sent() == s.wire().take(s.sent().len() as int),
        s.wire().len() == 8 + s.body@.len(),
{
    if s.body_written == 0 {
        assert(s.sent() =~= s.header@.take(s.header_written as int));
        assert(s.sent() =~= s.wire().take(s.header_written as int));
    } else {
        assert(s.sent() =~= s.wire().take(8 + s.body_written));
    }
}

/// The verified core of `send`: look the connection up by identity
/// and frame the payload. Returns the framed write exactly when the
/// identity is present; an absent identity — in particular, one
/// already removed by a drain — yields `None`, the "unknown client"
/// failure.
pub fn prepare_send(registry: &Registry, id: u64, payload: &[u8]) -> (r: Option<SendBuffer>)
    ensures
        r is Some <==> registry.spec_contains(id),
        match r {
            Some(s) => {
                &&& s.wf()
                &&& s.body@ == payload@
                &&& s.header_written == 0
                &&& s.body_written == 0
                &&& s.wire() == spec_u64_to_le_bytes(payload@.len() as u64) + payload@
            },
            None => !registry.spec_contains(id),
        },
{
    match registry.find_index(id) {
        Some(i) => {
            proof {
                assert(registry.entries@[i as int].id == id);
            }
            Some(SendBuffer::new(payload))
        },
        None => None,
    }
}

} // verus!
