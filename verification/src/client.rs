//! Per-connection state: the identity, the receive buffer, and the
//! framing state machine that assembles length-prefixed frames from
//! the chunks the socket delivers, however the bytes are split.
//!
//! The ghost `history` records every byte ever fed to the entry; the
//! well-formedness invariant ties the executable state to it: the
//! frames emitted so far are exactly `frames_of(history)`, and the
//! buffer holds exactly the trailing partial frame.

use vstd::prelude::*;
use vstd::bytes::u64_from_le_bytes;
use crate::codec::MAX_PAYLOAD_LEN;
use crate::codec::declared_len;
use crate::codec::frames_of;
use crate::codec::lemma_partial_shape;
use crate::codec::lemma_stream_extend;
use crate::codec::partial_of;
use crate::codec::stream_ok;

verus! {

/// What one call to `Client::feed` produced.
#[derive(Debug, PartialEq, Eq)]
pub enum FeedOutcome {
    /// More bytes are needed before the current frame completes.
    Pending,
    /// A frame completed: its payload, header excluded.
    MessageComplete(Vec<u8>),
    /// The peer declared a payload longer than `MAX_PAYLOAD_LEN`
    /// (or the entry was already dead); the connection should be
    /// dropped by enqueueing a removal request.
    PayloadTooLarge,
}

/// Per-connection entry: identity, receive buffer, and how many of
/// its bytes are valid. The socket itself stays with the embedding
/// application, which reads from it and hands the bytes to `feed`.
pub struct Client {
    /// Unique handle assigned at accept time, never reused.
    pub id: u64,
    /// Receive buffer: sized for the eight-byte header until the
    /// header completes, then for the whole frame.
    pub buffer: Vec<u8>,
    /// Bytes currently valid in `buffer`.
    pub read_bytes: usize,
    /// Set when the peer declared an oversized payload; the entry
    /// then accepts no further bytes.
    pub dead: bool,
    /// Every byte ever fed to this entry, in arrival order.
    pub history: Ghost<Seq<u8>>,
    /// Every payload emitted by this entry, in arrival order.
    pub emitted: Ghost<Seq<Seq<u8>>>,
}

impl Client {
    /// The valid prefix of the receive buffer.
    pub open spec fn cur(self) -> Seq<u8> {
        self.buffer@.take(self.read_bytes as int)
    }

    /// How many more bytes the entry can take before the current
    /// phase (header or body) completes.
    pub open spec fn spec_wants(self) -> int {
        self.buffer@.len() - self.read_bytes
    }

    /// The state machine invariant: the buffer holds exactly the
    /// trailing partial frame of the byte history, and the emitted
    /// payloads are exactly the complete frames of that history.
    pub open spec fn wf(self) -> bool {
        self.dead || {
            &&& self.read_bytes < self.buffer@.len()
            &&& self.buffer@.len() >= 8
            &&& (self.read_bytes < 8 ==> self.buffer@.len() == 8)
            &&& (self.read_bytes >= 8 ==> {
                &&& declared_len(self.cur()) <= MAX_PAYLOAD_LEN
                &&& self.buffer@.len() == 8 + declared_len(self.cur())
            })
            &&& stream_ok(self.history@)
            &&& self.cur() == partial_of(self.history@)
            &&& self.emitted@ == frames_of(self.history@)
        }
    }

    /// A fresh entry: empty history, an eight-byte header buffer.
    pub fn new(id: u64) -> (c: Client)
        ensures
            c.wf(),
            !c.dead,
            c.id == id,
            c.history@ == Seq::<u8>::empty(),
            c.emitted@ == Seq::<Seq<u8>>::empty(),
            c.spec_wants() == 8,
    {
        let mut buffer: Vec<u8> = Vec::new();
        let mut i: usize = 0;
        while i < 8
            invariant
                i <= 8,
                buffer@.len() == i,
            decreases 8 - i,
        {
            buffer.push(0u8);
            i += 1;
        }
        let c = Client {
            id,
            buffer,
            read_bytes: 0,
            dead: false,
            history: Ghost(Seq::empty()),
            emitted: Ghost(Seq::empty()),
        };
        proof {
            assert(c.cur() =~= Seq::<u8>::empty());
            assert(partial_of(Seq::<u8>::empty()) =~= Seq::<u8>::empty());
            assert(frames_of(Seq::<u8>::empty()) =~= Seq::<Seq<u8>>::empty());
        }
        c
    }

    /// How many bytes the entry asks the application to read next:
    /// the rest of the header, or the rest of the declared payload.
    /// A read must never hand `feed` more than this.
    pub fn wants(&self) -> (r: usize)
        requires
            self.wf(),
            !self.dead,
        ensures
            r == self.spec_wants(),
            r > 0,
    {
        self.buffer.len() - self.read_bytes
    }

    /// Whether the entry refused further input (oversized payload).
    pub fn is_dead(&self) -> (r: bool)
        ensures
            r == self.dead,
    {
        self.dead
    }

    /// Relation between an entry before and after one `feed` call.
    pub open spec fn feed_post(pre: Client, post: Client, data: Seq<u8>, r: FeedOutcome) -> bool {
        &&& post.wf()
        &&& post.id == pre.id
        &&& (pre.dead ==> post == pre && r is PayloadTooLarge)
        &&& (!pre.dead ==> {
            &&& post.history@ == pre.history@ + data
            &&& (stream_ok(pre.history@ + data) ==> {
                &&& !post.dead
                &&& post.emitted@ == frames_of(post.history@)
                &&& match r {
                    FeedOutcome::Pending => post.emitted@ == pre.emitted@,
                    FeedOutcome::MessageComplete(m) => post.emitted@ == pre.emitted@.push(m@),
                    FeedOutcome::PayloadTooLarge => false,
                }
            })
            &&& (!stream_ok(pre.history@ + data) ==> {
                &&& post.dead
                &&& r is PayloadTooLarge
                &&& post.emitted@ == pre.emitted@
            })
        })
    }

    /// Feed bytes read from the socket into the entry. Exactly when
    /// the bytes complete a frame, the frame's payload is returned —
    /// so, over any sequence of calls, the payloads returned are
    /// `frames_of` of everything fed, regardless of how the stream
    /// was split across reads.
    pub fn feed(&mut self, data: &[u8]) -> (r: FeedOutcome)
        requires
            old(self).wf(),
            old(self).dead || data@.len() <= old(self).spec_wants(),
        ensures
            Self::feed_post(*old(self), *final(self), data@, r),
    {
        if self.dead {
            return FeedOutcome::PayloadTooLarge;
        }
        let ghost h = self.history@;
        let ghost p = partial_of(h);
        let ghost d = data@;
        proof {
            lemma_stream_extend(h, d);
            lemma_partial_shape(h);
        }
        let rb: usize = self.read_bytes;
        let len: usize = data.len();
        self.history = Ghost(h + d);

        // copy the chunk into the buffer at the valid prefix's end
        let blen0: usize = self.buffer.len();
        proof {
            assert(self.buffer@.len() == blen0);
        }
        let mut i: usize = 0;
        while i < len
            invariant
                i <= len,
                len == d.len(),
                rb == old(self).read_bytes,
                rb + len <= self.buffer@.len(),
                self.buffer@.len() <= usize::MAX,
                self.buffer@.len() == old(self).buffer@.len(),
                self.read_bytes == rb,
                self.id == old(self).id,
                !self.dead,
                self.history@ == h + d,
                self.emitted@ == old(self).emitted@,
                data@ == d,
                self.buffer@.take(rb as int) == old(self).buffer@.take(rb as int),
                self.buffer@.subrange(rb as int, rb + i) == d.take(i as int),
            decreases len - i,
        {
            let b: u8 = data[i];
            self.buffer.set(rb + i, b);
            proof {
                assert(self.buffer@.take(rb as int) =~= old(self).buffer@.take(rb as int));
                assert(self.buffer@.subrange(rb as int, rb + i + 1) =~= d.take(i + 1));
            }
            i += 1;
        }
        let new_count: usize = rb + len;
        proof {
            assert(self.buffer@.take(new_count as int) =~= self.buffer@.take(rb as int)
                + self.buffer@.subrange(rb as int, new_count as int));
            assert(self.buffer@.take(new_count as int) =~= p + d);
        }

        if new_count < 8 {
            // still inside the header
            self.read_bytes = new_count;
            proof {
                assert(partial_of(p + d) =~= p + d);
                assert(frames_of(self.history@) =~= frames_of(h) + frames_of(p + d));
                assert(frames_of(self.history@) =~= frames_of(h));
                assert(self.cur() =~= p + d);
            }
            FeedOutcome::Pending
        } else if rb < 8 {
            // the header has just completed: new_count == 8
            let n: u64 = u64_from_le_bytes(self.buffer.as_slice());
            proof {
                assert((p + d).take(8) =~= self.buffer@);
                assert(declared_len(p + d) == n);
            }
            if n > MAX_PAYLOAD_LEN {
                self.dead = true;
                proof {
                    assert(!stream_ok(p + d));
                }
                FeedOutcome::PayloadTooLarge
            } else if n == 0 {
                // a zero-length frame completes the instant its
                // header does: emit an empty payload and reset
                self.read_bytes = 0;
                self.emitted = Ghost(self.emitted@.push(Seq::empty()));
                proof {
                    assert((p + d).len() == 8);
                    assert(declared_len(p + d) == 0);
                    assert((p + d).subrange(8, 8) =~= Seq::<u8>::empty());
                    assert((p + d).skip(8) =~= Seq::<u8>::empty());
                    assert(frames_of(Seq::<u8>::empty()) =~= Seq::<Seq<u8>>::empty());
                    assert(partial_of(Seq::<u8>::empty()) =~= Seq::<u8>::empty());
                    assert(frames_of(p + d) =~= seq![(p + d).subrange(8, 8)] + frames_of(
                        (p + d).skip(8),
                    ));
                    assert(frames_of(p + d) =~= seq![Seq::<u8>::empty()]);
                    assert(partial_of(p + d) =~= partial_of((p + d).skip(8)));
                    assert(partial_of(p + d) =~= Seq::<u8>::empty());
                    assert(stream_ok(Seq::<u8>::empty()));
                    assert(stream_ok((p + d).skip(8)));
                    assert(stream_ok(p + d));
                    assert(frames_of(self.history@) =~= frames_of(h) + seq![Seq::<u8>::empty()]);
                    assert(self.emitted@ =~= frames_of(self.history@));
                    assert(self.cur() =~= Seq::<u8>::empty());
                }
                FeedOutcome::MessageComplete(Vec::new())
            } else {
                // grow the buffer to hold the declared payload
                let total: usize = 8 + (n as usize);
                self.buffer.resize(total, 0u8);
                self.read_bytes = 8;
                proof {
                    assert(self.buffer@.take(8) =~= p + d);
                    assert(self.cur() =~= p + d);
                    assert(partial_of(p + d) =~= p + d);
                    assert(stream_ok(p + d));
                    assert(frames_of(self.history@) =~= frames_of(h));
                    assert(declared_len(self.cur()) == n);
                }
                FeedOutcome::Pending
            }
        } else {
            // inside the body; the first eight buffer bytes are the
            // stable header, so the declared length is unchanged
            let ghost n: int = declared_len(p) as int;
            proof {
                assert((p + d).take(8) =~= p.take(8));
                assert(declared_len(p + d) == declared_len(p));
            }
            if new_count == self.buffer.len() {
                // the frame is complete: emit the payload bytes
                let blen: usize = self.buffer.len();
                let mut payload: Vec<u8> = Vec::new();
                let mut j: usize = 8;
                while j < blen
                    invariant
                        8 <= j <= blen,
                        blen == self.buffer@.len(),
                        payload@ == self.buffer@.subrange(8, j as int),
                    decreases blen - j,
                {
                    let b: u8 = self.buffer[j];
                    payload.push(b);
                    proof {
                        assert(payload@ =~= self.buffer@.subrange(8, j + 1));
                    }
                    j += 1;
                }
                proof {
                    assert(self.buffer@.take(new_count as int) =~= self.buffer@);
                    assert((p + d).len() == 8 + n);
                    assert(declared_len(p + d) == n);
                    assert(payload@ =~= (p + d).subrange(8, 8 + n));
                    assert((p + d).skip(8 + n) =~= Seq::<u8>::empty());
                    assert(frames_of(Seq::<u8>::empty()) =~= Seq::<Seq<u8>>::empty());
                    assert(partial_of(Seq::<u8>::empty()) =~= Seq::<u8>::empty());
                    assert(frames_of(p + d) =~= seq![(p + d).subrange(8, 8 + n)] + frames_of(
                        (p + d).skip(8 + n),
                    ));
                    assert(frames_of(p + d) =~= seq![payload@]);
                    assert(partial_of(p + d) =~= partial_of((p + d).skip(8 + n)));
                    assert(partial_of(p + d) =~= Seq::<u8>::empty());
                    assert(stream_ok(Seq::<u8>::empty()));
                    assert(stream_ok((p + d).skip(8 + n)));
                    assert(stream_ok(p + d));
                }
                self.buffer.truncate(8);
                self.read_bytes = 0;
                self.emitted = Ghost(self.emitted@.push(payload@));
                proof {
                    assert(frames_of(self.history@) =~= frames_of(h) + seq![payload@]);
                    assert(self.emitted@ =~= frames_of(self.history@));
                    assert(self.cur() =~= Seq::<u8>::empty());
                }
                FeedOutcome::MessageComplete(payload)
            } else {
                // the body is still partial
                self.read_bytes = new_count;
                proof {
                    assert(partial_of(p + d) =~= p + d);
                    assert(stream_ok(p + d));
                    assert(frames_of(p + d) =~= Seq::<Seq<u8>>::empty());
                    assert(frames_of(self.history@) =~= frames_of(h));
                    assert(self.cur() =~= p + d);
                    assert(self.cur().take(8) =~= p.take(8));
                    assert(declared_len(self.cur()) == declared_len(p));
                }
                FeedOutcome::Pending
            }
        }
    }
}

} // verus!
