//! The wire format: every message is an eight-byte little-endian
//! unsigned length followed by exactly that many payload bytes.
//! These spec functions are the single source of truth for what a
//! byte stream means; the connection state machine and the sender
//! are both proved against them.

use vstd::prelude::*;
use vstd::bytes::lemma_auto_spec_u64_to_from_le_bytes;
use vstd::bytes::spec_u64_from_le_bytes;
use vstd::bytes::spec_u64_to_le_bytes;

verus! {

/// Number of bytes in the length header that precedes every frame.
pub const HEADER_SIZE: usize = 8;

/// Upper bound on the payload length a peer may declare. A header
/// declaring more is a protocol error and the connection is dropped,
/// so a misbehaving peer cannot force an unbounded allocation.
pub const MAX_PAYLOAD_LEN: u64 = 0x0100_0000;

/// The payload length declared by the first eight bytes of `s`.
pub open spec fn declared_len(s: Seq<u8>) -> nat
    recommends
        s.len() >= 8,
{
    spec_u64_from_le_bytes(s.take(8)) as nat
}

/// The complete frames carried by the byte stream `s`, in arrival
/// order; trailing bytes of an incomplete frame yield nothing.
pub open spec fn frames_of(s: Seq<u8>) -> Seq<Seq<u8>>
    decreases s.len(),
{
    if s.len() < 8 {
        Seq::empty()
    } else {
        let n = declared_len(s) as int;
        if s.len() < 8 + n {
            Seq::empty()
        } else {
            seq![s.subrange(8, 8 + n)] + frames_of(s.skip(8 + n))
        }
    }
}

/// What remains of `s` after all complete frames are removed: the
/// partially received frame at the tail (possibly empty).
pub open spec fn partial_of(s: Seq<u8>) -> Seq<u8>
    decreases s.len(),
{
    if s.len() < 8 {
        s
    } else {
        let n = declared_len(s) as int;
        if s.len() < 8 + n {
            s
        } else {
            partial_of(s.skip(8 + n))
        }
    }
}

/// Every header completed in `s`, including one heading the trailing
/// partial frame, declares a payload within `MAX_PAYLOAD_LEN`.
pub open spec fn stream_ok(s: Seq<u8>) -> bool
    decreases s.len(),
{
    if s.len() < 8 {
        true
    } else {
        let n = declared_len(s) as int;
        &&& n <= MAX_PAYLOAD_LEN
        &&& (s.len() >= 8 + n ==> stream_ok(s.skip(8 + n)))
    }
}

/// The trailing partial frame is never itself a complete frame, and
/// carries no frame of its own.
pub proof fn lemma_partial_shape(s: Seq<u8>)
    ensures
        partial_of(s).len() >= 8 ==> partial_of(s).len() < 8 + declared_len(partial_of(s)),
        frames_of(partial_of(s)) =~= Seq::<Seq<u8>>::empty(),
        partial_of(partial_of(s)) =~= partial_of(s),
    decreases s.len(),
{
    if s.len() < 8 {
    } else {
        let n: int = declared_len(s) as int;
        if s.len() < 8 + n {
        } else {
            lemma_partial_shape(s.skip(8 + n));
        }
    }
}

/// Appending bytes to a stream extends its frames by exactly the
/// frames that the new bytes complete, picking up from the trailing
/// partial frame — however the stream is split, the frames are those
/// of the concatenation.
pub proof fn lemma_stream_extend(s: Seq<u8>, d: Seq<u8>)
    ensures
        frames_of(s + d) =~= frames_of(s) + frames_of(partial_of(s) + d),
        partial_of(s + d) =~= partial_of(partial_of(s) + d),
        stream_ok(s + d) <==> (stream_ok(s) && stream_ok(partial_of(s) + d)),
    decreases s.len(),
{
    if s.len() < 8 {
        assert(partial_of(s) =~= s);
        assert(partial_of(s) + d =~= s + d);
        assert(frames_of(s) + frames_of(s + d) =~= frames_of(s + d));
    } else {
        let n: int = declared_len(s) as int;
        assert((s + d).take(8) =~= s.take(8));
        assert(declared_len(s + d) == declared_len(s));
        if s.len() < 8 + n {
            assert(partial_of(s) =~= s);
            assert(partial_of(s) + d =~= s + d);
            assert(frames_of(s) + frames_of(s + d) =~= frames_of(s + d));
        } else {
            assert((s + d).subrange(8, 8 + n) =~= s.subrange(8, 8 + n));
            assert((s + d).skip(8 + n) =~= s.skip(8 + n) + d);
            lemma_stream_extend(s.skip(8 + n), d);
            assert(frames_of(s + d) =~= seq![s.subrange(8, 8 + n)] + frames_of(s.skip(8 + n) + d));
            assert(seq![s.subrange(8, 8 + n)] + (frames_of(s.skip(8 + n)) + frames_of(
                partial_of(s.skip(8 + n)) + d,
            )) =~= (seq![s.subrange(8, 8 + n)] + frames_of(s.skip(8 + n))) + frames_of(
                partial_of(s.skip(8 + n)) + d,
            ));
        }
    }
}

/// A single well-formed frame — the encoded length of a payload,
/// then the payload — decodes to exactly that payload, byte for
/// byte, and to nothing else.
pub proof fn lemma_frame_round_trip(payload: Seq<u8>)
    requires
        payload.len() <= u64::MAX,
    ensures
        frames_of(spec_u64_to_le_bytes(payload.len() as u64) + payload) =~~= seq![payload],
{
    lemma_auto_spec_u64_to_from_le_bytes();
    let h = spec_u64_to_le_bytes(payload.len() as u64);
    let s = h + payload;
    assert(s.take(8) =~= h);
    assert(declared_len(s) == payload.len());
    let n: int = payload.len() as int;
    assert(s.subrange(8, 8 + n) =~= payload);
    assert(s.skip(8 + n) =~= Seq::<u8>::empty());
    assert(s.skip(8 + n).len() == 0);
    assert(frames_of(s.skip(8 + n)) =~= Seq::<Seq<u8>>::empty());
    assert(frames_of(s) =~~= seq![s.subrange(8, 8 + n)] + frames_of(s.skip(8 + n)));
    assert(seq![s.subrange(8, 8 + n)] + Seq::<Seq<u8>>::empty() =~~= seq![payload]);
}

/// A single frame whose declared length is within bounds is an
/// acceptable stream: feeding it can never get a connection dropped
/// for an oversized header.
pub proof fn lemma_single_frame_stream_ok(payload: Seq<u8>)
    requires
        payload.len() <= MAX_PAYLOAD_LEN,
    ensures
        stream_ok(spec_u64_to_le_bytes(payload.len() as u64) + payload),
{
    lemma_auto_spec_u64_to_from_le_bytes();
    let h = spec_u64_to_le_bytes(payload.len() as u64);
    let s = h + payload;
    let n: int = payload.len() as int;
    assert(s.take(8) =~= h);
    assert(declared_len(s) == payload.len());
    assert(s.skip(8 + n) =~= Seq::<u8>::empty());
    assert(stream_ok(Seq::<u8>::empty()));
    assert(stream_ok(s.skip(8 + n)));
}

/// A frame of declared length zero — a bare header of eight zero
/// bytes, with no payload — carries exactly one message, with an
/// empty payload.
pub proof fn lemma_zero_length_frame()
    ensures
        frames_of(spec_u64_to_le_bytes(0)) =~~= seq![Seq::<u8>::empty()],
{
    lemma_frame_round_trip(Seq::<u8>::empty());
    assert(spec_u64_to_le_bytes(0u64) + Seq::<u8>::empty() =~= spec_u64_to_le_bytes(0u64));
}

/// A stream shorter than one header — in particular, a partial
/// header from a peer that closed early — carries no frame.
pub proof fn lemma_short_stream_no_frames(s: Seq<u8>)
    requires
        s.len() < 8,
    ensures
        frames_of(s) =~= Seq::<Seq<u8>>::empty(),
{
}

} // verus!
