//! The framing codec: one frame on the wire is a 4-byte big-endian length
//! prefix followed by exactly that many payload bytes.

use vstd::prelude::*;

verus! {

/// Number of bytes in the length prefix of a frame.
pub const PREFIX_LEN: usize = 4;

/// Largest payload length the 4-byte prefix can carry. A longer message
/// cannot be framed and is rejected rather than truncated.
pub const MAX_PAYLOAD_LEN: usize = 0xFFFF_FFFF;

/// The four big-endian bytes of a 32-bit value, most significant first.
pub open spec fn be_bytes_of(x: u32) -> Seq<u8> {
    seq![
        (x >> 24) as u8,
        (x >> 16) as u8,
        (x >> 8) as u8,
        x as u8,
    ]
}

/// The 32-bit value read from four big-endian bytes.
pub open spec fn be_value_of(s: Seq<u8>) -> u32
    recommends
        s.len() == 4,
{
    (((s[0] as u32) << 24) | ((s[1] as u32) << 16) | ((s[2] as u32) << 8) | (s[3] as u32)) as u32
}

/// Reading back the big-endian bytes of a value gives the value.
pub proof fn lemma_be_round_trip(x: u32)
    ensures
        be_value_of(be_bytes_of(x)) == x,
{
    let s = be_bytes_of(x);
    assert(((((x >> 24) as u8 as u32) << 24) | (((x >> 16) as u8 as u32) << 16) | (((x >> 8)
        as u8 as u32) << 8) | (x as u8 as u32)) as u32 == x) by (bit_vector);
    assert(s[0] == (x >> 24) as u8 && s[1] == (x >> 16) as u8 && s[2] == (x >> 8) as u8 && s[3]
        == x as u8);
}

/// The wire form of one frame carrying `payload`.
pub open spec fn frame_of(payload: Seq<u8>) -> Seq<u8>
    recommends
        payload.len() <= MAX_PAYLOAD_LEN,
{
    be_bytes_of(payload.len() as u32) + payload
}

/// What decoding yields on a prefix of the byte stream: `None` while the
/// buffer does not yet hold one whole frame, otherwise the payload together
/// with the number of bytes the frame occupies.
pub open spec fn spec_decode(stream: Seq<u8>) -> Option<(Seq<u8>, int)> {
    if stream.len() < 4 {
        None
    } else {
        let len = be_value_of(stream.subrange(0, 4)) as int;
        if stream.len() < 4 + len {
            None
        } else {
            Some((stream.subrange(4, 4 + len), 4 + len))
        }
    }
}

/// Writes the four big-endian bytes of `x`.
pub fn u32_to_be_bytes(x: u32) -> (s: Vec<u8>)
    ensures
        s@ == be_bytes_of(x),
{
    let mut s: Vec<u8> = Vec::new();
    s.push((x >> 24) as u8);
    s.push((x >> 16) as u8);
    s.push((x >> 8) as u8);
    s.push(x as u8);
    proof {
        assert(s@ =~= be_bytes_of(x));
    }
    s
}

/// Reads the 32-bit value out of a 4-byte big-endian prefix. This is how a
/// reader learns how many payload bytes the current frame still owes it.
pub fn u32_from_be_bytes(prefix: &Vec<u8>) -> (x: u32)
    requires
        prefix@.len() == 4,
    ensures
        x == be_value_of(prefix@),
{
    ((prefix[0] as u32) << 24) | ((prefix[1] as u32) << 16) | ((prefix[2] as u32) << 8) | (
    prefix[3] as u32)
}

/// Encodes one frame: the length prefix for `payload`, then the payload
/// itself. Returns `None` exactly when the payload is too long for the
/// prefix to describe it.
pub fn encode_frame(payload: &Vec<u8>) -> (r: Option<Vec<u8>>)
    ensures
        payload@.len() <= MAX_PAYLOAD_LEN ==> (r matches Some(f) && f@ == frame_of(payload@)),
        payload@.len() > MAX_PAYLOAD_LEN ==> r is None,
{
    if payload.len() > MAX_PAYLOAD_LEN {
        return None;
    }
    let mut out = u32_to_be_bytes(payload.len() as u32);
    let mut i: usize = 0;
    while i < payload.len()
        invariant
            i <= payload@.len() <= MAX_PAYLOAD_LEN,
            out@ == be_bytes_of(payload@.len() as u32) + payload@.subrange(0, i as int),
        decreases payload@.len() - i,
    {
        out.push(payload[i]);
        i += 1;
        proof {
            assert(out@ =~= be_bytes_of(payload@.len() as u32) + payload@.subrange(0, i as int));
        }
    }
    proof {
        assert(out@ =~= frame_of(payload@));
    }
    Some(out)
}

/// Decoding a stream that starts with the frame for `payload` yields exactly
/// `payload`, consuming exactly the frame's bytes, whatever follows it.
pub proof fn lemma_decode_frame_prefix(payload: Seq<u8>, rest: Seq<u8>)
    requires
        payload.len() <= MAX_PAYLOAD_LEN,
    ensures
        spec_decode(frame_of(payload) + rest) == Some(
            (payload, 4 + payload.len() as int),
        ),
{
    let stream = frame_of(payload) + rest;
    let len = payload.len() as u32;
    assert(stream.subrange(0, 4) =~= be_bytes_of(len));
    lemma_be_round_trip(len);
    assert(stream.subrange(4, 4 + payload.len() as int) =~= payload);
}

/// Round trip: decoding a frame encoded from any byte sequence, the empty
/// one included, yields exactly that sequence.
pub proof fn lemma_frame_round_trip(payload: Seq<u8>)
    requires
        payload.len() <= MAX_PAYLOAD_LEN,
    ensures
        spec_decode(frame_of(payload)) == Some((payload, 4 + payload.len() as int)),
{
    assert(frame_of(payload) + Seq::<u8>::empty() =~= frame_of(payload));
    lemma_decode_frame_prefix(payload, Seq::<u8>::empty());
}

/// The wire form of a whole sequence of messages, framed one after another.
pub open spec fn frames_of(msgs: Seq<Seq<u8>>) -> Seq<u8>
    decreases msgs.len(),
{
    if msgs.len() == 0 {
        Seq::empty()
    } else {
        frame_of(msgs[0]) + frames_of(msgs.drop_first())
    }
}

/// All the whole frames at the front of a stream, decoded in order.
pub open spec fn decode_all(stream: Seq<u8>) -> Seq<Seq<u8>>
    decreases stream.len(),
{
    match spec_decode(stream) {
        Option::None => Seq::empty(),
        Option::Some((payload, consumed)) => if 0 < consumed <= stream.len() {
            seq![payload] + decode_all(stream.skip(consumed))
        } else {
            Seq::empty()
        },
    }
}

/// Order preservation: messages taken in enqueue order from one
/// connection's outbound queue and framed one after another form a stream
/// that the peer decodes back to exactly those messages, in the same
/// order — so what the peer's inbound side drains is the enqueue order.
pub proof fn lemma_stream_round_trip(msgs: Seq<Seq<u8>>)
    requires
        forall|i: int| 0 <= i < msgs.len() ==> #[trigger] msgs[i].len() <= MAX_PAYLOAD_LEN,
    ensures
        decode_all(frames_of(msgs)) == msgs,
    decreases msgs.len(),
{
    if msgs.len() == 0 {
        assert(decode_all(frames_of(msgs)) =~= msgs);
    } else {
        let head = msgs[0];
        let tail = msgs.drop_first();
        let stream = frames_of(msgs);
        assert(stream == frame_of(head) + frames_of(tail));
        lemma_decode_frame_prefix(head, frames_of(tail));
        let consumed = 4 + head.len() as int;
        assert(spec_decode(stream) == Some((head, consumed)));
        assert(stream.len() == consumed + frames_of(tail).len());
        assert(decode_all(stream) == seq![head] + decode_all(stream.skip(consumed)));
        assert(stream.skip(consumed) =~= frames_of(tail));
        lemma_stream_round_trip(tail);
        assert(seq![head] + tail =~= msgs);
    }
}

/// The result of trying to decode one frame out of a buffered stream prefix.
pub enum DecodeOutcome {
    /// The buffer does not yet hold one whole frame; more bytes must arrive.
    Incomplete,
    /// One whole frame: its payload, and how many buffer bytes it occupied.
    Frame { payload: Vec<u8>, consumed: usize },
}

/// Decodes one frame from the front of `buf`, if a whole one is there.
pub fn decode_frame(buf: &Vec<u8>) -> (r: DecodeOutcome)
    ensures
        match r {
            DecodeOutcome::Incomplete => spec_decode(buf@) is None,
            DecodeOutcome::Frame { payload, consumed } => spec_decode(buf@) == Some(
                (payload@, consumed as int),
            ),
        },
{
    if buf.len() < 4 {
        return DecodeOutcome::Incomplete;
    }
    let len32 = ((buf[0] as u32) << 24) | ((buf[1] as u32) << 16) | ((buf[2] as u32) << 8) | (
    buf[3] as u32);
    proof {
        assert(buf@.subrange(0, 4)[0] == buf@[0] && buf@.subrange(0, 4)[1] == buf@[1]
            && buf@.subrange(0, 4)[2] == buf@[2] && buf@.subrange(0, 4)[3] == buf@[3]);
    }
    let len = len32 as usize;
    if buf.len() - 4 < len {
        return DecodeOutcome::Incomplete;
    }
    let consumed = 4 + len;
    let mut payload: Vec<u8> = Vec::new();
    let mut i: usize = 4;
    while i < consumed
        invariant
            4 <= i <= consumed <= buf@.len(),
            payload@ == buf@.subrange(4, i as int),
        decreases consumed - i,
    {
        payload.push(buf[i]);
        i += 1;
        proof {
            assert(payload@ =~= buf@.subrange(4, i as int));
        }
    }
    DecodeOutcome::Frame { payload, consumed }
}

} // verus!
