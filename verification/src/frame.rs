use vstd::prelude::*;
use bytes::BytesMut;
use crate::buffer::{buffer_advance, buffer_bytes, buffer_slice};

verus! {

/// Whether `bytes` starts with a whole frame. A frame is a length byte
/// `n` followed by `n - 1` payload bytes (the length counts itself); a frame
/// is only taken once at least `n` bytes follow the length byte.
pub open spec fn frame_ready(bytes: Seq<u8>) -> bool {
    bytes.len() >= 1 && bytes.len() - 1 >= bytes[0]
}

/// The payload of the frame that `bytes` starts with.
pub open spec fn frame_payload(bytes: Seq<u8>) -> Seq<u8> {
    bytes.subrange(1, bytes[0] as int)
}

/// Takes the next frame off `buffer` when a whole one is there, returning
/// its payload; otherwise leaves the buffer as it is and returns `None`.
/// A length byte of zero is no frame at all (the buffer must not start
/// with one).
pub fn take_frame(buffer: &mut BytesMut) -> (r: Option<Vec<u8>>)
    requires
        buffer_bytes(*old(buffer)).len() == 0 || buffer_bytes(*old(buffer))[0] != 0,
    ensures
        ({
            let bytes = buffer_bytes(*old(buffer));
            if frame_ready(bytes) {
                r matches Some(p) && p@ == frame_payload(bytes) && buffer_bytes(*final(buffer)) == bytes.skip(bytes[0] as int)
            } else {
                r is None && buffer_bytes(*final(buffer)) == bytes
            }
        }),
{
    let bytes = buffer_slice(buffer);
    if bytes.len() >= 1 {
        let length = bytes[0] as usize;
        if bytes.len() - 1 >= length {
            let payload = vstd::slice::slice_to_vec(vstd::slice::slice_subrange(bytes, 1, length));
            buffer_advance(buffer, length);
            return Some(payload);
        }
    }
    None
}

/// The frame that carries `payload`: its length plus one, then the payload.
pub fn encode_frame(payload: &[u8]) -> (r: Vec<u8>)
    requires
        payload@.len() < 255,
    ensures
        r@ == seq![(payload@.len() + 1) as u8] + payload@,
{
    let mut r: Vec<u8> = Vec::new();
    r.push((payload.len() + 1) as u8);
    let mut i: usize = 0;
    while i < payload.len()
        invariant
            i <= payload@.len(),
            payload@.len() < 255,
            r@ == seq![(payload@.len() + 1) as u8] + payload@.take(i as int),
        decreases payload@.len() - i,
    {
        r.push(payload[i]);
        assert(payload@.take(i + 1) =~= payload@.take(i as int).push(payload@[i as int]));
        i = i + 1;
    }
    assert(payload@.take(i as int) =~= payload@);
    r
}

/// A framed payload is read back whole once one more byte has arrived
/// after it, and taking it consumes exactly the frame.
pub proof fn lemma_frame_round_trip(payload: Seq<u8>, rest: Seq<u8>)
    requires
        payload.len() < 255,
        rest.len() >= 1,
    ensures
        ({
            let bytes = seq![(payload.len() + 1) as u8] + payload + rest;
            &&& frame_ready(bytes)
            &&& frame_payload(bytes) == payload
            &&& bytes.skip(bytes[0] as int) == rest
        }),
{
    let bytes = seq![(payload.len() + 1) as u8] + payload + rest;
    assert(bytes[0] == payload.len() + 1);
    assert(frame_payload(bytes) =~= payload);
    assert(bytes.skip(bytes[0] as int) =~= rest);
}

} // verus!
