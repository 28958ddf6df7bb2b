//! Wire framing: fixed-size frames carrying one zero-terminated payload.
//!
//! Every message on the wire is exactly `FRAME_SIZE` bytes. The payload is
//! the prefix of the frame up to (not including) the first zero byte; the
//! rest of the frame is zero padding.

use vstd::prelude::*;

use vstd::utf8::{
    decode_utf8, encode_utf8, encode_utf8_decode_utf8, encode_utf8_valid_utf8, is_ascii_chars,
    is_ascii_chars_encode_utf8, valid_utf8,
};

verus! {

/// Every byte sequence read from or written to a peer socket has exactly
/// this length.
pub const FRAME_SIZE: usize = 64;

/// Length of the payload carried by `frame`: the number of bytes before the
/// first zero (all of `frame` if no byte is zero).
pub open spec fn payload_len(frame: Seq<u8>) -> int
    decreases frame.len(),
{
    if frame.len() == 0 || frame[0] == 0 {
        0
    } else {
        1 + payload_len(frame.drop_first())
    }
}

/// The payload carried by `frame`: its bytes up to the first zero.
pub open spec fn frame_payload(frame: Seq<u8>) -> Seq<u8> {
    frame.take(payload_len(frame))
}

/// The frame that carries `payload`: the payload itself, zero-padded (or
/// truncated) to exactly `FRAME_SIZE` bytes.
pub open spec fn padded_frame(payload: Seq<u8>) -> Seq<u8> {
    Seq::new(FRAME_SIZE as nat, |i: int| if i < payload.len() { payload[i] } else { 0 })
}

/// Any index that is the first zero (or the length, when no byte is zero)
/// equals `payload_len`.
pub proof fn lemma_payload_len_unique(frame: Seq<u8>, k: int)
    requires
        0 <= k <= frame.len(),
        forall|i: int| 0 <= i < k ==> frame[i] != 0,
        k < frame.len() ==> frame[k] == 0,
    ensures
        payload_len(frame) == k,
    decreases frame.len(),
{
    if frame.len() == 0 || frame[0] == 0 {
    } else {
        let rest = frame.drop_first();
        assert forall|i: int| 0 <= i < k - 1 implies rest[i] != 0 by {
            assert(frame[i + 1] != 0);
        }
        lemma_payload_len_unique(rest, k - 1);
    }
}

/// Decoding inverts encoding: a payload shorter than a frame and free of
/// zero bytes survives the pad / unpad round trip unchanged.
pub proof fn lemma_frame_round_trip(payload: Seq<u8>)
    requires
        payload.len() < FRAME_SIZE,
        forall|i: int| 0 <= i < payload.len() ==> payload[i] != 0,
    ensures
        frame_payload(padded_frame(payload)) == payload,
{
    let frame = padded_frame(payload);
    lemma_payload_len_unique(frame, payload.len() as int);
    assert(frame_payload(frame) =~= payload);
}

/// Zero-pad `payload` to exactly `FRAME_SIZE` bytes, truncating a payload
/// that is too long.
pub fn encode_frame(payload: &Vec<u8>) -> (frame: Vec<u8>)
    ensures
        frame@.len() == FRAME_SIZE,
        frame@ == padded_frame(payload@),
{
    let mut frame: Vec<u8> = Vec::new();
    let mut i: usize = 0;
    while i < FRAME_SIZE
        invariant
            i <= FRAME_SIZE,
            frame@.len() == i,
            forall|j: int| 0 <= j < i ==> frame@[j] == padded_frame(payload@)[j],
        decreases FRAME_SIZE - i,
    {
        if i < payload.len() {
            frame.push(payload[i]);
        } else {
            frame.push(0);
        }
        i = i + 1;
    }
    proof {
        assert(frame@ =~= padded_frame(payload@));
    }
    frame
}

/// Extract the payload of `frame`: its bytes up to the first zero.
pub fn decode_frame(frame: &Vec<u8>) -> (payload: Vec<u8>)
    ensures
        payload@ == frame_payload(frame@),
{
    let mut k: usize = 0;
    while k < frame.len() && frame[k] != 0
        invariant
            k <= frame@.len(),
            forall|j: int| 0 <= j < k ==> frame@[j] != 0,
        decreases frame@.len() - k,
    {
        k = k + 1;
    }
    proof {
        lemma_payload_len_unique(frame@, k as int);
    }
    let mut payload: Vec<u8> = Vec::new();
    let mut i: usize = 0;
    while i < k
        invariant
            i <= k,
            k <= frame@.len(),
            payload@.len() == i,
            forall|j: int| 0 <= j < i ==> payload@[j] == frame@[j],
        decreases k - i,
    {
        payload.push(frame[i]);
        i = i + 1;
    }
    proof {
        assert(payload@ =~= frame_payload(frame@));
    }
    payload
}

/// Relies on `String::from_utf8`: `Ok` holding a string over exactly the
/// given bytes when they are valid UTF-8, `Err` otherwise.
#[verifier::external_body]
fn bytes_to_string(bytes: Vec<u8>) -> (r: Option<String>)
    ensures
        r is Some <==> valid_utf8(bytes@),
        r matches Some(s) ==> s@ == decode_utf8(bytes@),
{
    match String::from_utf8(bytes) {
        Ok(s) => Some(s),
        Err(_) => None,
    }
}

/// The payload text carried by `frame`: its bytes up to the first zero,
/// decoded as UTF-8. `None` exactly when those bytes are not UTF-8 —
/// fatal for the frame, never for the session.
pub fn decode_payload_text(frame: &Vec<u8>) -> (r: Option<String>)
    ensures
        r is Some <==> valid_utf8(frame_payload(frame@)),
        r matches Some(s) ==> s@ == decode_utf8(frame_payload(frame@)),
{
    let payload = decode_frame(frame);
    bytes_to_string(payload)
}

/// The frame that carries the text `msg`: its UTF-8 bytes, zero-padded
/// (or truncated) to exactly `FRAME_SIZE` bytes.
pub fn encode_text_frame(msg: &str) -> (frame: Vec<u8>)
    ensures
        frame@.len() == FRAME_SIZE,
        frame@ == padded_frame(encode_utf8(msg@)),
{
    let bytes = msg.as_bytes_vec();
    encode_frame(&bytes)
}

/// An ASCII text free of NUL and shorter than a frame survives the whole
/// wire round trip: encoding it into a frame and decoding the frame's
/// payload gives the text back.
pub proof fn lemma_text_frame_round_trip(msg: Seq<char>)
    requires
        is_ascii_chars(msg),
        forall|i: int| 0 <= i < msg.len() ==> msg[i] != '\0',
        msg.len() < FRAME_SIZE,
    ensures
        valid_utf8(frame_payload(padded_frame(encode_utf8(msg)))),
        decode_utf8(frame_payload(padded_frame(encode_utf8(msg)))) == msg,
{
    let bytes = encode_utf8(msg);
    is_ascii_chars_encode_utf8(msg);
    assert forall|i: int| 0 <= i < bytes.len() implies bytes[i] != 0 by {
        assert(msg[i] as u8 == bytes[i]);
        assert('\0' <= msg[i] <= '\u{7f}');
    }
    lemma_frame_round_trip(bytes);
    encode_utf8_valid_utf8(msg);
    encode_utf8_decode_utf8(msg);
}

} // verus!
