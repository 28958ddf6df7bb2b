//! Client session decisions: what to do with each frame read from the
//! broker, and how to frame outbound messages.
//!
//! The unverified rim owns the socket. It reads exactly `FRAME_SIZE`
//! bytes, hands them to [`handle_frame`], and performs the returned
//! action: play a triple on the output device, log a chat line, or
//! nothing. On the way out it drains the outbound queue and writes the
//! frame built by [`outbound_frame`].

use vstd::prelude::*;

use vstd::utf8::{decode_utf8, encode_utf8, is_ascii_chars, valid_utf8};

use crate::codec::{
    encode_text_frame, frame_payload, lemma_text_frame_round_trip, padded_frame, FRAME_SIZE,
};
use crate::ident::{is_id_text, lemma_id_text_clean, ClientId};
use crate::message::{
    composed, get_msg, lemma_compose_split, msg_prefix, parse_midi_body, parsed_triple,
    second_segment, MSG_SEPARATOR,
};
use crate::text::find_char;

verus! {

/// The payload text a frame carries, under vstd's model of UTF-8.
pub open spec fn payload_text(frame: Seq<u8>) -> Seq<char> {
    decode_utf8(frame_payload(frame))
}

/// A frame makes the client produce MIDI output exactly when its payload
/// decodes, its prefix is not the local identity, and its body parses as
/// a MIDI triple.
pub open spec fn renders_midi(local: Seq<char>, frame: Seq<u8>) -> bool {
    &&& valid_utf8(frame_payload(frame))
    &&& msg_prefix(payload_text(frame)) != local
    &&& parsed_triple(second_segment(payload_text(frame))) is Some
}

/// What the session does with one inbound frame.
pub enum FrameAction {
    /// The payload was not valid UTF-8: the frame is dropped, the session
    /// goes on.
    Malformed,
    /// The frame's prefix is the local identity: a loopback echo,
    /// discarded without output.
    Loopback,
    /// A peer's MIDI event: log the body and play the triple on the
    /// output device.
    Render { status: u8, data1: u8, data2: u8, text: String },
    /// A peer's chat line: log the body, play nothing.
    Chat { text: String },
}

/// Decide what to do with one frame read from the broker.
pub fn handle_frame(local: &ClientId, frame: &Vec<u8>) -> (action: FrameAction)
    ensures
        action is Malformed <==> !valid_utf8(frame_payload(frame@)),
        action is Loopback <==> valid_utf8(frame_payload(frame@)) && msg_prefix(
            payload_text(frame@),
        ) == local@,
        action is Render <==> renders_midi(local@, frame@),
        action matches FrameAction::Render { status, data1, data2, text } ==> parsed_triple(
            second_segment(payload_text(frame@)),
        ) == Some((status, data1, data2)) && text@ == second_segment(payload_text(frame@)),
        action matches FrameAction::Chat { text } ==> text@ == second_segment(
            payload_text(frame@),
        ),
{
    let text = match crate::codec::decode_payload_text(frame) {
        None => {
            return FrameAction::Malformed;
        },
        Some(t) => t,
    };
    let a = find_char(text.as_str(), 0, MSG_SEPARATOR);
    proof {
        assert(text@.skip(0) =~= text@);
    }
    let prefix = text.as_str().substring_char(0, a);
    proof {
        assert(prefix@ =~= msg_prefix(text@));
    }
    if local.matches_text(prefix) {
        return FrameAction::Loopback;
    }
    let body = get_msg(text.as_str());
    match parse_midi_body(body) {
        Some((status, data1, data2)) => FrameAction::Render {
            status,
            data1,
            data2,
            text: String::from_str(body),
        },
        None => FrameAction::Chat { text: String::from_str(body) },
    }
}

/// Loopback suppression: a frame whose prefix is the local identity never
/// produces MIDI output, whatever its body carries.
pub proof fn lemma_loopback_suppression(local: Seq<char>, frame: Seq<u8>)
    requires
        msg_prefix(payload_text(frame)) == local,
    ensures
        !renders_midi(local, frame),
{
}

/// The client-id prefix of any outbound frame is the minting client's
/// identity: whoever decodes the frame splits off exactly `id` — so a
/// peer renders the body, and the sender's own copy comes back to it as
/// a loopback.
pub proof fn lemma_outbound_prefix(id: Seq<char>, body: Seq<char>)
    requires
        is_id_text(id),
        is_ascii_chars(body),
        forall|i: int| 0 <= i < body.len() ==> body[i] != '\0',
        id.len() + 1 + body.len() < FRAME_SIZE,
    ensures
        valid_utf8(frame_payload(padded_frame(encode_utf8(composed(id, body))))),
        msg_prefix(payload_text(padded_frame(encode_utf8(composed(id, body))))) == id,
{
    let msg = composed(id, body);
    lemma_id_text_clean(id);
    assert forall|i: int| 0 <= i < msg.len() implies '\0' < #[trigger] msg[i] <= '\u{7f}' by {
        if i < id.len() {
            assert(msg[i] == id[i]);
        } else if i == id.len() {
            assert(msg[i] == MSG_SEPARATOR);
        } else {
            assert(msg[i] == body[i - id.len() - 1]);
            assert('\0' <= body[i - id.len() - 1] <= '\u{7f}');
        }
    }
    lemma_text_frame_round_trip(msg);
    lemma_compose_split(id, body);
}

/// The frame the session writer sends for an outbound message: always
/// exactly `FRAME_SIZE` bytes on the wire.
pub fn outbound_frame(msg: &str) -> (frame: Vec<u8>)
    ensures
        frame@.len() == FRAME_SIZE,
        frame@ == padded_frame(encode_utf8(msg@)),
{
    encode_text_frame(msg)
}

} // verus!
