use remote_midi::broker::PeerRegistry;
use remote_midi::codec::FRAME_SIZE;
use remote_midi::ident::ClientId;
use remote_midi::message::compose_message;
use remote_midi::session::{handle_frame, outbound_frame, FrameAction};

const ID_A: &str = "aaaaaaaa-0000-4000-8000-000000000001";
const ID_B: &str = "bbbbbbbb-0000-4000-8000-000000000002";

fn client(id: &str) -> ClientId {
    ClientId::from_text(id.to_string()).unwrap()
}

fn frame_from(id: &str, body: &str) -> Vec<u8> {
    let a = client(id);
    let msg = compose_message(a.as_text(), body);
    outbound_frame(msg.as_str())
}

#[test]
fn echo_suppression() {
    // A sends a note-on; the broker delivers to both. B renders the
    // triple; A discards its own frame.
    let frame = frame_from(ID_A, "[144, 60, 127]");
    assert_eq!(frame.len(), FRAME_SIZE);
    match handle_frame(&client(ID_B), &frame) {
        FrameAction::Render { status, data1, data2, text } => {
            assert_eq!((status, data1, data2), (144, 60, 127));
            assert_eq!(text, "[144, 60, 127]");
        },
        _ => panic!("peer must render another client's note"),
    }
    match handle_frame(&client(ID_A), &frame) {
        FrameAction::Loopback => {},
        _ => panic!("a client must discard its own frame"),
    }
}

#[test]
fn chat_passthrough() {
    // A sends a chat line: B logs the body, plays nothing.
    let frame = frame_from(ID_A, "hello");
    match handle_frame(&client(ID_B), &frame) {
        FrameAction::Chat { text } => assert_eq!(text, "hello"),
        _ => panic!("a chat body must not render MIDI"),
    }
}

#[test]
fn frame_boundary_single_event() {
    // The literal body without spaces still fits one frame and renders
    // exactly one event.
    let frame = frame_from(ID_A, "[144,60,127]");
    assert_eq!(frame.len(), FRAME_SIZE);
    match handle_frame(&client(ID_B), &frame) {
        FrameAction::Render { status, data1, data2, .. } => {
            assert_eq!((status, data1, data2), (144, 60, 127));
        },
        _ => panic!("the body must render"),
    }
}

#[test]
fn malformed_frame_is_dropped() {
    let mut frame = vec![0u8; FRAME_SIZE];
    frame[0] = 0xc3;
    frame[1] = 0x28;
    match handle_frame(&client(ID_B), &frame) {
        FrameAction::Malformed => {},
        _ => panic!("an undecodable payload must be dropped"),
    }
}

#[test]
fn separatorless_payload_is_chat() {
    let frame = outbound_frame("just noise");
    match handle_frame(&client(ID_B), &frame) {
        FrameAction::Chat { text } => assert_eq!(text, "just noise"),
        _ => panic!("a payload without a separator is logged as text"),
    }
}

#[test]
fn registry_register_and_dispatch() {
    let mut reg = PeerRegistry::new();
    reg.register(11);
    reg.register(22);
    reg.register(33);
    assert_eq!(reg.len(), 3);
    assert_eq!(reg.peer_at(1), 22);
    let delivered = vec![true, true, true];
    reg.prune(&delivered);
    assert_eq!(reg.len(), 3);
}

#[test]
fn peer_drop_prunes_registry() {
    // A is killed mid-session: its write fails, the registry no longer
    // lists it, and the others still receive.
    let mut reg = PeerRegistry::new();
    reg.register(1);
    reg.register(2);
    reg.register(3);
    let delivered = vec![false, true, true];
    reg.prune(&delivered);
    assert_eq!(reg.len(), 2);
    assert_eq!(reg.peer_at(0), 2);
    assert_eq!(reg.peer_at(1), 3);
}

#[test]
fn prune_can_empty_the_registry() {
    let mut reg = PeerRegistry::new();
    reg.register(7);
    let delivered = vec![false];
    reg.prune(&delivered);
    assert_eq!(reg.len(), 0);
}
