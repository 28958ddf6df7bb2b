use remote_midi::codec::{decode_frame, decode_payload_text, encode_frame, encode_text_frame, FRAME_SIZE};

#[test]
fn frame_size_is_64() {
    assert_eq!(FRAME_SIZE, 64);
}

#[test]
fn encode_pads_with_zeros() {
    let payload: Vec<u8> = b"abc".to_vec();
    let frame = encode_frame(&payload);
    assert_eq!(frame.len(), FRAME_SIZE);
    assert_eq!(&frame[0..3], b"abc");
    assert!(frame[3..].iter().all(|&b| b == 0));
}

#[test]
fn encode_truncates_long_payload() {
    let payload: Vec<u8> = vec![7u8; 100];
    let frame = encode_frame(&payload);
    assert_eq!(frame.len(), FRAME_SIZE);
    assert!(frame.iter().all(|&b| b == 7));
}

#[test]
fn decode_stops_at_first_zero() {
    let mut frame: Vec<u8> = vec![0u8; FRAME_SIZE];
    frame[0] = b'h';
    frame[1] = b'i';
    frame[3] = b'x';
    let payload = decode_frame(&frame);
    assert_eq!(payload, b"hi".to_vec());
}

#[test]
fn round_trip_preserves_payload() {
    let payload: Vec<u8> = b"0f3d|[144, 60, 127]".to_vec();
    let frame = encode_frame(&payload);
    assert_eq!(frame.len(), FRAME_SIZE);
    assert_eq!(decode_frame(&frame), payload);
}

#[test]
fn full_frame_decodes_whole() {
    let payload: Vec<u8> = vec![9u8; FRAME_SIZE];
    let frame = encode_frame(&payload);
    assert_eq!(decode_frame(&frame), payload);
}

#[test]
fn text_frame_round_trip() {
    let frame = encode_text_frame("client|hello");
    assert_eq!(frame.len(), FRAME_SIZE);
    let text = decode_payload_text(&frame).unwrap();
    assert_eq!(text, "client|hello");
}

#[test]
fn invalid_utf8_payload_is_rejected() {
    let mut frame: Vec<u8> = vec![0u8; FRAME_SIZE];
    frame[0] = 0xff;
    frame[1] = 0xfe;
    assert!(decode_payload_text(&frame).is_none());
}

#[test]
fn empty_payload_decodes_to_empty_text() {
    let frame: Vec<u8> = vec![0u8; FRAME_SIZE];
    let text = decode_payload_text(&frame).unwrap();
    assert_eq!(text, "");
}
