use remote_midi::message::{
    compose_message, get_msg, parse_message, parse_midi_body, parse_u8_str, render_midi_body,
};

#[test]
fn compose_joins_with_separator() {
    let msg = compose_message("abc", "[144, 60, 127]");
    assert_eq!(msg, "abc|[144, 60, 127]");
}

#[test]
fn get_msg_returns_body() {
    assert_eq!(get_msg("abc|hello"), "hello");
}

#[test]
fn get_msg_without_separator_returns_whole() {
    assert_eq!(get_msg("hello"), "hello");
}

#[test]
fn get_msg_cuts_at_second_separator() {
    assert_eq!(get_msg("a|b|c"), "b");
}

#[test]
fn render_zero() {
    assert_eq!(render_midi_body(0, 0, 0), "[0, 0, 0]");
}

#[test]
fn render_mixed_widths() {
    assert_eq!(render_midi_body(144, 60, 7), "[144, 60, 7]");
}

#[test]
fn render_max() {
    assert_eq!(render_midi_body(255, 255, 255), "[255, 255, 255]");
}

#[test]
fn parse_rendered_triple() {
    assert_eq!(parse_midi_body("[144, 60, 127]"), Some((144, 60, 127)));
}

#[test]
fn parse_without_spaces() {
    assert_eq!(parse_midi_body("[144,60,127]"), Some((144, 60, 127)));
}

#[test]
fn parse_chat_is_none() {
    assert_eq!(parse_midi_body("hello"), None);
}

#[test]
fn parse_too_few_segments_is_none() {
    assert_eq!(parse_midi_body("[144, 60]"), None);
}

#[test]
fn parse_overflow_is_none() {
    assert_eq!(parse_midi_body("[300, 60, 127]"), None);
}

#[test]
fn parse_ignores_extra_segments() {
    assert_eq!(parse_midi_body("[144, 60, 127, 9]"), Some((144, 60, 127)));
}

#[test]
fn parse_empty_segment_is_none() {
    assert_eq!(parse_midi_body("[, 60, 127]"), None);
}

#[test]
fn parse_non_digit_segment_is_none() {
    assert_eq!(parse_midi_body("[x, 60, 127]"), None);
}

#[test]
fn parse_leading_zeros() {
    assert_eq!(parse_midi_body("[007, 060, 0127]"), Some((7, 60, 127)));
}

#[test]
fn parse_cuts_after_closing_bracket() {
    assert_eq!(parse_midi_body("noise [144, 60, 127] tail"), Some((144, 60, 127)));
    assert_eq!(parse_midi_body("x[144, 60, 127]y"), Some((144, 60, 127)));
    assert_eq!(parse_midi_body("[1[144, 60, 127]"), None);
}

#[test]
fn parse_message_on_known_triple() {
    assert_eq!(parse_message("[192, 5, 0]"), (192, 5, 0));
}

#[test]
fn parse_u8_trims_whitespace() {
    assert_eq!(parse_u8_str(" 60 "), Some(60));
    assert_eq!(parse_u8_str("255"), Some(255));
    assert_eq!(parse_u8_str("256"), None);
    assert_eq!(parse_u8_str(""), None);
    assert_eq!(parse_u8_str("  "), None);
    assert_eq!(parse_u8_str("6 0"), None);
}

#[test]
fn round_trip_render_parse() {
    for &(s, d1, d2) in &[(128u8, 0u8, 0u8), (144, 60, 127), (192, 5, 0), (176, 10, 127), (255, 255, 255)] {
        let body = render_midi_body(s, d1, d2);
        assert_eq!(parse_midi_body(body.as_str()), Some((s, d1, d2)));
    }
}
