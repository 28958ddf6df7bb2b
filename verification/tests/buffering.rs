use remote_midi::buffer::{Buffer, BUFFER_MONITOR_DELAY, BUFFER_TIME};
use remote_midi::ident::ClientId;

const ID: &str = "cccccccc-0000-4000-8000-000000000003";

fn owner() -> ClientId {
    ClientId::from_text(ID.to_string()).unwrap()
}

#[test]
fn constants_match_design() {
    assert_eq!(BUFFER_TIME, 100);
    assert_eq!(BUFFER_MONITOR_DELAY, 10);
}

#[test]
fn send_composes_payload() {
    let b = Buffer::new(owner(), 0);
    let payload = b.send(&[144, 60, 127]);
    assert_eq!(payload, format!("{}|[144, 60, 127]", ID));
}

#[test]
fn note_on_bypasses_queue() {
    let mut b = Buffer::new(owner(), 0);
    let r = b.add(5, &[0x90, 60, 127]);
    assert_eq!(r.unwrap(), format!("{}|[144, 60, 127]", ID));
    assert!(b.queue.is_empty());
    assert_eq!(b.last_call, 5);
}

#[test]
fn note_off_and_program_change_bypass_queue() {
    let mut b = Buffer::new(owner(), 0);
    assert!(b.add(1, &[0x80, 60, 0]).is_some());
    assert!(b.add(2, &[0xc0, 5, 0]).is_some());
}

#[test]
fn cc_within_window_is_buffered() {
    let mut b = Buffer::new(owner(), 0);
    let r = b.add(10, &[0xb0, 10, 42]);
    assert!(r.is_none());
    assert_eq!(b.queue.len(), 1);
    assert_eq!(b.last_call, 0);
}

#[test]
fn cc_after_window_goes_out_at_once() {
    let mut b = Buffer::new(owner(), 0);
    let r = b.add(BUFFER_TIME, &[0xb0, 10, 42]);
    assert_eq!(r.unwrap(), format!("{}|[176, 10, 42]", ID));
    assert!(b.queue.is_empty());
    assert_eq!(b.last_call, BUFFER_TIME);
}

#[test]
fn pitch_bend_coalesces_like_cc() {
    let mut b = Buffer::new(owner(), 0);
    assert!(b.add(1, &[0xe0, 0, 64]).is_none());
}

#[test]
fn flush_emits_last_only_and_resets() {
    let mut b = Buffer::new(owner(), 0);
    assert!(b.add(1, &[0xb0, 10, 1]).is_none());
    assert!(b.add(2, &[0xb0, 10, 2]).is_none());
    assert!(b.add(3, &[0xb0, 10, 3]).is_none());
    let flushed = b.flush(BUFFER_MONITOR_DELAY);
    assert_eq!(flushed.unwrap(), format!("{}|[176, 10, 3]", ID));
    assert!(b.queue.is_empty());
    assert_eq!(b.last_call, BUFFER_MONITOR_DELAY);
    assert!(b.flush(BUFFER_MONITOR_DELAY + 1).is_none());
}

#[test]
fn reset_clears_queue_and_restarts_window() {
    let mut b = Buffer::new(owner(), 0);
    assert!(b.add(1, &[0xb0, 10, 1]).is_none());
    b.reset(50);
    assert!(b.queue.is_empty());
    assert_eq!(b.last_call, 50);
}

#[test]
fn cc_flood_yields_one_frame() {
    // A 50 ms flood of 0xB0 0x0A v for v = 0..=127: nothing leaves during
    // the burst, and the flush that follows emits only the last value.
    let mut b = Buffer::new(owner(), 0);
    let mut emitted: Vec<String> = Vec::new();
    for v in 0u8..=127 {
        let t = (v as u64 * 50) / 128;
        if let Some(p) = b.add(t, &[0xb0, 0x0a, v]) {
            emitted.push(p);
        }
    }
    if let Some(p) = b.flush(50) {
        emitted.push(p);
    }
    assert_eq!(emitted.len(), 1);
    assert_eq!(emitted[0], format!("{}|[176, 10, 127]", ID));
}

#[test]
fn note_in_the_middle_of_a_flood() {
    // Same flood, but at v = 60 the status byte is note-on: that event is
    // emitted immediately; the other values keep coalescing.
    let mut b = Buffer::new(owner(), 0);
    let mut emitted: Vec<String> = Vec::new();
    for v in 0u8..=127 {
        let t = (v as u64 * 50) / 128;
        let status: u8 = if v == 60 { 0x90 } else { 0xb0 };
        if let Some(p) = b.add(t, &[status, 0x0a, v]) {
            emitted.push(p);
        }
    }
    if let Some(p) = b.flush(50) {
        emitted.push(p);
    }
    assert_eq!(emitted.len(), 2);
    assert_eq!(emitted[0], format!("{}|[144, 10, 60]", ID));
    assert_eq!(emitted[1], format!("{}|[176, 10, 127]", ID));
}
