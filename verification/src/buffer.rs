//! Per-input-port debounce buffer: throttles bursts of non-note MIDI
//! traffic before it crosses the network, without ever delaying a note.
//!
//! The MIDI callback calls [`Buffer::add`] for each incoming event; a
//! paired flusher task calls [`Buffer::flush`] every
//! [`BUFFER_MONITOR_DELAY`] milliseconds. Time is handed in by the caller
//! as milliseconds on a monotonic clock.

use vstd::prelude::*;

use crate::ident::ClientId;
use crate::message::{composed, compose_message, render_midi_body, triple_body};

verus! {

/// Coalescing window in milliseconds: a non-note event arriving within
/// this long of the last flush is buffered instead of sent.
pub const BUFFER_TIME: u64 = 100;

/// Period of the flusher task in milliseconds: the longest a buffered
/// event may wait.
pub const BUFFER_MONITOR_DELAY: u64 = 10;

/// A musically significant status byte: note-off, note-on or program
/// change. Dropping one of these is audible, so they bypass the queue.
pub open spec fn is_note_status(status: u8) -> bool {
    status == 0x80 || status == 0x90 || status == 0xc0
}

/// The payload the buffer builds for a three-byte event from `message`:
/// `<owner>|[s, d1, d2]`.
pub open spec fn event_payload(owner: Seq<char>, message: Seq<u8>) -> Seq<char> {
    composed(owner, triple_body(message[0], message[1], message[2]))
}

/// `add` hands its payload out at once exactly for note statuses and for
/// events arriving once the coalescing window has passed.
pub open spec fn sends_at_once(status: u8, last_call: u64, now: u64) -> bool {
    is_note_status(status) || now - last_call >= BUFFER_TIME
}

/// The debounce buffer of one input port.
pub struct Buffer {
    /// Payloads waiting for the flusher, oldest first.
    pub queue: Vec<String>,
    /// Identity of the client that owns the port.
    pub uuid: ClientId,
    /// When the buffer was last flushed or reset, in milliseconds.
    pub last_call: u64,
}

impl Buffer {
    pub open spec fn wf(&self) -> bool {
        self.uuid.wf()
    }

    /// The queued payloads, as character sequences.
    pub open spec fn payloads(&self) -> Seq<Seq<char>> {
        Seq::new(self.queue@.len(), |i: int| self.queue@[i]@)
    }

    /// A fresh buffer owned by `uuid`, with an empty queue and its window
    /// starting at `now`.
    pub fn new(uuid: ClientId, now: u64) -> (b: Buffer)
        ensures
            b.uuid == uuid,
            b.payloads() == Seq::<Seq<char>>::empty(),
            b.last_call == now,
    {
        let b = Buffer { queue: Vec::new(), uuid, last_call: now };
        proof {
            assert(b.payloads() =~= Seq::<Seq<char>>::empty());
        }
        b
    }

    /// Empty the queue and restart the window at `now`.
    pub fn reset(&mut self, now: u64)
        ensures
            final(self).uuid == old(self).uuid,
            final(self).payloads() == Seq::<Seq<char>>::empty(),
            final(self).last_call == now,
    {
        self.last_call = now;
        self.queue = Vec::new();
        proof {
            assert(self.payloads() =~= Seq::<Seq<char>>::empty());
        }
    }

    /// The payload for `message`, bypassing the queue: what the callback
    /// hands straight to the outbound queue.
    pub fn send(&self, message: &[u8]) -> (r: String)
        requires
            message@.len() == 3,
        ensures
            r@ == event_payload(self.uuid@, message@),
    {
        let body = render_midi_body(message[0], message[1], message[2]);
        compose_message(self.uuid.as_text(), body.as_str())
    }

    /// One incoming event at time `now`. A note, or any event once the
    /// window has passed, becomes a payload at once (`Some`) and resets
    /// the buffer; every other event is queued for the flusher.
    pub fn add(&mut self, now: u64, message: &[u8]) -> (r: Option<String>)
        requires
            message@.len() == 3,
            old(self).last_call <= now,
        ensures
            final(self).uuid == old(self).uuid,
            sends_at_once(message@[0], old(self).last_call, now) ==> {
                &&& r matches Some(p) && p@ == event_payload(old(self).uuid@, message@)
                &&& final(self).payloads() == Seq::<Seq<char>>::empty()
                &&& final(self).last_call == now
            },
            !sends_at_once(message@[0], old(self).last_call, now) ==> {
                &&& r is None
                &&& final(self).payloads() == old(self).payloads().push(
                    event_payload(old(self).uuid@, message@),
                )
                &&& final(self).last_call == old(self).last_call
            },
    {
        let payload = self.send(message);
        let status = message[0];
        let elapsed = now - self.last_call;
        if elapsed < BUFFER_TIME && !(status == 0x80 || status == 0x90 || status == 0xc0) {
            let ghost before = self.payloads();
            self.queue.push(payload);
            proof {
                assert(self.payloads() =~= before.push(
                    event_payload(self.uuid@, message@),
                ));
            }
            None
        } else {
            self.reset(now);
            Some(payload)
        }
    }

    /// The flusher's step at time `now`: emit the most recently queued
    /// payload, if any, and reset the buffer.
    pub fn flush(&mut self, now: u64) -> (r: Option<String>)
        ensures
            final(self).uuid == old(self).uuid,
            old(self).payloads().len() == 0 ==> r is None && *final(self) == *old(self),
            old(self).payloads().len() > 0 ==> {
                &&& r matches Some(p) && p@ == old(self).payloads().last()
                &&& final(self).payloads() == Seq::<Seq<char>>::empty()
                &&& final(self).last_call == now
            },
    {
        if self.queue.len() > 0 {
            let last = self.queue[self.queue.len() - 1].clone();
            self.reset(now);
            Some(last)
        } else {
            None
        }
    }
}

/// Note preservation: a note-status event is never buffered — whatever the
/// state of the window, `add` turns it into a payload immediately.
pub proof fn lemma_note_preservation(status: u8, last_call: u64, now: u64)
    requires
        is_note_status(status),
    ensures
        sends_at_once(status, last_call, now),
{
}

/// The payloads a burst of events turns into, in arrival order.
pub open spec fn burst_payloads(owner: Seq<char>, msgs: Seq<Seq<u8>>) -> Seq<Seq<char>> {
    Seq::new(msgs.len(), |i: int| event_payload(owner, msgs[i]))
}

/// The queue after a burst in which every `add` takes the buffering
/// branch: each event's payload is pushed in turn.
pub open spec fn queue_after_burst(
    queue: Seq<Seq<char>>,
    owner: Seq<char>,
    msgs: Seq<Seq<u8>>,
) -> Seq<Seq<char>>
    decreases msgs.len(),
{
    if msgs.len() == 0 {
        queue
    } else {
        queue_after_burst(queue.push(event_payload(owner, msgs[0])), owner, msgs.drop_first())
    }
}

/// CC coalescing: during a burst of non-note events that all arrive within
/// one coalescing window of the last flush, no `add` emits a payload —
/// every event is queued — and the flush that follows the burst emits
/// exactly one payload: that of the burst's last event.
pub proof fn lemma_cc_coalescing(
    queue: Seq<Seq<char>>,
    owner: Seq<char>,
    last_call: u64,
    msgs: Seq<Seq<u8>>,
    times: Seq<u64>,
)
    requires
        msgs.len() > 0,
        times.len() == msgs.len(),
        forall|i: int|
            0 <= i < msgs.len() ==> (#[trigger] msgs[i]).len() == 3 && !is_note_status(msgs[i][0]),
        forall|i: int|
            0 <= i < times.len() ==> last_call <= #[trigger] times[i] && times[i] - last_call
                < BUFFER_TIME,
    ensures
        forall|i: int| 0 <= i < msgs.len() ==> !sends_at_once(msgs[i][0], last_call, #[trigger] times[i]),
        queue_after_burst(queue, owner, msgs) == queue + burst_payloads(owner, msgs),
        queue_after_burst(queue, owner, msgs).last() == event_payload(owner, msgs.last()),
    decreases msgs.len(),
{
    if msgs.len() == 1 {
        let queue1 = queue.push(event_payload(owner, msgs[0]));
        assert(queue_after_burst(queue1, owner, msgs.drop_first()) == queue1);
        assert(queue_after_burst(queue, owner, msgs) == queue1);
        assert(queue1 =~= queue + burst_payloads(owner, msgs));
    } else {
        let queue1 = queue.push(event_payload(owner, msgs[0]));
        lemma_cc_coalescing(queue1, owner, last_call, msgs.drop_first(), times.drop_first());
        assert(queue1 + burst_payloads(owner, msgs.drop_first()) =~= queue + burst_payloads(
            owner,
            msgs,
        ));
        assert(msgs.drop_first().last() == msgs.last());
    }
}

} // verus!
