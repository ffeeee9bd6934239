//! The streaming control loop: on every tick both channels are sampled,
//! pan first, the readings are packed into a fixed payload, framed and
//! written to the transport; a peer that goes away sends the loop back to
//! waiting for a connection.
//!
//! The loop is given as a transition function. Whoever drives it performs
//! the action it returns and reports what happened as the next event.

use crate::slip::{encode_slip, frame, stuffed, stuffed_byte, END, ESC};
use crate::{Disconnected, WriteError};
use vstd::prelude::*;

verus! {

/// First payload byte: the protocol category.
pub const CATEGORY: u8 = 0x01;

/// Second payload byte: the sub-type within the category.
pub const SUBTYPE: u8 = 0x01;

/// Length of a payload.
pub const PAYLOAD_LEN: usize = 6;

/// Length of the longest frame that a payload can have: the two markers
/// stand for themselves, each of the four reading bytes may need an escape
/// sequence, and the terminator follows.
pub const FRAME_MAX: usize = 11;

/// Raw conversions averaged into one reading.
pub const SAMPLES: usize = 64;

/// Clock divider that paces the conversions of a burst.
pub const ADC_DIV: u16 = 1199;

/// Ticks per second.
pub const TICK_HZ: u64 = 10;

/// The payload of one tick: category, sub-type, then the pan reading and
/// the tilt reading, each as its two wire bytes.
pub open spec fn payload_of(pan: Seq<u8>, tilt: Seq<u8>) -> Seq<u8> {
    seq![CATEGORY, SUBTYPE, pan[0], pan[1], tilt[0], tilt[1]]
}

/// Assembles the payload of one tick from the two readings.
pub fn payload(pan: [u8; 2], tilt: [u8; 2]) -> (packet: [u8; PAYLOAD_LEN])
    ensures
        packet@ == payload_of(pan@, tilt@),
{
    let packet = [CATEGORY, SUBTYPE, pan[0], pan[1], tilt[0], tilt[1]];
    assert(packet@ =~= payload_of(pan@, tilt@));
    packet
}

/// The frame of a payload has between 7 and [`FRAME_MAX`] bytes.
pub proof fn lemma_frame_fits(pan: Seq<u8>, tilt: Seq<u8>)
    ensures
        PAYLOAD_LEN + 1 <= frame(payload_of(pan, tilt)).len() <= FRAME_MAX,
{
    let upto6 = payload_of(pan, tilt);
    let upto5 = upto6.drop_last();
    let upto4 = upto5.drop_last();
    let upto3 = upto4.drop_last();
    let upto2 = upto3.drop_last();
    let upto1 = upto2.drop_last();
    let upto0 = upto1.drop_last();
    assert(stuffed(upto0).len() == 0);
    assert(stuffed(upto1) == stuffed(upto0) + stuffed_byte(CATEGORY));
    assert(stuffed(upto2) == stuffed(upto1) + stuffed_byte(SUBTYPE));
    assert(stuffed(upto3) == stuffed(upto2) + stuffed_byte(pan[0]));
    assert(stuffed(upto4) == stuffed(upto3) + stuffed_byte(pan[1]));
    assert(stuffed(upto5) == stuffed(upto4) + stuffed_byte(tilt[0]));
    assert(stuffed(upto6) == stuffed(upto5) + stuffed_byte(tilt[1]));
}

/// One encoded frame, ready to be written to the transport in one piece.
pub struct Frame {
    buf: [u8; FRAME_MAX],
    len: usize,
}

impl View for Frame {
    type V = Seq<u8>;

    /// The frame's wire bytes.
    closed spec fn view(&self) -> Seq<u8> {
        self.buf@.take(self.len as int)
    }
}

impl Frame {
    #[verifier::type_invariant]
    spec fn within_buffer(self) -> bool {
        self.len <= FRAME_MAX
    }

    /// The frame of the payload that `pan` and `tilt` make.
    pub fn new(pan: [u8; 2], tilt: [u8; 2]) -> (encoded: Frame)
        ensures
            encoded@ == frame(payload_of(pan@, tilt@)),
    {
        let packet = payload(pan, tilt);
        let mut buf = [0u8;FRAME_MAX];
        proof {
            lemma_frame_fits(pan@, tilt@);
        }
        let len = encode_slip(&packet, &mut buf);
        Frame { buf, len }
    }

    /// The frame's wire bytes.
    pub fn as_bytes(&self) -> (bytes: &[u8])
        ensures
            bytes@ == self@,
    {
        proof {
            use_type_invariant(self);
        }
        vstd::slice::slice_subrange(self.buf.as_slice(), 0, self.len)
    }
}

/// Where the loop stands.
#[derive(Debug, Clone, Copy, PartialEq, Eq, Structural)]
pub enum LinkState {
    /// No peer is attached; nothing is sampled or sent.
    Disconnected,
    /// A peer is attached; one frame goes out per tick.
    Streaming,
}

/// What has happened since the last action.
#[derive(Debug, Clone, Copy)]
pub enum LinkEvent {
    /// The transport reports an active connection.
    Connected,
    /// Both channels have been sampled, pan before tilt.
    Sampled { pan: [u8; 2], tilt: [u8; 2] },
    /// The frame has been written.
    Written,
    /// The write of the frame has failed.
    WriteFailed(WriteError),
    /// The ticker has fired.
    Tick,
}

/// What to do next.
pub enum LinkAction {
    /// Wait until the transport reports a connection.
    AwaitConnection,
    /// Sample pan, then tilt.
    Sample,
    /// Write this frame to the transport with one call.
    Write(Frame),
    /// Wait for the next tick.
    AwaitTick,
    /// Stop: the transport has reported a fault that is not recovered from.
    Halt,
}

/// An action, with a frame given by its wire bytes.
pub enum Step {
    AwaitConnection,
    Sample,
    Write(Seq<u8>),
    AwaitTick,
    Halt,
}

impl View for LinkAction {
    type V = Step;

    open spec fn view(&self) -> Step {
        match self {
            LinkAction::AwaitConnection => Step::AwaitConnection,
            LinkAction::Sample => Step::Sample,
            LinkAction::Write(encoded) => Step::Write(encoded@),
            LinkAction::AwaitTick => Step::AwaitTick,
            LinkAction::Halt => Step::Halt,
        }
    }
}

/// The state that follows `state` on `event`: a connection starts
/// streaming, a write that fails on a disabled endpoint ends it, and nothing
/// else changes the state.
pub open spec fn next_state(state: LinkState, event: LinkEvent) -> LinkState {
    match event {
        LinkEvent::Connected => LinkState::Streaming,
        LinkEvent::WriteFailed(WriteError::Disabled) => LinkState::Disconnected,
        _ => state,
    }
}

/// The action that `event` calls for in `state`.
///
/// An overflow reported by the transport halts the loop, and a connection
/// starts a tick, whatever the state. Otherwise nothing but waiting for a
/// connection happens while disconnected; while streaming, readings are
/// framed and written, a finished write waits for the tick, a tick samples
/// again, and a write that failed on a disabled endpoint is not retried.
pub open spec fn next_step(state: LinkState, event: LinkEvent) -> Step {
    match event {
        LinkEvent::WriteFailed(WriteError::BufferOverflow) => Step::Halt,
        LinkEvent::Connected => Step::Sample,
        _ => match state {
            LinkState::Disconnected => Step::AwaitConnection,
            LinkState::Streaming => match event {
                LinkEvent::Sampled { pan, tilt } => Step::Write(frame(payload_of(pan@, tilt@))),
                LinkEvent::Written => Step::AwaitTick,
                LinkEvent::Tick => Step::Sample,
                _ => Step::AwaitConnection,
            },
        },
    }
}

/// One transition of the control loop.
pub fn pan_tilt(state: LinkState, event: LinkEvent) -> (next: (LinkState, LinkAction))
    ensures
        next.0 == next_state(state, event),
        next.1@ == next_step(state, event),
{
    match event {
        LinkEvent::WriteFailed(error) => match Disconnected::from_write_error(error) {
            Some(_) => (LinkState::Disconnected, LinkAction::AwaitConnection),
            None => (state, LinkAction::Halt),
        },
        LinkEvent::Connected => (LinkState::Streaming, LinkAction::Sample),
        LinkEvent::Sampled { pan, tilt } => match state {
            LinkState::Disconnected => (state, LinkAction::AwaitConnection),
            LinkState::Streaming => (state, LinkAction::Write(Frame::new(pan, tilt))),
        },
        LinkEvent::Written => match state {
            LinkState::Disconnected => (state, LinkAction::AwaitConnection),
            LinkState::Streaming => (state, LinkAction::AwaitTick),
        },
        LinkEvent::Tick => match state {
            LinkState::Disconnected => (state, LinkAction::AwaitConnection),
            LinkState::Streaming => (state, LinkAction::Sample),
        },
    }
}

/// Disconnect resilience. A write that fails because the peer is gone takes
/// the loop from streaming to disconnected, and the loop waits for a
/// connection: it neither halts nor writes again. While disconnected no
/// event makes the loop write a frame. A connection takes it back to
/// streaming and starts with sampling, and what goes out then is made of
/// the readings of that tick alone.
pub proof fn lemma_disconnect_resilience(stale: LinkEvent, pan: [u8; 2], tilt: [u8; 2])
    ensures
        next_state(LinkState::Streaming, LinkEvent::WriteFailed(WriteError::Disabled))
            == LinkState::Disconnected,
        next_step(LinkState::Streaming, LinkEvent::WriteFailed(WriteError::Disabled))
            == Step::AwaitConnection,
        !(next_step(LinkState::Disconnected, stale) is Write),
        stale != LinkEvent::Connected ==> next_state(LinkState::Disconnected, stale)
            == LinkState::Disconnected,
        next_state(LinkState::Disconnected, LinkEvent::Connected) == LinkState::Streaming,
        next_step(LinkState::Disconnected, LinkEvent::Connected) == Step::Sample,
        next_step(LinkState::Streaming, LinkEvent::Sampled { pan, tilt }) == Step::Write(
            frame(payload_of(pan@, tilt@)),
        ),
{
}

} // verus!
