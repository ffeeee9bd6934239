//! Pan/tilt sensor link: byte-stuffed framing, oversampling and the
//! streaming control loop of a two-axis analog readout.

use vstd::prelude::*;

pub mod pantilt;
pub mod roundtrip;
pub mod sampler;
pub mod slip;

verus! {

/// Why a write to the transport failed.
#[derive(Debug, Clone, Copy, PartialEq, Eq, Structural)]
pub enum WriteError {
    /// The frame did not fit the transport's buffer: a programming error,
    /// not a condition to recover from.
    BufferOverflow,
    /// The endpoint is disabled: the peer is gone.
    Disabled,
}

/// The peer has disconnected; streaming ends until it attaches again.
#[derive(Debug, Clone, Copy, PartialEq, Eq, Structural)]
pub struct Disconnected {}

impl Disconnected {
    /// Classifies a failed write. A disabled endpoint means that the peer
    /// has disconnected; an overflow is no disconnect but a fault that is
    /// not recovered from.
    pub fn from_write_error(val: WriteError) -> (gone: Option<Disconnected>)
        ensures
            gone is Some <==> val == WriteError::Disabled,
    {
        match val {
            WriteError::BufferOverflow => None,
            WriteError::Disabled => Some(Disconnected {  }),
        }
    }
}

} // verus!
