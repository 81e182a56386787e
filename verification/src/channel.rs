//! The messaging channel capability: per-destination delivery of opaque
//! byte payloads.
//!
//! The host supplies the implementation; a send either accepts the payload
//! for ordered delivery or fails synchronously with no partial effect.
//! Nothing is assumed of an implementation, so every caller in this crate
//! states what holds of its own state whatever the channel answered.

use vstd::prelude::*;

verus! {

/// Ordering/quality hint for a send.
#[derive(Clone, Copy, PartialEq, Eq, Structural, Debug)]
pub enum ServiceQuality {
    /// Delivery preserving send order per destination.
    Ordered,
}

/// The destination cannot be reached; nothing was sent.
#[derive(Clone, Copy, PartialEq, Eq, Structural, Debug)]
pub struct SendError;

/// Outbound message transport toward other domains.
pub trait Channel {
    /// Hand a payload to the transport for the destination domain.
    fn send(&mut self, dest: u32, payload: Vec<u8>, quality: ServiceQuality) -> Result<
        (),
        SendError,
    >;
}

/// An in-memory channel that keeps every accepted payload, newest last,
/// and can simulate an unreachable transport.
pub struct RecordingChannel {
    /// Accepted payloads with their destination domain.
    pub sent: Vec<(u32, Vec<u8>)>,
    /// When set, every send fails.
    pub broken: bool,
}

impl RecordingChannel {
    /// A working channel with nothing sent yet.
    pub fn new() -> (c: RecordingChannel)
        ensures
            c.sent@.len() == 0,
            !c.broken,
    {
        RecordingChannel { sent: Vec::new(), broken: false }
    }
}

impl Channel for RecordingChannel {
    fn send(&mut self, dest: u32, payload: Vec<u8>, quality: ServiceQuality) -> Result<
        (),
        SendError,
    > {
        if self.broken {
            Err(SendError)
        } else {
            self.sent.push((dest, payload));
            Ok(())
        }
    }
}

} // verus!
