//! The once-per-audio-block publish cycle.
//!
//! Each audio block runs one self-terminating cycle: append the
//! block's samples into the ring buffer, attempt one non-blocking
//! accept, and, only if a consumer was pending, hand back a full
//! snapshot for the caller to transmit. The cycle never blocks and
//! never surfaces a transmission failure: the monitoring stream is
//! best-effort and must not disturb the audio path.

use crate::codec::{encode_snapshot, snapshot_bytes, MAX_EXACT_INDEX};
use crate::ring::{appended_cursor, appended_samples, RingBuffer, RingError};
use vstd::prelude::*;

verus! {

/// What one non-blocking accept attempt observed.
#[derive(PartialEq, Eq, Structural, Clone, Copy, Debug)]
pub enum AcceptOutcome {
    /// No consumer was waiting. The expected steady state; not an error.
    NoConnection,
    /// A consumer connection is pending.
    Connected,
}

/// What the caller is to do before returning control to the host.
#[derive(Debug)]
pub enum PublishAction {
    /// Nothing: return immediately.
    DoNothing,
    /// Write these bytes to the accepted connection, flush, and release
    /// the connection, whatever the write's outcome.
    SendSnapshot(Vec<u8>),
}

/// How a snapshot transmission ended.
#[derive(PartialEq, Eq, Structural, Clone, Copy, Debug)]
pub enum WriteOutcome {
    /// The full snapshot was written and flushed.
    WriteOk,
    /// The write or flush failed (consumer vanished mid-transfer).
    WriteFailed,
}

/// The ring buffer together with the per-block cycle that mutates it
/// and decides what, if anything, to transmit.
pub struct Publisher {
    ring: RingBuffer,
}

impl Publisher {
    /// The buffer this publisher owns.
    pub closed spec fn spec_ring(self) -> RingBuffer {
        self.ring
    }

    /// Well-formed: the buffer is, and its capacity both exists and
    /// keeps the cursor exactly representable in the wire encoding.
    pub open spec fn wf(self) -> bool {
        &&& self.spec_ring().wf()
        &&& 1 <= self.spec_ring().spec_capacity() < MAX_EXACT_INDEX
    }

    /// A publisher over a fresh, zeroed buffer.
    pub fn new(capacity: usize) -> (r: Publisher)
        requires
            1 <= capacity < MAX_EXACT_INDEX,
        ensures
            r.wf(),
            r.spec_ring().spec_capacity() == capacity,
            r.spec_ring().spec_cursor() == 0,
            r.spec_ring().spec_samples() == Seq::<u32>::new(capacity as nat, |i: int| 0u32),
    {
        Publisher { ring: RingBuffer::new(capacity) }
    }

    /// Read access to the buffer.
    pub fn ring(&self) -> (r: &RingBuffer)
        ensures
            r == self.spec_ring(),
    {
        &self.ring
    }

    /// One whole cycle: append the block's frame, then act on the
    /// accept attempt's outcome.
    ///
    /// An oversized frame is rejected and the cycle sends nothing; an
    /// accepted frame advances the buffer exactly as an append does,
    /// and the snapshot handed back on a pending connection is the wire
    /// image of the buffer with this block already included.
    pub fn on_block(&mut self, frame: &[u32], accept: AcceptOutcome) -> (r: Result<
        PublishAction,
        RingError,
    >)
        requires
            old(self).wf(),
        ensures
            final(self).wf(),
            final(self).spec_ring().spec_capacity() == old(self).spec_ring().spec_capacity(),
            r is Ok <==> frame@.len() <= old(self).spec_ring().spec_capacity(),
            r is Err ==> *final(self) == *old(self) && r == Err::<PublishAction, RingError>(
                RingError::FrameExceedsCapacity,
            ),
            r is Ok ==> final(self).spec_ring().spec_cursor() == appended_cursor(
                old(self).spec_ring().spec_capacity(),
                old(self).spec_ring().spec_cursor(),
                frame@.len() as int,
            ) && final(self).spec_ring().spec_samples() == appended_samples(
                old(self).spec_ring().spec_samples(),
                old(self).spec_ring().spec_cursor(),
                frame@,
            ),
            r matches Ok(a) ==> match a {
                PublishAction::DoNothing => accept == AcceptOutcome::NoConnection,
                PublishAction::SendSnapshot(bytes) => accept == AcceptOutcome::Connected
                    && bytes@ == snapshot_bytes(
                    final(self).spec_ring().spec_cursor(),
                    final(self).spec_ring().spec_samples(),
                ),
            },
    {
        match self.ring.append(frame) {
            Err(e) => Err(e),
            Ok(()) => match accept {
                AcceptOutcome::NoConnection => Ok(PublishAction::DoNothing),
                AcceptOutcome::Connected => Ok(
                    PublishAction::SendSnapshot(encode_snapshot(&self.ring)),
                ),
            },
        }
    }

    /// Close the cycle after the caller performed the action.
    ///
    /// The transmission's outcome, success or failure, is swallowed
    /// here: it cannot touch the buffer, and the next block proceeds
    /// exactly as if the write had succeeded.
    pub fn on_write_outcome(&mut self, outcome: WriteOutcome)
        requires
            old(self).wf(),
        ensures
            *final(self) == *old(self),
    {
        let _ = outcome;
    }
}

} // verus!
