//! Live sample-monitoring core for an audio plugin: a fixed-capacity ring
//! buffer of 32-bit sample words, a wire codec for full-buffer snapshots,
//! local-socket address selection, and the non-blocking publish cycle that
//! runs once per audio block.

use vstd::prelude::*;

pub mod address;
pub mod codec;
pub mod publish;
pub mod ring;

pub use address::NameSupport;
pub use publish::{AcceptOutcome, PublishAction, Publisher, WriteOutcome};
pub use ring::{RingBuffer, RingError};

verus! {

/// Number of sample slots in the ring buffer on this platform.
pub const RING_BUFFER_SIZE: usize = 15360;

} // verus!
