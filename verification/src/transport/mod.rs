//! What carries a session from one peer to the other.

pub mod protocol;
pub mod ssh;
pub mod stdio;

use vstd::prelude::*;

verus! {

/// A way of reaching the other peer.
pub trait Transport: Send + Sync {
    /// The name of the transport.
    fn name(&self) -> &'static str;

    /// Whether the other peer may be on another machine.
    fn supports_remote(&self) -> bool;

    /// The name of the encoding on the transport.
    fn codec_name(&self) -> &'static str;

    /// The largest frame that the transport takes.
    fn max_frame_size(&self) -> usize;
}

} // verus!
