//! A streaming event pipeline: an incremental decoder for an SSE-style
//! text protocol, together with the small state machine that pumps a byte
//! stream through it and the pure decision logic around posting replies.
//!
//! Frames are blocks of text separated by a blank line; each frame carries
//! zero or more `data:` lines whose joined content is parsed as JSON.
use vstd::prelude::*;

pub mod client;
pub mod decoder;
pub mod dispatch;
pub mod events;
pub mod frames;
pub mod pump;

verus! {

/// Capacity of the bounded hand-off queue that carries decoded events from
/// the stream pump to the dispatch loop.
pub const EVENT_CHANNEL_CAPACITY: usize = 64;

} // verus!
