//! Core algorithms of an audio workbench, verified with Verus.
//!
//! - [`codec`]: the variable-length delta codec, deltas to bytes and back.
//! - [`speed`] and [`resampler`]: playback speeds as exact ratios, and
//!   resampling at such a speed with rounded source positions.
//! - [`channel`]: the bounded, never-waiting queue between the audio callbacks
//!   and the control loop.
//! - [`pipeline`]: what the output and the input callback do on each
//!   invocation.
//! - [`session`]: the control loop's buffer, snapshots and scalars.
//!
//! Nothing here computes with samples. The codec works on integer deltas, and
//! the resampler and the pipeline move samples of any copyable type without
//! looking inside them.

pub mod channel;
pub mod codec;
pub mod pipeline;
pub mod resampler;
pub mod session;
pub mod speed;
