//! A small pull-driven audio playback core.
//!
//! Everything here moves, decodes, mixes and resamples interleaved sample
//! frames. The sample type is a parameter: the library never computes with a
//! sample itself, and takes the few arithmetic operations it needs (the sum
//! of two samples, one step of a filter's inner product) from its caller.
//!
//! - [`source`] holds the pull contract, [`Source`], and the guard that holds
//!   any producer of samples to it; [`source::wav`] decodes WAVE files.
//! - [`player`] plays samples from memory, [`convert`] turns a source of one
//!   sample type into a source of another.
//! - [`mixer`] sums any number of sources and drops those that have ended.
//! - [`resampler`] plays a source at another sample rate.
//! - [`stream`] and [`error`] hold the decisions of opening an output stream.

pub mod arithmetic;
pub mod convert;
pub mod error;
pub mod mixer;
pub mod player;
pub mod resampler;
pub mod source;
pub mod stream;

pub use error::Error;
pub use mixer::Mixer;
pub use player::Player;
pub use resampler::Resampler;
pub use source::Source;
