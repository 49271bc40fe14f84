//! The errors of opening an output stream.

use vstd::prelude::*;

verus! {

/// Why an output stream could not be opened.
#[derive(Debug, Clone, PartialEq, Eq)]
pub enum Error {
    /// "catch-all" error reported by the audio backend in cases of unknown or
    /// unexpected errors, with the backend's description
    BackendError(String),
    /// The device no longer exists (ie. it has been disabled or unplugged)
    DeviceNotAvailable,
    /// The device doesn't support any of the playback configurations we can use
    DeviceNotUsable,
    /// An invalid argument was provided somewhere in the audio backend
    InvalidArgument,
    /// There is no output device available
    NoOutputDevice,
    /// Occurs if adding a new Stream ID would cause an integer overflow.
    StreamIdOverflow,
}

} // verus!
