//! The decisions taken while an output stream is opened.
//!
//! Opening a stream is a conversation with the audio backend: find the
//! default device, ask what it supports, build a stream, start it. The
//! conversation itself belongs to the program that owns the device; what to
//! make of each answer is decided here.

use vstd::prelude::*;
use crate::error::Error;

verus! {

/// The sample types in which a device may want its data.
#[derive(Debug, Clone, Copy, PartialEq, Eq)]
pub enum SampleFormat {
    /// Signed 16-bit integers.
    I16,
    /// Unsigned 16-bit integers.
    U16,
    /// 32-bit floats.
    F32,
}

/// A configuration that a device offers, taken at its highest sample rate.
#[derive(Debug, Clone, Copy, PartialEq, Eq)]
pub struct Offer {
    pub sample_format: SampleFormat,
    pub channel_count: u16,
    pub sample_rate: u32,
}

/// The shape of the stream that is opened.
#[derive(Debug, Clone, Copy, PartialEq, Eq)]
pub struct StreamConfig {
    pub sample_rate: u32,
    pub channel_count: u16,
}

/// What the backend may answer in place of what was asked for.
#[derive(Debug, Clone, PartialEq, Eq)]
pub enum Failure {
    /// The device has gone since it was found.
    DeviceNotAvailable,
    /// The backend took an argument for invalid.
    InvalidArgument,
    /// The device does not take the configuration.
    StreamConfigNotSupported,
    /// The backend has run out of stream identifiers.
    StreamIdOverflow,
    /// Anything else, with the backend's description.
    BackendSpecific(String),
}

/// The error that a default output device gives when it is sought: none if
/// there is one.
pub fn device_error(found: bool) -> (result: Result<(), Error>)
    ensures
        found ==> result is Ok,
        !found ==> result == Err::<(), Error>(Error::NoOutputDevice),
{
    if found {
        Ok(())
    } else {
        Err(Error::NoOutputDevice)
    }
}

/// The stream to open on a device whose first offer is `offer`: the offer's
/// shape if it is of float samples, and no stream otherwise.
pub open spec fn chosen(offer: Option<Offer>) -> Result<StreamConfig, Error> {
    match offer {
        Some(offer) if offer.sample_format == SampleFormat::F32 => Ok(
            StreamConfig { sample_rate: offer.sample_rate, channel_count: offer.channel_count },
        ),
        _ => Err(Error::DeviceNotUsable),
    }
}

/// The stream to open on a device whose first offer is `offer`. Only float
/// samples are played: a device that offers nothing, or integers, is not
/// usable.
pub fn choose_config(offer: Option<Offer>) -> (result: Result<StreamConfig, Error>)
    ensures
        result == chosen(offer),
{
    match offer {
        Some(offer) => match offer.sample_format {
            SampleFormat::F32 => Ok(
                StreamConfig {
                    sample_rate: offer.sample_rate,
                    channel_count: offer.channel_count,
                },
            ),
            SampleFormat::I16 => Err(Error::DeviceNotUsable),
            SampleFormat::U16 => Err(Error::DeviceNotUsable),
        },
        None => Err(Error::DeviceNotUsable),
    }
}

/// The error that a backend's failure is reported as.
pub open spec fn reported(failure: Failure) -> Error {
    match failure {
        Failure::DeviceNotAvailable => Error::DeviceNotAvailable,
        Failure::InvalidArgument => Error::InvalidArgument,
        Failure::StreamConfigNotSupported => Error::DeviceNotUsable,
        Failure::StreamIdOverflow => Error::StreamIdOverflow,
        Failure::BackendSpecific(description) => Error::BackendError(description),
    }
}

/// Turns a backend's failure into the error that the caller sees.
pub fn failure_error(failure: Failure) -> (error: Error)
    ensures
        error == reported(failure),
{
    match failure {
        Failure::DeviceNotAvailable => Error::DeviceNotAvailable,
        Failure::InvalidArgument => Error::InvalidArgument,
        Failure::StreamConfigNotSupported => Error::DeviceNotUsable,
        Failure::StreamIdOverflow => Error::StreamIdOverflow,
        Failure::BackendSpecific(description) => Error::BackendError(description),
    }
}

/// Where the opening of a stream stands: what to ask the backend next, or
/// how it ended.
#[derive(Debug, Clone, PartialEq, Eq)]
pub enum Step {
    /// Ask for the default output device.
    FindDevice,
    /// Ask the device for its first offer.
    QueryConfigs,
    /// Build a stream of this shape.
    Build(StreamConfig),
    /// Start the stream that was built.
    Play(StreamConfig),
    /// The stream is playing.
    Ready(StreamConfig),
    /// The stream could not be opened.
    Failed(Error),
}

/// What the backend answered.
#[derive(Debug, PartialEq, Eq)]
pub enum Event {
    /// Whether there is a default output device.
    Device(bool),
    /// The device's first offer, if it has one, or why it could not be
    /// asked.
    Configs(Result<Option<Offer>, Failure>),
    /// Whether the stream was built.
    Built(Result<(), Failure>),
    /// Whether the stream was started.
    Started(Result<(), Failure>),
}

/// The step that follows `step` when the backend answers `event`. An answer
/// to a question that was not asked ends the opening with `InvalidArgument`.
pub open spec fn next(step: Step, event: Event) -> Step {
    match (step, event) {
        (Step::FindDevice, Event::Device(true)) => Step::QueryConfigs,
        (Step::FindDevice, Event::Device(false)) => Step::Failed(Error::NoOutputDevice),
        (Step::QueryConfigs, Event::Configs(Ok(offer))) => match chosen(offer) {
            Ok(config) => Step::Build(config),
            Err(error) => Step::Failed(error),
        },
        (Step::QueryConfigs, Event::Configs(Err(failure))) => Step::Failed(reported(failure)),
        (Step::Build(config), Event::Built(Ok(_))) => Step::Play(config),
        (Step::Build(_), Event::Built(Err(failure))) => Step::Failed(reported(failure)),
        (Step::Play(config), Event::Started(Ok(_))) => Step::Ready(config),
        (Step::Play(_), Event::Started(Err(failure))) => Step::Failed(reported(failure)),
        (Step::Failed(error), _) => Step::Failed(error),
        _ => Step::Failed(Error::InvalidArgument),
    }
}

/// Takes the opening of a stream one step on.
pub fn advance(step: Step, event: Event) -> (result: Step)
    ensures
        result == next(step, event),
{
    match step {
        Step::FindDevice => match event {
            Event::Device(found) => match device_error(found) {
                Ok(_) => Step::QueryConfigs,
                Err(error) => Step::Failed(error),
            },
            _ => Step::Failed(Error::InvalidArgument),
        },
        Step::QueryConfigs => match event {
            Event::Configs(Ok(offer)) => match choose_config(offer) {
                Ok(config) => Step::Build(config),
                Err(error) => Step::Failed(error),
            },
            Event::Configs(Err(failure)) => Step::Failed(failure_error(failure)),
            _ => Step::Failed(Error::InvalidArgument),
        },
        Step::Build(config) => match event {
            Event::Built(Ok(_)) => Step::Play(config),
            Event::Built(Err(failure)) => Step::Failed(failure_error(failure)),
            _ => Step::Failed(Error::InvalidArgument),
        },
        Step::Play(config) => match event {
            Event::Started(Ok(_)) => Step::Ready(config),
            Event::Started(Err(failure)) => Step::Failed(failure_error(failure)),
            _ => Step::Failed(Error::InvalidArgument),
        },
        Step::Ready(_) => Step::Failed(Error::InvalidArgument),
        Step::Failed(error) => Step::Failed(error),
    }
}

/// A stream is ready only by way of a device, a float offer, a build and a
/// start, in that order: from any step but the last, one answer does not
/// make it ready.
pub proof fn lemma_ready_is_last(step: Step, event: Event)
    ensures
        next(step, event) is Ready ==> step is Play && event is Started && event->Started_0 is Ok,
        next(step, event) is Play ==> step is Build,
        next(step, event) is Build ==> step is QueryConfigs,
        next(step, event) is QueryConfigs ==> step is FindDevice,
        step is Failed ==> next(step, event) == step,
{
}

} // verus!
