//! The pull interface that every producer of samples implements.

use vstd::prelude::*;

pub mod wav;

verus! {

/// A producer of interleaved sample frames with a read cursor that only moves
/// forward.
///
/// A pull that comes back short is final: the source is exhausted from then
/// on, stays exhausted, and writes nothing more.
pub trait Source<T>: Send + Sync {
    /// The invariant of the source's state. Every method asks for it and
    /// keeps it.
    spec fn valid(&self) -> bool;

    /// The number of channels, fixed for the life of the source.
    spec fn channels(&self) -> nat;

    /// Whether the source has nothing more to hand out.
    spec fn exhausted(&self) -> bool;

    /// Whether a pull into a buffer of `len` samples, made in this state, may
    /// write exactly `written` to the front of the buffer.
    spec fn writes(&self, len: nat, written: Seq<T>) -> bool;

    /// Whether a pull into a buffer of `len` samples, made in this state and
    /// writing `written`, may leave the source in the state `next`.
    spec fn leaves(&self, len: nat, written: Seq<T>, next: &Self) -> bool;

    /// Writes the next samples to the front of `buffer` and returns how many
    /// were written. What lies behind them is left as it was.
    fn write_samples(&mut self, buffer: &mut [T]) -> (count: usize)
        requires
            old(self).valid(),
            old(buffer)@.len() % old(self).channels() == 0,
        ensures
            final(self).valid(),
            final(self).channels() == old(self).channels(),
            count <= old(buffer)@.len(),
            final(buffer)@.len() == old(buffer)@.len(),
            final(buffer)@.skip(count as int) == old(buffer)@.skip(count as int),
            old(self).writes(old(buffer)@.len(), final(buffer)@.take(count as int)),
            old(self).leaves(old(buffer)@.len(), final(buffer)@.take(count as int), final(self)),
            old(self).exhausted() ==> count == 0 && final(self).exhausted(),
            count < old(buffer)@.len() ==> final(self).exhausted(),
    ;

    /// The number of channels in this source's frames: at least one in a
    /// valid source. It can be asked of any source, valid or not.
    fn channel_count(&self) -> (count: usize)
        ensures
            count == self.channels(),
            self.valid() ==> count >= 1,
    ;
}

/// Whether a source that is pulled for `chunk` samples again and again may
/// write `buffers`, one after the other, and pass through `states` on the
/// way: `states[i]` writes `buffers[i]` and is left as `states[i + 1]`.
pub open spec fn pulls_in_turn<T, S: Source<T>>(
    states: Seq<S>,
    chunk: nat,
    buffers: Seq<Seq<T>>,
) -> bool {
    &&& states.len() == buffers.len() + 1
    &&& forall|i: int|
        0 <= i < buffers.len() ==> states[i].writes(chunk, #[trigger] buffers[i])
            && states[i].leaves(chunk, buffers[i], &states[i + 1])
}

/// The buffers laid end to end.
pub open spec fn joined<T>(buffers: Seq<Seq<T>>) -> Seq<T>
    decreases buffers.len(),
{
    if buffers.len() == 0 {
        Seq::empty()
    } else {
        joined(buffers.drop_last()) + buffers.last()
    }
}

/// A producer of samples of which nothing is known: the interface for
/// sources that are written without proof, and the one behind which sources
/// of different types are reached. [`Guarded`] makes a [`Source`] of one.
pub trait Producer<T>: Send + Sync {
    /// Whether a pull into a buffer of `len` samples, made in this state, may
    /// leave the buffer holding `filled` and return `count`. A producer says
    /// here what it does, if it says anything: unless it is given another
    /// meaning, this holds of every answer.
    open spec fn wrote(&self, len: nat, filled: Seq<T>, count: nat) -> bool {
        true
    }

    /// Writes the next samples to the front of `buffer` and returns how many
    /// were written.
    fn write_samples(&mut self, buffer: &mut [T]) -> (count: usize)
        ensures
            old(self).wrote(old(buffer)@.len(), final(buffer)@, count as nat),
    ;

    /// The number of channels in this producer's frames.
    fn channel_count(&self) -> usize;
}

/// A producer held to the contract of a source. The channel count is asked
/// once and kept; each pull goes into a buffer of the guard's own, from which
/// no more than was asked for is handed on; and after the first short pull
/// the producer is not asked again.
pub struct Guarded<T, P> {
    producer: P,
    channels: usize,
    ended: bool,
    scratch: Vec<T>,
}

impl<T: Copy + Send + Sync, P: Producer<T>> Guarded<T, P> {
    /// The channel count that the producer gave when it was wrapped.
    pub closed spec fn declared_channels(&self) -> nat {
        self.channels as nat
    }

    /// Whether a pull has come back short.
    pub closed spec fn ended(&self) -> bool {
        self.ended
    }

    /// The producer inside the guard.
    pub closed spec fn inner(&self) -> P {
        self.producer
    }

    /// Whether `guarded` is what wrapping `producer` gives when the producer
    /// reports `channels` channels: no guard for a producer without
    /// channels, and otherwise a guard of that producer with that channel
    /// count, which has not ended.
    pub open spec fn wraps(producer: P, channels: usize, guarded: Option<Self>) -> bool {
        &&& guarded is Some <==> channels >= 1
        &&& guarded matches Some(source) ==> {
            &&& source.inner() == producer
            &&& source.declared_channels() == channels
            &&& !source.ended()
        }
    }

    /// Whether the guard's producer, asked for `len` samples, may give an
    /// answer of which `written` is what the guard hands on: the samples
    /// that the producer says it wrote, as far as the buffer holds them and
    /// no more than were asked for.
    pub open spec fn hands_on(&self, len: nat, written: Seq<T>) -> bool {
        exists|filled: Seq<T>, count: nat| #[trigger]
            self.inner().wrote(len, filled, count) && written == filled.take(
                vstd::math::min(
                    count as int,
                    vstd::math::min(len as int, filled.len() as int),
                ),
            )
    }

    /// Wraps `producer`, unless it has no channels. The producer is asked
    /// for its channel count, once, and the guard keeps the answer.
    pub fn new(producer: P) -> (guarded: Option<Self>)
        ensures
            guarded matches Some(source) ==> source.valid() && !source.exhausted(),
            (exists|channels: usize|
                call_ensures(P::channel_count, (&producer,), channels) && #[trigger] Self::wraps(
                    producer,
                    channels,
                    guarded,
                )),
    {
        let channels: usize = producer.channel_count();
        Self::with_channel_count(producer, channels)
    }

    /// Wraps `producer` as a source of `channels` channels, unless that is
    /// none.
    pub fn with_channel_count(producer: P, channels: usize) -> (guarded: Option<Self>)
        ensures
            guarded is Some <==> channels >= 1,
            guarded matches Some(source) ==> source.valid() && !source.exhausted()
                && source.channels() == channels,
            Self::wraps(producer, channels, guarded),
    {
        if channels == 0 {
            None
        } else {
            Some(Guarded { producer, channels, ended: false, scratch: Vec::new() })
        }
    }
}

/// Hands on what a producer wrote: copies to the front of `buffer` the
/// first `written` samples of `pulled`, or as many as both hold, and returns
/// their number.
pub fn deliver<T: Copy>(buffer: &mut [T], pulled: &[T], written: usize) -> (count: usize)
    ensures
        count == vstd::math::min(
            written as int,
            vstd::math::min(old(buffer)@.len() as int, pulled@.len() as int),
        ),
        final(buffer)@.len() == old(buffer)@.len(),
        final(buffer)@.take(count as int) == pulled@.take(count as int),
        final(buffer)@.skip(count as int) == old(buffer)@.skip(count as int),
{
    let room: usize = if buffer.len() < pulled.len() {
        buffer.len()
    } else {
        pulled.len()
    };
    let count: usize = if written < room {
        written
    } else {
        room
    };
    let mut i: usize = 0;
    while i < count
        invariant
            i <= count,
            count <= buffer@.len(),
            count <= pulled@.len(),
            buffer@.len() == old(buffer)@.len(),
            forall|j: int| 0 <= j < i ==> buffer@[j] == pulled@[j],
            forall|j: int| count <= j < buffer@.len() ==> buffer@[j] == old(buffer)@[j],
        decreases count - i,
    {
        buffer[i] = pulled[i];
        i += 1;
    }
    assert(buffer@.take(count as int) =~= pulled@.take(count as int));
    assert(buffer@.skip(count as int) =~= old(buffer)@.skip(count as int));
    count
}

impl<T: Copy + Send + Sync, P: Producer<T>> Source<T> for Guarded<T, P> {
    /// A guarded producer is a source when it has at least one channel.
    open spec fn valid(&self) -> bool {
        self.declared_channels() >= 1
    }

    open spec fn channels(&self) -> nat {
        self.declared_channels()
    }

    open spec fn exhausted(&self) -> bool {
        self.ended()
    }

    /// A guard that has ended, or is pulled for nothing, writes nothing.
    /// Otherwise it writes what its producer hands it when asked for `len`
    /// samples.
    open spec fn writes(&self, len: nat, written: Seq<T>) -> bool {
        &&& written.len() <= len
        &&& self.ended() || len == 0 ==> written.len() == 0
        &&& !self.ended() && len > 0 ==> self.hands_on(len, written)
    }

    /// A pull leaves the channel count as it is, and the guard ended if it
    /// had ended before or the pull came back short. Of the producer inside
    /// nothing is known.
    open spec fn leaves(&self, len: nat, written: Seq<T>, next: &Self) -> bool {
        &&& next.declared_channels() == self.declared_channels()
        &&& next.ended() == (self.ended() || written.len() < len)
    }

    fn write_samples(&mut self, buffer: &mut [T]) -> (count: usize)
        ensures
            final(self).declared_channels() == old(self).declared_channels(),
            final(self).ended() == (old(self).ended() || count < old(buffer)@.len()),
    {
        let len: usize = buffer.len();
        if self.ended || len == 0 {
            return 0;
        }
        self.scratch.resize(len, buffer[0]);
        let written: usize = self.producer.write_samples(self.scratch.as_mut_slice());
        let count: usize = deliver(buffer, self.scratch.as_slice(), written);
        if count < len {
            self.ended = true;
        }
        proof {
            assert(old(self).inner().wrote(len as nat, self.scratch@, written as nat));
            assert(old(self).hands_on(len as nat, buffer@.take(count as int)));
        }
        count
    }

    fn channel_count(&self) -> (count: usize) {
        self.channels
    }
}

/// A boxed producer is the producer inside it, so that one list can hold
/// producers of different types.
impl<T> Producer<T> for Box<dyn Producer<T>> {
    open spec fn wrote(&self, len: nat, filled: Seq<T>, count: nat) -> bool {
        (**self).wrote(len, filled, count)
    }

    fn write_samples(&mut self, buffer: &mut [T]) -> (count: usize) {
        (**self).write_samples(buffer)
    }

    fn channel_count(&self) -> usize {
        (**self).channel_count()
    }
}

} // verus!
