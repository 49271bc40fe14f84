//! A source that plays samples held in memory.

use vstd::prelude::*;
use crate::source::Source;

verus! {

/// A basic sound-playing object. When fed to an output stream, will play the
/// samples it contains until it has no more. If the samples have a different
/// sample rate than the output stream, the output will sound sped up or
/// slowed down; wrap the player in a resampler to play it at the right rate.
pub struct Player<T> {
    samples: Vec<T>,
    channels: usize,
    offset: usize,
}

impl<T: Copy + Send + Sync> Player<T> {
    /// The samples not yet played.
    pub closed spec fn remaining(&self) -> Seq<T> {
        self.samples@.skip(self.offset as int)
    }

    /// The channel count given at construction.
    pub closed spec fn declared_channels(&self) -> nat {
        self.channels as nat
    }

    /// The invariant of the player's cursor.
    pub closed spec fn well_formed(&self) -> bool {
        self.offset <= self.samples@.len()
    }

    /// A player of `samples`, read as interleaved frames of `channels`
    /// samples each, with its cursor on the first.
    pub fn new(samples: Vec<T>, channels: usize) -> (player: Self)
        ensures
            player.well_formed(),
            player.remaining() == samples@,
            player.declared_channels() == channels,
            player.valid() <==> channels >= 1,
    {
        Self { samples, channels, offset: 0 }
    }
}

impl<T: Copy + Send + Sync> Source<T> for Player<T> {
    /// A player is a source when its cursor is sound and it has at least one
    /// channel.
    open spec fn valid(&self) -> bool {
        self.well_formed() && self.declared_channels() >= 1
    }

    open spec fn channels(&self) -> nat {
        self.declared_channels()
    }

    open spec fn exhausted(&self) -> bool {
        self.remaining().len() == 0
    }

    open spec fn writes(&self, len: nat, written: Seq<T>) -> bool {
        written == self.remaining().take(vstd::math::min(len as int, self.remaining().len() as int))
    }

    /// A pull leaves the player with what it had, less what was written.
    open spec fn leaves(&self, len: nat, written: Seq<T>, next: &Self) -> bool {
        &&& next.well_formed()
        &&& next.declared_channels() == self.declared_channels()
        &&& next.remaining() == self.remaining().skip(written.len() as int)
    }

    /// Copies the next samples, as many as the buffer takes and the player
    /// still has, and moves the cursor past them.
    fn write_samples(&mut self, buffer: &mut [T]) -> (count: usize)
        ensures
            count == vstd::math::min(
                old(buffer)@.len() as int,
                old(self).remaining().len() as int,
            ),
            final(buffer)@.take(count as int) == old(self).remaining().take(count as int),
            final(self).remaining() == old(self).remaining().skip(count as int),
            final(self).declared_channels() == old(self).declared_channels(),
    {
        let start: usize = self.offset;
        let left: usize = self.samples.len() - start;
        let count: usize = if buffer.len() <= left {
            buffer.len()
        } else {
            left
        };
        let mut i: usize = 0;
        while i < count
            invariant
                i <= count,
                count <= buffer@.len(),
                buffer@.len() == old(buffer)@.len(),
                *self == *old(self),
                start == self.offset,
                start + count <= self.samples.len(),
                buffer@.skip(count as int) == old(buffer)@.skip(count as int),
                forall|j: int| 0 <= j < i ==> buffer@[j] == self.samples@[start + j],
            decreases count - i,
        {
            let ghost before = buffer@;
            buffer[i] = self.samples[start + i];
            assert(buffer@.skip(count as int) =~= before.skip(count as int));
            i += 1;
        }
        self.offset = start + count;
        proof {
            assert(buffer@.take(count as int) =~= old(self).remaining().take(count as int));
            assert(self.remaining() =~= old(self).remaining().skip(count as int));
        }
        count
    }

    fn channel_count(&self) -> (count: usize) {
        self.channels
    }
}

} // verus!
