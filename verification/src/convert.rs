//! A source of one sample type played as a source of another.

use vstd::prelude::*;
use crate::arithmetic::{lemma_unary_result, unary_operation, unary_result};
use crate::source::Source;

verus! {

/// A source whose samples are those of another source, each put through a
/// conversion: what turns the codes of a decoder into the samples that a
/// mixer adds.
pub struct Converted<A, S, C> {
    source: S,
    convert: C,
    codes: Vec<A>,
    blank: A,
}

/// Each of `codes` converted.
pub open spec fn converted<A, T, C: Fn(A) -> T>(convert: C, codes: Seq<A>) -> Seq<T> {
    Seq::new(codes.len(), |i: int| unary_result(convert, codes[i]))
}

impl<A, S, C> Converted<A, S, C> {
    /// The source whose samples are converted.
    pub closed spec fn inner(&self) -> S {
        self.source
    }

    /// The conversion of one sample.
    pub closed spec fn conversion(&self) -> C {
        self.convert
    }
}

impl<A, T, S, C> Converted<A, S, C> where
    A: Copy + Send + Sync,
    T: Copy + Send + Sync,
    S: Source<A>,
    C: Fn(A) -> T + Send + Sync,
 {
    /// Wraps `source`. `blank` is any sample of the source's type; the
    /// buffer that the source writes to is laid out with it.
    pub fn new(source: S, blank: A, convert: C) -> (result: Self)
        ensures
            result.inner() == source,
            result.conversion() == convert,
            result.channels() == source.channels(),
            result.valid() <==> source.valid() && unary_operation(convert),
    {
        Converted { source, convert, codes: Vec::new(), blank }
    }

    /// What the source contract says of a converted source: it is valid when
    /// the source inside is and the conversion is usable, it has the channels
    /// and the end of the source inside, and what a pull writes is the
    /// conversion of what the source inside writes.
    pub proof fn lemma_source(&self, len: nat, written: Seq<T>)
        ensures
            self.valid() == (self.inner().valid() && unary_operation(self.conversion())),
            self.channels() == self.inner().channels(),
            self.exhausted() == self.inner().exhausted(),
            self.writes(len, written) == exists|codes: Seq<A>|
                self.inner().writes(len, codes) && written == #[trigger] converted(
                    self.conversion(),
                    codes,
                ),
            forall|next: &Self| #[trigger]
                self.leaves(len, written, next) == (next.conversion() == self.conversion()
                    && exists|codes: Seq<A>|
                    self.inner().writes(len, codes) && written == #[trigger] converted(
                        self.conversion(),
                        codes,
                    ) && self.inner().leaves(len, codes, &next.inner())),
    {
    }
}

impl<A, T, S, C> Source<T> for Converted<A, S, C> where
    A: Copy + Send + Sync,
    T: Copy + Send + Sync,
    S: Source<A>,
    C: Fn(A) -> T + Send + Sync,
 {
    /// A converted source is valid when the source inside is and the
    /// conversion is usable.
    open spec fn valid(&self) -> bool {
        self.inner().valid() && unary_operation(self.conversion())
    }

    open spec fn channels(&self) -> nat {
        self.inner().channels()
    }

    open spec fn exhausted(&self) -> bool {
        self.inner().exhausted()
    }

    open spec fn writes(&self, len: nat, written: Seq<T>) -> bool {
        exists|codes: Seq<A>|
            self.inner().writes(len, codes) && written == #[trigger] converted(
                self.conversion(),
                codes,
            )
    }

    /// A pull leaves the source inside as its own pull leaves it, and the
    /// conversion as it is.
    open spec fn leaves(&self, len: nat, written: Seq<T>, next: &Self) -> bool {
        &&& next.conversion() == self.conversion()
        &&& exists|codes: Seq<A>|
            self.inner().writes(len, codes) && written == #[trigger] converted(
                self.conversion(),
                codes,
            ) && self.inner().leaves(len, codes, &next.inner())
    }

    /// Pulls the source inside for as many samples as the buffer holds and
    /// writes the conversion of each.
    fn write_samples(&mut self, buffer: &mut [T]) -> (count: usize)
        ensures
            final(self).conversion() == old(self).conversion(),
    {
        let len: usize = buffer.len();
        self.codes.resize(len, self.blank);
        let count: usize = self.source.write_samples(self.codes.as_mut_slice());
        let mut i: usize = 0;
        while i < count
            invariant
                i <= count,
                count <= len,
                len == buffer@.len(),
                len == self.codes@.len(),
                buffer@.len() == old(buffer)@.len(),
                unary_operation(self.convert),
                forall|j: int| i <= j < buffer@.len() ==> buffer@[j] == old(buffer)@[j],
                forall|j: int|
                    0 <= j < i ==> buffer@[j] == unary_result(self.convert, self.codes@[j]),
            decreases count - i,
        {
            let sample: T = (self.convert)(self.codes[i]);
            proof {
                lemma_unary_result(self.convert, self.codes@[i as int], sample);
            }
            buffer[i] = sample;
            i += 1;
        }
        proof {
            let codes = self.codes@.take(count as int);
            assert(buffer@.take(count as int) =~= converted(self.convert, codes));
            assert(buffer@.skip(count as int) =~= old(buffer)@.skip(count as int));
        }
        count
    }

    fn channel_count(&self) -> (count: usize) {
        self.source.channel_count()
    }
}

} // verus!
