//! An additive mixer.
//!
//! The mixer is a source whose output is the sum of its children's outputs,
//! each brought to the mixer's channel count where that is trivial: a child
//! with the mixer's own channel count is added sample by sample, a child with
//! one channel is added to every channel of a frame, and a child with any
//! other channel count is pulled but adds nothing. A child that does not fill
//! what it was asked for has ended and leaves the mixer after that pull.

use vstd::prelude::*;
use crate::arithmetic::{binary_operation, binary_result, lemma_binary_result};
use crate::source::Source;

verus! {

/// The index of the child's sample that is added at `position` of the output,
/// if the child's layout is one that the mixer adds.
pub open spec fn contribution(input_channels: nat, output_channels: nat, position: int) -> Option<
    int,
> {
    if input_channels == output_channels {
        Some(position)
    } else if input_channels == 1 {
        Some(position / output_channels as int)
    } else {
        None
    }
}

/// The output after one child's samples have been added to it. Positions
/// whose sample the child did not write stay as they are.
pub open spec fn mixed_in<T, F: Fn(T, T) -> T>(
    mix: F,
    input_channels: nat,
    output_channels: nat,
    output: Seq<T>,
    pulled: Seq<T>,
) -> Seq<T> {
    Seq::new(
        output.len(),
        |position: int|
            match contribution(input_channels, output_channels, position) {
                Some(index) => if 0 <= index < pulled.len() {
                    binary_result(mix, output[position], pulled[index])
                } else {
                    output[position]
                },
                None => output[position],
            },
    )
}

/// The output of `len` samples after all children's samples have been added,
/// in the children's order, to silence.
pub open spec fn mix_all<T, F: Fn(T, T) -> T>(
    mix: F,
    silence: T,
    output_channels: nat,
    input_channels: Seq<nat>,
    pulls: Seq<Seq<T>>,
    len: nat,
) -> Seq<T>
    decreases pulls.len(),
{
    if pulls.len() == 0 {
        Seq::new(len, |position: int| silence)
    } else {
        mixed_in(
            mix,
            input_channels.last(),
            output_channels,
            mix_all(
                mix,
                silence,
                output_channels,
                input_channels.drop_last(),
                pulls.drop_last(),
                len,
            ),
            pulls.last(),
        )
    }
}

/// A mixture has the length that was asked for.
pub proof fn lemma_mixture_len<T, F: Fn(T, T) -> T>(
    mix: F,
    silence: T,
    output_channels: nat,
    input_channels: Seq<nat>,
    pulls: Seq<Seq<T>>,
    len: nat,
)
    ensures
        mix_all(mix, silence, output_channels, input_channels, pulls, len).len() == len,
    decreases pulls.len(),
{
    if pulls.len() > 0 {
        lemma_mixture_len(
            mix,
            silence,
            output_channels,
            input_channels.drop_last(),
            pulls.drop_last(),
            len,
        );
    }
}

/// The number of samples asked of a child for an output of `len` samples:
/// as many frames as the output has.
pub open spec fn request(len: nat, output_channels: nat, input_channels: nat) -> nat {
    (len / output_channels) * input_channels
}

/// The positions of the flags that are set, in rising order.
pub open spec fn positions(flags: Seq<bool>) -> Seq<int>
    decreases flags.len(),
{
    if flags.len() == 0 {
        Seq::empty()
    } else if flags.last() {
        positions(flags.drop_last()).push(flags.len() - 1)
    } else {
        positions(flags.drop_last())
    }
}

/// Adds the first `count` samples of `input`, a child's frames of
/// `input_channels` samples, to `output`, frames of `output_channels`.
pub fn accumulate<T: Copy, F: Fn(T, T) -> T>(
    mix: &F,
    output: &mut [T],
    input: &[T],
    count: usize,
    input_channels: usize,
    output_channels: usize,
)
    requires
        binary_operation(*mix),
        count <= input@.len(),
        output_channels >= 1,
    ensures
        final(output)@ == mixed_in(
            *mix,
            input_channels as nat,
            output_channels as nat,
            old(output)@,
            input@.take(count as int),
        ),
{
    let ghost pulled = input@.take(count as int);
    if input_channels == output_channels {
        // Firstly, if the input and output channel counts are the same, pass straight through.
        let limit: usize = if count <= output.len() {
            count
        } else {
            output.len()
        };
        let mut i: usize = 0;
        while i < limit
            invariant
                binary_operation(*mix),
                i <= limit,
                limit <= count,
                limit <= output@.len(),
                count <= input@.len(),
                output@.len() == old(output)@.len(),
                forall|j: int| i <= j < output@.len() ==> output@[j] == old(output)@[j],
                forall|j: int|
                    0 <= j < i ==> output@[j] == binary_result(*mix, old(output)@[j], input@[j]),
            decreases limit - i,
        {
            let sum: T = mix(output[i], input[i]);
            proof {
                lemma_binary_result(*mix, output@[i as int], input@[i as int], sum);
            }
            output[i] = sum;
            i += 1;
        }
        assert(output@ =~= mixed_in(
            *mix,
            input_channels as nat,
            output_channels as nat,
            old(output)@,
            pulled,
        ));
    } else if input_channels == 1 {
        // Next, if the input is 1-channel, add the next sample to all output channels.
        let total: usize = output.len();
        let mut position: usize = 0;
        let mut i: usize = 0;
        let mut channel: usize = 0;
        while position < total && i < count
            invariant
                binary_operation(*mix),
                output_channels >= 1,
                count <= input@.len(),
                total == output@.len(),
                output@.len() == old(output)@.len(),
                position <= total,
                i <= count,
                i == count ==> channel == 0,
                channel < output_channels,
                position == i * output_channels + channel,
                forall|j: int| position <= j < output@.len() ==> output@[j] == old(output)@[j],
                forall|j: int|
                    0 <= j < position ==> output@[j] == binary_result(
                        *mix,
                        old(output)@[j],
                        input@[j / output_channels as int],
                    ),
            decreases total - position,
        {
            proof {
                lemma_frame_of(i as int, output_channels as int, channel as int);
            }
            let sum: T = mix(output[position], input[i]);
            proof {
                lemma_binary_result(*mix, output@[position as int], input@[i as int], sum);
            }
            output[position] = sum;
            position += 1;
            channel += 1;
            if channel == output_channels {
                channel = 0;
                i += 1;
                assert(position == i * output_channels + channel) by (nonlinear_arith)
                    requires
                        position == (i - 1) * output_channels + output_channels,
                        channel == 0,
                ;
            }
        }
        proof {
            let result = mixed_in(
                *mix,
                input_channels as nat,
                output_channels as nat,
                old(output)@,
                pulled,
            );
            assert forall|j: int| 0 <= j < output@.len() implies output@[j] == result[j] by {
                if j < position {
                    lemma_frame_bound(j, output_channels as int, i as int, channel as int);
                } else {
                    lemma_frame_of(i as int, output_channels as int, channel as int);
                    vstd::arithmetic::div_mod::lemma_div_is_ordered(
                        position as int,
                        j,
                        output_channels as int,
                    );
                }
            }
            assert(output@ =~= result);
        }
    } else {
        // Different multi-channel counts: the child adds nothing.
        assert(output@ =~= mixed_in(
            *mix,
            input_channels as nat,
            output_channels as nat,
            old(output)@,
            pulled,
        ));
    }
}

/// A simple additive mixer. Mixes any number of input streams into one output
/// stream. Designed to be attached to an output device and left there for the
/// entire lifetime of the application. The mixer does not care what the input
/// or output sample rates are, so all of its sources should have the same
/// sample rate; a resampler changes a source's rate.
pub struct Mixer<T, S, F> {
    channels: usize,
    sources: Vec<S>,
    input_buffer: Vec<T>,
    silence: T,
    mix: F,
}

impl<T, S, F> Mixer<T, S, F> where
    T: Copy + Send + Sync,
    S: Source<T>,
    F: Fn(T, T) -> T + Send + Sync,
 {
    /// The children, in the order in which they were added.
    pub closed spec fn children(&self) -> Seq<S> {
        self.sources@
    }

    /// The channel count of the output.
    pub closed spec fn output_channels(&self) -> nat {
        self.channels as nat
    }

    /// The operation that sums two samples.
    pub closed spec fn operation(&self) -> F {
        self.mix
    }

    /// The sample that an output starts from.
    pub closed spec fn rest(&self) -> T {
        self.silence
    }

    /// The invariant of the mixer: at least one output channel, a usable sum,
    /// and valid children.
    pub open spec fn well_formed(&self) -> bool {
        &&& self.output_channels() >= 1
        &&& binary_operation(self.operation())
        &&& forall|j: int|
            0 <= j < self.children().len() ==> (#[trigger] self.children()[j]).valid()
    }

    /// What no pull changes.
    pub open spec fn same_setup(&self, other: &Self) -> bool {
        &&& self.output_channels() == other.output_channels()
        &&& self.operation() == other.operation()
        &&& self.rest() == other.rest()
    }

    /// The channel counts of the children.
    pub open spec fn layouts(&self) -> Seq<nat> {
        Seq::new(self.children().len(), |j: int| self.children()[j].channels())
    }

    /// The number of samples asked of child `j` for an output of `len`.
    pub open spec fn asks(&self, len: nat, j: int) -> nat {
        request(len, self.output_channels(), self.children()[j].channels())
    }

    /// Whether `pull` may be what child `j` writes when the mixer is pulled
    /// for `len` samples. A child whose request is too large to be counted is
    /// not pulled.
    pub open spec fn pull_of(&self, len: nat, j: int, pull: Seq<T>) -> bool {
        if self.asks(len, j) <= usize::MAX {
            self.children()[j].writes(self.asks(len, j), pull)
        } else {
            pull.len() == 0
        }
    }

    /// Whether `pulls` may be what the children write, one entry per child,
    /// when the mixer is pulled for `len` samples.
    pub open spec fn pulled(&self, len: nat, pulls: Seq<Seq<T>>) -> bool {
        &&& pulls.len() == self.children().len()
        &&& forall|j: int| 0 <= j < pulls.len() ==> self.pull_of(len, j, #[trigger] pulls[j])
    }

    /// For each child, whether it wrote all that it was asked for.
    pub open spec fn filled(&self, len: nat, pulls: Seq<Seq<T>>) -> Seq<bool> {
        Seq::new(pulls.len(), |j: int| pulls[j].len() == self.asks(len, j))
    }

    /// The output of `len` samples when the children write `pulls`.
    pub open spec fn mixture(&self, len: nat, pulls: Seq<Seq<T>>) -> Seq<T> {
        mix_all(self.operation(), self.rest(), self.output_channels(), self.layouts(), pulls, len)
    }

    /// Whether the children of `after` are those children of `self` that
    /// filled what they were asked for when the children wrote `pulls`, in
    /// their order, each as its pull left it.
    pub open spec fn keeps(&self, after: &Self, len: nat, pulls: Seq<Seq<T>>) -> bool {
        let kept = positions(self.filled(len, pulls));
        &&& after.children().len() == kept.len()
        &&& forall|k: int| 0 <= k < kept.len() ==> 0 <= #[trigger] kept[k] < self.children().len()
        &&& forall|k: int|
            0 <= k < kept.len() ==> {
                let child = self.children()[kept[k]];
                let later = #[trigger] after.children()[k];
                &&& later.valid()
                &&& later.channels() == child.channels()
                &&& child.exhausted() ==> later.exhausted()
                &&& child.leaves(self.asks(len, kept[k]), pulls[kept[k]], &later)
            }
    }

    /// Constructs a new Mixer. `channels` is the number of channels wanted in
    /// the output data, `silence` the sample that an output starts from and
    /// `mix` the sum of two samples.
    pub fn new(channels: usize, silence: T, mix: F) -> (mixer: Self)
        ensures
            mixer.output_channels() == channels,
            mixer.rest() == silence,
            mixer.operation() == mix,
            mixer.children() == Seq::<S>::empty(),
            mixer.channels() == channels,
            mixer.valid() <==> channels >= 1 && binary_operation(mix),
    {
        Self { channels, sources: Vec::new(), input_buffer: Vec::new(), silence, mix }
    }

    /// Adds a new source to be mixed into this Mixer's output.
    /// The Mixer will play from this Source until it is exhausted, then discard it.
    pub fn add_source(&mut self, source: S)
        requires
            old(self).valid(),
            source.valid(),
        ensures
            final(self).valid(),
            final(self).channels() == old(self).channels(),
            final(self).same_setup(old(self)),
            final(self).children() == old(self).children().push(source),
    {
        self.sources.push(source);
        assert forall|j: int| 0 <= j < self.children().len() implies (
        #[trigger] self.children()[j]).valid() by {
            if j < old(self).children().len() {
                assert(self.children()[j] == old(self).children()[j]);
            }
        }
    }
}

impl<T, S, F> Source<T> for Mixer<T, S, F> where
    T: Copy + Send + Sync,
    S: Source<T>,
    F: Fn(T, T) -> T + Send + Sync,
 {
    open spec fn valid(&self) -> bool {
        self.well_formed()
    }

    open spec fn channels(&self) -> nat {
        self.output_channels()
    }

    /// A mixer never ends: with no children left it plays silence.
    open spec fn exhausted(&self) -> bool {
        false
    }

    open spec fn writes(&self, len: nat, written: Seq<T>) -> bool {
        exists|pulls: Seq<Seq<T>>|
            self.pulled(len, pulls) && written == #[trigger] self.mixture(len, pulls)
    }

    /// A pull leaves the mixer with the children that filled what they were
    /// asked for, each as its one pull left it, and with nothing else
    /// changed.
    open spec fn leaves(&self, len: nat, written: Seq<T>, next: &Self) -> bool {
        &&& next.same_setup(self)
        &&& exists|pulls: Seq<Seq<T>>|
            self.pulled(len, pulls) && written == #[trigger] self.mixture(len, pulls)
                && self.keeps(next, len, pulls)
    }

    /// Fills the buffer with the sum of what the children write. Each child
    /// is asked for as many frames as the buffer holds; a child that writes
    /// less is dropped after its samples have been added. A child whose
    /// request would not fit in a `usize` is dropped without being asked.
    fn write_samples(&mut self, buffer: &mut [T]) -> (count: usize)
        ensures
            count == old(buffer)@.len(),
            final(self).same_setup(old(self)),
            (exists|pulls: Seq<Seq<T>>|
                old(self).pulled(old(buffer)@.len(), pulls) && final(buffer)@
                    == #[trigger] old(self).mixture(old(buffer)@.len(), pulls) && old(self).keeps(
                    final(self),
                    old(buffer)@.len(),
                    pulls,
                )),
    {
        let len: usize = buffer.len();
        let output_channel_count: usize = self.channels;
        let mut cleared: usize = 0;
        while cleared < len
            invariant
                *self == *old(self),
                cleared <= len,
                len == buffer@.len(),
                forall|j: int| 0 <= j < cleared ==> buffer@[j] == self.silence,
            decreases len - cleared,
        {
            buffer[cleared] = self.silence;
            cleared += 1;
        }
        let frames: usize = len / output_channel_count;
        let ghost before = *old(self);
        let ghost total = before.sources@.len() as int;
        let ghost mut pulls: Seq<Seq<T>> = Seq::empty();
        let ghost mut flags: Seq<bool> = Seq::empty();
        let ghost mut done: int = 0;
        proof {
            assert(buffer@ =~= mix_all(
                self.mix,
                self.silence,
                self.channels as nat,
                before.layouts().take(0),
                pulls,
                len as nat,
            ));
        }
        let mut i: usize = 0;
        while i < self.sources.len()
            invariant
                before == *old(self),
                before.well_formed(),
                total == before.sources@.len(),
                self.channels == before.channels,
                self.mix == before.mix,
                self.silence == before.silence,
                output_channel_count == self.channels,
                frames == len / output_channel_count,
                len == buffer@.len(),
                0 <= i <= done <= total,
                self.sources@.len() == i + (total - done),
                forall|k: int|
                    0 <= k < self.sources@.len() ==> (#[trigger] self.sources@[k]).valid(),
                forall|k: int|
                    i <= k < self.sources@.len() ==> #[trigger] self.sources@[k]
                        == before.sources@[done + (k - i)],
                pulls.len() == done,
                flags.len() == done,
                forall|j: int| 0 <= j < done ==> before.pull_of(len as nat, j, #[trigger] pulls[j]),
                forall|j: int|
                    0 <= j < done ==> (#[trigger] flags[j]) == (pulls[j].len() == before.asks(
                        len as nat,
                        j,
                    )),
                positions(flags).len() == i,
                forall|k: int| 0 <= k < i ==> 0 <= #[trigger] positions(flags)[k] < done,
                forall|k: int|
                    0 <= k < i ==> {
                        let child = before.sources@[positions(flags)[k]];
                        let later = #[trigger] self.sources@[k];
                        &&& later.channels() == child.channels()
                        &&& child.exhausted() ==> later.exhausted()
                        &&& child.leaves(
                            before.asks(len as nat, positions(flags)[k]),
                            pulls[positions(flags)[k]],
                            &later,
                        )
                    },
                buffer@ == mix_all(
                    self.mix,
                    self.silence,
                    self.channels as nat,
                    before.layouts().take(done),
                    pulls,
                    len as nat,
                ),
            decreases total - done,
        {
            let ghost child = self.sources@[i as int];
            let ghost earlier = self.sources@;
            assert(child == before.sources@[done]);
            let source_channel_count: usize = self.sources[i].channel_count();
            let mut keep: bool = false;
            let ghost mut pull: Seq<T> = Seq::empty();
            match frames.checked_mul(source_channel_count) {
                Some(wanted) => {
                    self.input_buffer.resize(wanted, self.silence);
                    proof {
                        vstd::arithmetic::div_mod::lemma_mod_multiples_basic(
                            frames as int,
                            source_channel_count as int,
                        );
                    }
                    let written: usize = self.sources[i].write_samples(
                        self.input_buffer.as_mut_slice(),
                    );
                    accumulate(
                        &self.mix,
                        buffer,
                        self.input_buffer.as_slice(),
                        written,
                        source_channel_count,
                        output_channel_count,
                    );
                    proof {
                        pull = self.input_buffer@.take(written as int);
                    }
                    keep = written == wanted;
                },
                None => {},
            }
            proof {
                assert(before.pull_of(len as nat, done, pull));
                assert(keep == (pull.len() == before.asks(len as nat, done)));
                let layouts = before.layouts().take(done + 1);
                assert(layouts.drop_last() =~= before.layouts().take(done));
                assert(pulls.push(pull).drop_last() =~= pulls);
                assert(flags.push(keep).drop_last() =~= flags);
                assert(layouts.last() == child.channels());
            }
            let ghost pulled = self.sources@;
            let ghost kept = positions(flags);
            if keep {
                i += 1;
            } else {
                let ended: S = self.sources.remove(i);
            }
            let ghost former = pulls;
            proof {
                pulls = pulls.push(pull);
                flags = flags.push(keep);
                done = done + 1;
                assert(positions(flags) == if keep {
                    kept.push(done - 1)
                } else {
                    kept
                });
                assert forall|k: int| 0 <= k < i implies {
                    let child = before.sources@[positions(flags)[k]];
                    let later = #[trigger] self.sources@[k];
                    &&& later.channels() == child.channels()
                    &&& child.exhausted() ==> later.exhausted()
                    &&& child.leaves(
                        before.asks(len as nat, positions(flags)[k]),
                        pulls[positions(flags)[k]],
                        &later,
                    )
                } by {
                    assert(self.sources@[k] == pulled[k]);
                    if k < kept.len() {
                        assert(pulled[k] == earlier[k]);
                        assert(positions(flags)[k] == kept[k]);
                        assert(pulls[kept[k]] == former[kept[k]]);
                    }
                }
                assert forall|k: int| 0 <= k < i implies 0 <= #[trigger] positions(flags)[k]
                    < done by {
                    if k < kept.len() {
                        assert(positions(flags)[k] == kept[k]);
                    }
                }
            }
        }
        proof {
            assert(before.layouts().take(done) =~= before.layouts());
            assert(flags =~= before.filled(len as nat, pulls));
            assert(before.pulled(len as nat, pulls));
            assert(buffer@ == before.mixture(len as nat, pulls));
            assert(before.keeps(&*self, len as nat, pulls));
            assert(buffer@.take(len as int) =~= buffer@);
        }
        len
    }

    fn channel_count(&self) -> (count: usize) {
        self.channels
    }
}

/// The kept positions are exactly the positions of the set flags, each once
/// and in rising order: what was first stays first, and nothing whose flag
/// is clear is kept.
pub proof fn lemma_positions(flags: Seq<bool>)
    ensures
        positions(flags).len() <= flags.len(),
        forall|k: int|
            0 <= k < positions(flags).len() ==> 0 <= #[trigger] positions(flags)[k] < flags.len()
                && flags[positions(flags)[k]],
        forall|k: int, l: int|
            0 <= k < l < positions(flags).len() ==> #[trigger] positions(flags)[k]
                < #[trigger] positions(flags)[l],
        forall|j: int|
            0 <= j < flags.len() && #[trigger] flags[j] ==> positions(flags).contains(j),
    decreases flags.len(),
{
    if flags.len() > 0 {
        let front = flags.drop_last();
        lemma_positions(front);
        let kept = positions(flags);
        assert forall|j: int| 0 <= j < flags.len() && #[trigger] flags[j] implies kept.contains(
            j,
        ) by {
            if j < front.len() {
                assert(front[j]);
                let k = choose|k: int| 0 <= k < positions(front).len() && positions(front)[k] == j;
                assert(kept[k] == j);
            } else {
                assert(kept[kept.len() - 1] == j);
            }
        }
    }
}

impl<T, S, F> Mixer<T, S, F> where
    T: Copy + Send + Sync,
    S: Source<T>,
    F: Fn(T, T) -> T + Send + Sync,
 {
    /// What the mixer's side of the source contract says of a mixer: it is
    /// valid when it is well formed, it has the channel count of its output,
    /// it never ends, and what a pull writes is the mixture of what the
    /// children write.
    pub proof fn lemma_source(&self, len: nat, written: Seq<T>)
        ensures
            self.valid() == self.well_formed(),
            self.channels() == self.output_channels(),
            !self.exhausted(),
            self.writes(len, written) == exists|pulls: Seq<Seq<T>>|
                self.pulled(len, pulls) && written == #[trigger] self.mixture(len, pulls),
            self.writes(len, written) ==> written.len() == len,
            forall|next: &Self| #[trigger]
                self.leaves(len, written, next) == (next.same_setup(self) && exists|
                    pulls: Seq<Seq<T>>,
                |
                    self.pulled(len, pulls) && written == #[trigger] self.mixture(len, pulls)
                        && self.keeps(next, len, pulls)),
    {
        if self.writes(len, written) {
            let pulls = choose|pulls: Seq<Seq<T>>|
                self.pulled(len, pulls) && written == #[trigger] self.mixture(len, pulls);
            lemma_mixture_len(
                self.operation(),
                self.rest(),
                self.output_channels(),
                self.layouts(),
                pulls,
                len,
            );
        }
    }

    /// Mixing is additive: with two children of the mixer's own channel
    /// count, neither of which comes back short, every output sample is
    /// silence plus the first child's sample plus the second child's.
    pub proof fn lemma_two_children_add(&self, len: nat, pulls: Seq<Seq<T>>, position: int)
        requires
            self.children().len() == 2,
            self.children()[0].channels() == self.output_channels(),
            self.children()[1].channels() == self.output_channels(),
            pulls.len() == 2,
            pulls[0].len() == len,
            pulls[1].len() == len,
            0 <= position < len,
        ensures
            self.mixture(len, pulls)[position] == binary_result(
                self.operation(),
                binary_result(self.operation(), self.rest(), pulls[0][position]),
                pulls[1][position],
            ),
    {
        let layouts = self.layouts();
        let front = pulls.drop_last();
        assert(front.drop_last().len() == 0);
        assert(front.last() == pulls[0]);
        assert(layouts.drop_last().last() == self.output_channels());
        reveal_with_fuel(mix_all, 3);
    }

    /// A child with one channel is added to every channel of the frame: with
    /// a single mono child that has not come back short, the output sample
    /// at `position` is silence plus the child's sample for that frame.
    pub proof fn lemma_mono_child_spreads(&self, len: nat, pulls: Seq<Seq<T>>, position: int)
        requires
            self.children().len() == 1,
            self.children()[0].channels() == 1,
            self.output_channels() >= 1,
            pulls.len() == 1,
            pulls[0].len() == self.asks(len, 0),
            len % self.output_channels() == 0,
            0 <= position < len,
        ensures
            0 <= position / (self.output_channels() as int) < pulls[0].len(),
            self.mixture(len, pulls)[position] == binary_result(
                self.operation(),
                self.rest(),
                pulls[0][position / (self.output_channels() as int)],
            ),
    {
        let channels = self.output_channels() as int;
        vstd::arithmetic::div_mod::lemma_fundamental_div_mod(len as int, channels);
        vstd::arithmetic::div_mod::lemma_div_pos_is_pos(position, channels);
        vstd::arithmetic::div_mod::lemma_div_by_multiple_is_strongly_ordered(
            position,
            len as int,
            len as int / channels,
            channels,
        );
        assert(self.asks(len, 0) == len as int / channels) by (nonlinear_arith)
            requires
                self.asks(len, 0) == (len as int / channels) * 1,
        ;
        assert(pulls.drop_last().len() == 0);
        assert(self.layouts().last() == 1);
        assert(pulls.last() == pulls[0]);
        reveal_with_fuel(mix_all, 2);
        let base = mix_all(
            self.operation(),
            self.rest(),
            self.output_channels(),
            self.layouts().drop_last(),
            pulls.drop_last(),
            len,
        );
        assert(base[position] == self.rest());
        assert(self.mixture(len, pulls) == mixed_in(
            self.operation(),
            1,
            self.output_channels(),
            base,
            pulls[0],
        ));
        if channels == 1 {
            assert(position / 1 == position) by (nonlinear_arith);
        }
    }
}

/// The frame of position `frame * channels + channel` is `frame`.
pub proof fn lemma_frame_of(frame: int, channels: int, channel: int)
    requires
        0 <= frame,
        0 <= channel < channels,
    ensures
        (frame * channels + channel) / channels == frame,
{
    vstd::arithmetic::div_mod::lemma_fundamental_div_mod_converse(
        frame * channels + channel,
        channels,
        frame,
        channel,
    );
}

/// A position before `frame * channels + channel` lies in frame `frame` or an
/// earlier one, and before `frame` if `channel` is 0.
pub proof fn lemma_frame_bound(position: int, channels: int, frame: int, channel: int)
    requires
        0 <= position < frame * channels + channel,
        0 <= frame,
        0 <= channel < channels,
    ensures
        0 <= position / channels <= frame,
        channel == 0 ==> position / channels < frame,
{
    lemma_frame_of(frame, channels, channel);
    vstd::arithmetic::div_mod::lemma_div_is_ordered(
        position,
        frame * channels + channel,
        channels,
    );
    vstd::arithmetic::div_mod::lemma_div_pos_is_pos(position, channels);
    if channel == 0 && frame > 0 {
        lemma_frame_of(frame - 1, channels, channels - 1);
        assert((frame - 1) * channels + (channels - 1) == frame * channels - 1)
            by (nonlinear_arith);
        vstd::arithmetic::div_mod::lemma_div_is_ordered(
            position,
            frame * channels - 1,
            channels,
        );
    }
}

} // verus!
