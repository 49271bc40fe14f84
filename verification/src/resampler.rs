//! A streaming polyphase resampler.
//!
//! The resampler wraps a source and plays it at another sample rate. It keeps
//! a sliding window of the source's samples in two buffers of equal size and
//! computes each output sample as the inner product of a stretch of that
//! window with every `to`-th entry of a filter table, where `from / to` is
//! the reduced ratio of the two rates.
//!
//! The table's entries, the accumulator they are summed in and the rounding of
//! the sum back to a sample come from the caller.

use vstd::prelude::*;
use crate::arithmetic::{
    lemma_ternary_result, lemma_unary_result, ternary_operation, ternary_result, unary_operation,
    unary_result,
};
use crate::source::{joined, pulls_in_turn, Source};

verus! {

/// The number of input frames under the filter, and of table entries per
/// phase.
pub const FILTER_SIZE: usize = 60;

/// The greatest common divisor, by Euclid's rule.
pub open spec fn gcd(a: nat, b: nat) -> nat
    decreases b,
{
    if b == 0 {
        a
    } else {
        gcd(b, a % b)
    }
}

/// The offset of the table's centre: half the filter, in table entries.
pub open spec fn centre(to: int) -> int {
    (FILTER_SIZE / 2) * to
}

/// The place of output sample `n` on the grid that is `to` times finer than
/// the input's.
pub open spec fn grid_position(from: int, to: int, channels: int, n: int) -> int {
    centre(to) + from * (n / channels)
}

/// The newest input frame under the filter for output sample `n`.
pub open spec fn input_frame(from: int, to: int, channels: int, n: int) -> int {
    grid_position(from, to, channels, n) / to
}

/// The table entry that meets the newest input frame for output sample `n`.
pub open spec fn phase(from: int, to: int, channels: int, n: int) -> int {
    grid_position(from, to, channels, n) % to
}

/// The index, in the source's whole output, of the newest input sample under
/// the filter for output sample `n`: the sample of the same channel in the
/// newest frame.
pub open spec fn newest_input(from: int, to: int, channels: int, n: int) -> int {
    input_frame(from, to, channels, n) * channels + n % channels
}

/// How many input frames the filter covers when `frame` is the newest: all of
/// the filter, or what there is at the start of the input.
pub open spec fn tap_count(frame: int) -> int {
    if frame + 1 < FILTER_SIZE {
        frame + 1
    } else {
        FILTER_SIZE as int
    }
}

/// The index of the input sample that tap `tap` reads when tap 0 reads
/// `newest`: one frame back for each tap.
pub open spec fn tap_index(newest: int, channels: int, tap: int) -> int {
    newest - tap * channels
}

/// The inner product of `taps` input samples with table entries: the sample
/// at `newest` meets the entry at `phase`, each earlier frame the entry `to`
/// further on, and the products are accumulated from the newest sample back.
pub open spec fn inner_product<T, W, M: Fn(W, T, W) -> W>(
    accumulate: M,
    zero: W,
    input: Seq<T>,
    table: Seq<W>,
    newest: int,
    channels: int,
    phase: int,
    to: int,
    taps: nat,
) -> W
    decreases taps,
{
    if taps == 0 {
        zero
    } else {
        let tap = taps - 1;
        ternary_result(
            accumulate,
            inner_product(
                accumulate,
                zero,
                input,
                table,
                newest,
                channels,
                phase,
                to,
                tap as nat,
            ),
            input[tap_index(newest, channels, tap)],
            table[phase + tap * to],
        )
    }
}

/// Two inputs that agree where the filter looks give the same inner product.
pub proof fn lemma_inner_product_agrees<T, W, M: Fn(W, T, W) -> W>(
    accumulate: M,
    zero: W,
    input: Seq<T>,
    other: Seq<T>,
    shift: int,
    table: Seq<W>,
    newest: int,
    channels: int,
    phase: int,
    to: int,
    taps: nat,
)
    requires
        forall|tap: int|
            0 <= tap < taps ==> input[#[trigger] tap_index(newest, channels, tap)] == other[shift
                + tap_index(newest, channels, tap)],
    ensures
        inner_product(accumulate, zero, input, table, newest, channels, phase, to, taps)
            == inner_product(
            accumulate,
            zero,
            other,
            table,
            shift + newest,
            channels,
            phase,
            to,
            taps,
        ),
    decreases taps,
{
    if taps > 0 {
        let tap = taps - 1;
        lemma_inner_product_agrees(
            accumulate,
            zero,
            input,
            other,
            shift,
            table,
            newest,
            channels,
            phase,
            to,
            tap as nat,
        );
        assert(tap_index(shift + newest, channels, tap) == shift + tap_index(
            newest,
            channels,
            tap,
        ));
    }
}

/// Output sample `n` of a resampler over `input`: the rounded inner product
/// of the filter with the input frames that end at the newest one for `n`.
pub open spec fn resampled<T, W, M: Fn(W, T, W) -> W, N: Fn(W) -> T>(
    accumulate: M,
    narrow: N,
    zero: W,
    input: Seq<T>,
    table: Seq<W>,
    from: int,
    to: int,
    channels: int,
    n: int,
) -> T {
    unary_result(
        narrow,
        inner_product(
            accumulate,
            zero,
            input,
            table,
            newest_input(from, to, channels, n),
            channels,
            phase(from, to, channels, n),
            to,
            tap_count(input_frame(from, to, channels, n)) as nat,
        ),
    )
}

/// The filter's output for one sample: the rounded inner product of `taps`
/// samples of the window with table entries. The window is `older` followed
/// by `newer`; the sample at `newest` meets the table entry at `phase`, and
/// each tap goes `channels` samples back in the window and `to` entries on in
/// the table.
pub fn convolve<T: Copy, W: Copy, M: Fn(W, T, W) -> W, N: Fn(W) -> T>(
    accumulate: &M,
    narrow: &N,
    zero: W,
    older: &[T],
    newer: &[T],
    table: &[W],
    newest: usize,
    phase: usize,
    channels: usize,
    to: usize,
    taps: usize,
) -> (sample: T)
    requires
        ternary_operation(*accumulate),
        unary_operation(*narrow),
        taps >= 1,
        (taps - 1) * channels <= newest,
        newest < older@.len() + newer@.len(),
        phase + (taps - 1) * to < table@.len(),
    ensures
        sample == unary_result(
            *narrow,
            inner_product(
                *accumulate,
                zero,
                older@ + newer@,
                table@,
                newest as int,
                channels as int,
                phase as int,
                to as int,
                taps as nat,
            ),
        ),
{
    let mut sum: W = zero;
    let mut tap: usize = 0;
    while tap < taps
        invariant
            ternary_operation(*accumulate),
            (taps - 1) * channels <= newest,
            newest < older@.len() + newer@.len(),
            phase + (taps - 1) * to < table@.len(),
            tap <= taps,
            sum == inner_product(
                *accumulate,
                zero,
                older@ + newer@,
                table@,
                newest as int,
                channels as int,
                phase as int,
                to as int,
                tap as nat,
            ),
        decreases taps - tap,
    {
        assert(0 <= tap * channels <= (taps - 1) * channels) by (nonlinear_arith)
            requires
                0 <= tap <= taps - 1,
                channels >= 0,
        ;
        assert(0 <= tap * to <= (taps - 1) * to) by (nonlinear_arith)
            requires
                0 <= tap <= taps - 1,
                to >= 0,
        ;
        assert(table@.len() == table.len());
        let index: usize = newest - tap * channels;
        let sample: T = if index < older.len() {
            older[index]
        } else {
            newer[index - older.len()]
        };
        let entry: W = table[phase + tap * to];
        let next: W = accumulate(sum, sample, entry);
        proof {
            assert(sample == (older@ + newer@)[tap_index(
                newest as int,
                channels as int,
                tap as int,
            )]);
            lemma_ternary_result(*accumulate, sum, sample, entry, next);
        }
        sum = next;
        tap += 1;
    }
    let sample: T = narrow(sum);
    proof {
        lemma_unary_result(*narrow, sum, sample);
    }
    sample
}

/// The greatest common divisor of two numbers that are not both zero is
/// positive and divides both.
pub proof fn lemma_gcd_divides(a: nat, b: nat)
    requires
        a > 0 || b > 0,
    ensures
        gcd(a, b) > 0,
        a % gcd(a, b) == 0,
        b % gcd(a, b) == 0,
    decreases b,
{
    if b == 0 {
        vstd::arithmetic::div_mod::lemma_mod_self_0(a as int);
    } else {
        let r = a % b;
        lemma_gcd_divides(b, r);
        let g = gcd(b, r) as int;
        let q = (a / b) as int;
        vstd::arithmetic::div_mod::lemma_fundamental_div_mod(a as int, b as int);
        vstd::arithmetic::div_mod::lemma_fundamental_div_mod(b as int, g);
        vstd::arithmetic::div_mod::lemma_fundamental_div_mod(r as int, g);
        let kb = b as int / g;
        let kr = r as int / g;
        assert(a == (kb * q + kr) * g) by (nonlinear_arith)
            requires
                a == b * q + r,
                b == g * kb,
                r == g * kr,
        ;
        vstd::arithmetic::div_mod::lemma_mod_multiples_basic(kb * q + kr, g);
    }
}

/// Scaling both numbers scales their greatest common divisor.
pub proof fn lemma_gcd_scales(k: nat, a: nat, b: nat)
    requires
        k > 0,
    ensures
        gcd(k * a, k * b) == k * gcd(a, b),
    decreases b,
{
    if b == 0 {
        assert(k * b == 0) by (nonlinear_arith)
            requires
                b == 0,
        ;
    } else {
        vstd::arithmetic::div_mod::lemma_truncate_middle(a as int, k as int, b as int);
        assert(k * b > 0) by (nonlinear_arith)
            requires
                k > 0,
                b > 0,
        ;
        lemma_gcd_scales(k, b, a % b);
        assert(gcd(k * a, k * b) == gcd(k * b, ((k * a) % (k * b)) as nat));
    }
}

/// Two positive numbers divided by their greatest common divisor have no
/// common divisor left.
pub proof fn lemma_reduced_ratio(a: nat, b: nat)
    requires
        a > 0,
        b > 0,
    ensures
        gcd(a, b) > 0,
        a / gcd(a, b) >= 1,
        b / gcd(a, b) >= 1,
        gcd(a / gcd(a, b), b / gcd(a, b)) == 1,
{
    lemma_gcd_divides(a, b);
    let g = gcd(a, b);
    vstd::arithmetic::div_mod::lemma_fundamental_div_mod(a as int, g as int);
    vstd::arithmetic::div_mod::lemma_fundamental_div_mod(b as int, g as int);
    let x = a / g;
    let y = b / g;
    assert(x >= 1 && y >= 1) by (nonlinear_arith)
        requires
            a == g * x,
            b == g * y,
            a > 0,
            b > 0,
            g > 0,
    ;
    lemma_gcd_scales(g, x, y);
    assert(gcd(x, y) == 1) by (nonlinear_arith)
        requires
            g == g * gcd(x, y),
            g > 0,
    ;
}

/// The greatest common divisor of two rates.
pub fn greatest_common_divisor(a: u32, b: u32) -> (divisor: u32)
    ensures
        divisor == gcd(a as nat, b as nat),
{
    let mut x: u32 = a;
    let mut y: u32 = b;
    while y != 0
        invariant
            gcd(x as nat, y as nat) == gcd(a as nat, b as nat),
        decreases y,
    {
        let r: u32 = x % y;
        x = y;
        y = r;
    }
    x
}

/// A resampler over a source of type `S` with samples of type `T`, which
/// accumulates in `W`. Construct with `Resampler::new`; once constructed, it
/// behaves as a source that hands out samples at the target rate.
pub struct Resampler<S, T, W, M, N> {
    source: S,
    from: u32,
    to: u32,
    left_offset: usize,
    kaiser_values: Vec<W>,
    filter_1: Vec<T>,
    filter_2: Vec<T>,
    // The size of the entire filter including both buffers
    whole_filter_size: usize,
    // The size of each individual buffer
    buffer_size: usize,
    // How many input frames were already discarded before the start of the current filter
    input_offset: u128,
    // How many output samples have been written so far
    output_count: u64,
    // The last valid sample in the filter, if the source ended and wasn't able to fill the entire buffer
    last_sample: Option<usize>,
    zero: W,
    accumulate: M,
    narrow: N,
    // Everything read from the source so far
    history: Ghost<Seq<T>>,
}

impl<S, T, W, M, N> Resampler<S, T, W, M, N> where
    S: Source<T>,
    T: Copy + Send + Sync,
    W: Copy + Send + Sync,
    M: Fn(W, T, W) -> W + Send + Sync,
    N: Fn(W) -> T + Send + Sync,
 {
    /// The source's rate over the target rate, in lowest terms.
    pub closed spec fn ratio(&self) -> (nat, nat) {
        (self.from as nat, self.to as nat)
    }

    /// The filter table.
    pub closed spec fn table(&self) -> Seq<W> {
        self.kaiser_values@
    }

    /// Everything read from the source so far, in order.
    pub closed spec fn input(&self) -> Seq<T> {
        self.history@
    }

    /// The number of samples handed out so far.
    pub closed spec fn emitted(&self) -> nat {
        self.output_count as nat
    }

    /// Whether the source has come back short.
    pub closed spec fn ended(&self) -> bool {
        self.last_sample is Some
    }

    /// The wrapped source.
    pub closed spec fn inner(&self) -> S {
        self.source
    }

    /// The operation that adds one product to the accumulator.
    pub closed spec fn accumulator(&self) -> M {
        self.accumulate
    }

    /// The operation that rounds an accumulated sum to a sample.
    pub closed spec fn rounding(&self) -> N {
        self.narrow
    }

    /// The empty sum.
    pub closed spec fn empty_sum(&self) -> W {
        self.zero
    }

    /// What stays as it is from construction on.
    pub open spec fn same_setup(&self, other: &Self) -> bool {
        &&& self.ratio() == other.ratio()
        &&& self.table() == other.table()
        &&& self.accumulator() == other.accumulator()
        &&& self.rounding() == other.rounding()
        &&& self.empty_sum() == other.empty_sum()
        &&& self.inner().channels() == other.inner().channels()
    }

    /// Output sample `n`, computed over the input read so far.
    pub open spec fn output(&self, n: int) -> T {
        resampled(
            self.accumulator(),
            self.rounding(),
            self.empty_sum(),
            self.input(),
            self.table(),
            self.ratio().0 as int,
            self.ratio().1 as int,
            self.inner().channels() as int,
            n,
        )
    }

    /// The index in the input of the newest sample that output sample `n`
    /// needs.
    pub open spec fn needs(&self, n: int) -> int {
        newest_input(
            self.ratio().0 as int,
            self.ratio().1 as int,
            self.inner().channels() as int,
            n,
        )
    }

    /// The newest input frame that output sample `n` needs.
    pub open spec fn newest_frame(&self, n: int) -> int {
        input_frame(
            self.ratio().0 as int,
            self.ratio().1 as int,
            self.inner().channels() as int,
            n,
        )
    }

    /// The number of samples that the source is asked for at a time: one
    /// buffer of the window.
    pub open spec fn chunk(&self) -> nat {
        (FILTER_SIZE * self.inner().channels()) as nat
    }

    /// Whether this is a resampler as construction over `source` leaves it,
    /// when the source wrote `buffers` and passed through `states`: the
    /// source was pulled once for a buffer, a second time if and only if the
    /// first buffer came back full, and never a third time; the input is what
    /// it wrote, and it has ended if the last buffer came back short.
    pub open spec fn preloaded(&self, source: S, states: Seq<S>, buffers: Seq<Seq<T>>) -> bool {
        &&& pulls_in_turn(states, self.chunk(), buffers)
        &&& states[0] == source
        &&& states.last() == self.inner()
        &&& self.input() == joined(buffers)
        &&& 1 <= buffers.len() <= 2
        &&& buffers[0].len() <= self.chunk()
        &&& buffers.last().len() <= self.chunk()
        &&& buffers.len() == 2 <==> buffers[0].len() == self.chunk()
        &&& self.ended() <==> buffers.last().len() < self.chunk()
    }

    /// Whether `later` has read what this resampler had read and then
    /// `buffers`, which its source wrote, one pull after the other, passing
    /// through `states`. Every buffer but the last is full; the source has
    /// ended if the last came back short, and is not pulled once it has
    /// ended.
    pub open spec fn reads(&self, later: &Self, states: Seq<S>, buffers: Seq<Seq<T>>) -> bool {
        &&& pulls_in_turn(states, self.chunk(), buffers)
        &&& states[0] == self.inner()
        &&& states.last() == later.inner()
        &&& later.input() == self.input() + joined(buffers)
        &&& forall|i: int|
            0 <= i < buffers.len() - 1 ==> (#[trigger] buffers[i]).len() == self.chunk()
        &&& buffers.len() > 0 ==> buffers.last().len() <= self.chunk() && (later.ended()
            <==> buffers.last().len() < self.chunk())
        &&& buffers.len() == 0 ==> later.ended() == self.ended()
        &&& self.ended() ==> buffers.len() == 0
    }

    /// Whether a pull for `len` samples that writes `count` may leave this
    /// resampler as `later`, its source writing `buffers` on the way. The
    /// source is pulled only when a sample needs a frame that has not been
    /// read: the last buffer was read for the last sample that the pull
    /// looked at, which is the last one written, or the one after it when
    /// the pull came back short.
    pub open spec fn follows(
        &self,
        len: nat,
        count: nat,
        later: &Self,
        states: Seq<S>,
        buffers: Seq<Seq<T>>,
    ) -> bool {
        let last: int = if count < len {
            (self.emitted() + count) as int
        } else {
            self.emitted() + count - 1
        };
        &&& later.same_setup(self)
        &&& later.emitted() == self.emitted() + count
        &&& self.reads(later, states, buffers)
        &&& buffers.len() > 0 ==> self.newest_frame(last) * self.inner().channels()
            >= later.input().len() - buffers.last().len()
        &&& forall|n: int|
            self.emitted() <= n < self.emitted() + count ==> #[trigger] later.needs(n)
                < later.input().len()
    }

    /// The two buffers laid end to end, the older first.
    closed spec fn window(&self) -> Seq<T> {
        self.filter_1@ + self.filter_2@
    }

    /// The newest input frame for the next output sample.
    closed spec fn next_frame(&self) -> int {
        input_frame(
            self.from as int,
            self.to as int,
            self.source.channels() as int,
            self.output_count as int,
        )
    }

    /// The invariant of the resampler's state.
    pub closed spec fn well_formed(&self) -> bool {
        let channels = self.source.channels();
        &&& self.source.valid()
        &&& channels >= 1
        &&& self.from >= 1
        &&& self.to >= 1
        &&& gcd(self.from as nat, self.to as nat) == 1
        &&& self.left_offset == centre(self.to as int)
        &&& self.kaiser_values@.len() == FILTER_SIZE * self.to
        &&& self.buffer_size == FILTER_SIZE * channels
        &&& self.whole_filter_size == 2 * self.buffer_size
        &&& self.filter_1@.len() == self.buffer_size
        &&& self.filter_2@.len() == self.buffer_size
        &&& ternary_operation(self.accumulate)
        &&& unary_operation(self.narrow)
        &&& self.input_offset <= self.next_frame()
        &&& self.input_offset == 0 || self.input_offset + FILTER_SIZE <= self.next_frame()
        &&& match self.last_sample {
            None => self.history@.len() == (self.input_offset + 2 * FILTER_SIZE) * channels,
            Some(end) => end < self.whole_filter_size && self.history@.len() == self.input_offset
                * channels + end,
        }
        &&& forall|index: int|
            0 <= index && self.input_offset * channels + index < self.history@.len()
                ==> (#[trigger] self.window()[index]) == self.history@[self.input_offset * channels
                + index]
        &&& forall|n: int|
            0 <= n < self.output_count ==> #[trigger] self.needs(n) < self.history@.len()
    }
}

impl<S, T, W, M, N> Resampler<S, T, W, M, N> where
    S: Source<T>,
    T: Copy + Send + Sync,
    W: Copy + Send + Sync,
    M: Fn(W, T, W) -> W + Send + Sync,
    N: Fn(W) -> T + Send + Sync,
 {
    /// Wraps `source`, which plays at `source_rate`, to play at `dest_rate`.
    ///
    /// The filter table gets `FILTER_SIZE` entries per target step of the
    /// reduced ratio, entry `index` being `kernel(index, to)`, and both
    /// buffers of the window are filled from the source: the first pull asks
    /// for one buffer, and only if it comes back full is there a second.
    pub fn new<K: Fn(usize, u32) -> W>(
        source: S,
        source_rate: u32,
        dest_rate: u32,
        kernel: K,
        zero: W,
        accumulate: M,
        narrow: N,
    ) -> (resampler: Self)
        requires
            source.valid(),
            source_rate != 0,
            dest_rate != 0,
            forall|index: usize, to: u32| #[trigger] kernel.requires((index, to)),
            ternary_operation(accumulate),
            unary_operation(narrow),
            FILTER_SIZE * (dest_rate as nat / gcd(source_rate as nat, dest_rate as nat))
                <= usize::MAX,
            2 * FILTER_SIZE * source.channels() <= usize::MAX,
        ensures
            resampler.valid(),
            resampler.channels() == source.channels(),
            resampler.ratio() == (
                source_rate as nat / gcd(source_rate as nat, dest_rate as nat),
                dest_rate as nat / gcd(source_rate as nat, dest_rate as nat),
            ),
            resampler.ratio().0 >= 1,
            resampler.ratio().1 >= 1,
            gcd(resampler.ratio().0, resampler.ratio().1) == 1,
            resampler.table().len() == FILTER_SIZE * resampler.ratio().1,
            forall|index: int|
                0 <= index < resampler.table().len() ==> kernel.ensures(
                    (index as usize, resampler.ratio().1 as u32),
                    #[trigger] resampler.table()[index],
                ),
            resampler.accumulator() == accumulate,
            resampler.rounding() == narrow,
            resampler.empty_sum() == zero,
            resampler.emitted() == 0,
            resampler.input().len() <= 2 * FILTER_SIZE * source.channels(),
            resampler.ended() <==> resampler.input().len() < 2 * FILTER_SIZE * source.channels(),
            source.writes(
                (FILTER_SIZE * source.channels()) as nat,
                resampler.input().take(
                    vstd::math::min(
                        resampler.input().len() as int,
                        FILTER_SIZE * source.channels(),
                    ),
                ),
            ),
            (exists|states: Seq<S>, buffers: Seq<Seq<T>>| #[trigger]
                resampler.preloaded(source, states, buffers)),
    {
        let ghost given = source;
        let mut source = source;
        let divisor: u32 = greatest_common_divisor(source_rate, dest_rate);
        proof {
            lemma_reduced_ratio(source_rate as nat, dest_rate as nat);
        }
        let from: u32 = source_rate / divisor;
        let to: u32 = dest_rate / divisor;

        let kaiser_value_count: usize = FILTER_SIZE * (to as usize);
        let left_offset: usize = (FILTER_SIZE / 2) * (to as usize);
        let mut kaiser_values: Vec<W> = Vec::with_capacity(kaiser_value_count);
        let mut index: usize = 0;
        while index < kaiser_value_count
            invariant
                index <= kaiser_value_count,
                kaiser_values@.len() == index,
                forall|index: usize, to: u32| #[trigger] kernel.requires((index, to)),
                forall|at: int|
                    0 <= at < index ==> kernel.ensures(
                        (at as usize, to),
                        #[trigger] kaiser_values@[at],
                    ),
            decreases kaiser_value_count - index,
        {
            let value: W = kernel(index, to);
            kaiser_values.push(value);
            index += 1;
        }

        let channels: usize = source.channel_count();
        assert(2 * FILTER_SIZE * channels == 2 * (FILTER_SIZE * channels)) by (nonlinear_arith);
        let filter_samples: usize = FILTER_SIZE * channels;
        let silence: T = narrow(zero);
        let mut filter_1: Vec<T> = vec![silence; filter_samples];
        let mut filter_2: Vec<T> = vec![silence; filter_samples];
        proof {
            vstd::arithmetic::div_mod::lemma_mod_multiples_basic(
                FILTER_SIZE as int,
                channels as int,
            );
        }

        let first: usize = source.write_samples(filter_1.as_mut_slice());
        let ghost once = source;
        let ghost mut states: Seq<S> = seq![given, once];
        let ghost mut buffers: Seq<Seq<T>> = seq![filter_1@.take(first as int)];
        let mut last_sample: Option<usize> = Some(first);
        let mut second: usize = 0;
        if first == filter_samples {
            second = source.write_samples(filter_2.as_mut_slice());
            last_sample = if second == filter_samples {
                None
            } else {
                Some(filter_samples + second)
            };
            proof {
                states = states.push(source);
                buffers = buffers.push(filter_2@.take(second as int));
            }
        }
        let ghost history = filter_1@.take(first as int) + filter_2@.take(second as int);
        let resampler = Self {
            source,
            from,
            to,
            left_offset,
            kaiser_values,
            filter_1,
            filter_2,
            whole_filter_size: filter_samples * 2,
            buffer_size: filter_samples,
            input_offset: 0,
            output_count: 0,
            last_sample,
            zero,
            accumulate,
            narrow,
            history: Ghost(history),
        };
        proof {
            lemma_position(from as int, to as int, channels as int, 0);
            assert(resampler.input().take(first as int) =~= resampler.filter_1@.take(
                first as int,
            ));
            assert forall|at: int|
                0 <= at && resampler.input_offset * channels + at
                    < resampler.history@.len() implies (#[trigger] resampler.window()[at])
                == resampler.history@[resampler.input_offset * channels + at] by {
                assert(resampler.input_offset * channels == 0) by (nonlinear_arith)
                    requires
                        resampler.input_offset == 0,
                ;
            }
            assert((resampler.input_offset + 2 * FILTER_SIZE) * channels == 2 * filter_samples)
                by (nonlinear_arith)
                requires
                    resampler.input_offset == 0,
                    filter_samples == FILTER_SIZE * channels,
            ;
            assert(resampler.input_offset * channels == 0) by (nonlinear_arith)
                requires
                    resampler.input_offset == 0,
            ;
            let one = seq![filter_1@.take(first as int)];
            assert(one.drop_last() =~= Seq::<Seq<T>>::empty());
            assert(joined(one.drop_last()) =~= Seq::<T>::empty());
            assert(joined(one) =~= filter_1@.take(first as int));
            if first == filter_samples {
                assert(buffers.drop_last() =~= one);
            } else {
                assert(filter_2@.take(0) =~= Seq::<T>::empty());
            }
            assert(resampler.input() =~= joined(buffers));
            assert(resampler.preloaded(given, states, buffers));
        }
        resampler
    }

    /// What holds of every valid resampler: a ratio in lowest terms, a table
    /// of `FILTER_SIZE` entries per target step, and a valid source with at
    /// least one channel.
    pub proof fn lemma_valid(&self)
        requires
            self.valid(),
        ensures
            self.ratio().0 >= 1,
            self.ratio().1 >= 1,
            gcd(self.ratio().0, self.ratio().1) == 1,
            self.table().len() == FILTER_SIZE * self.ratio().1,
            self.inner().valid(),
            self.inner().channels() >= 1,
            unary_operation(self.rounding()),
            ternary_operation(self.accumulator()),
            forall|n: int| 0 <= n < self.emitted() ==> #[trigger] self.needs(n) < self.input().len(),
    {
    }

    /// At equal rates no more than the filter's length is dropped: a
    /// resampler at the ratio of one to one that has come to its end, over
    /// an input of whole frames, has handed out all of its input but the
    /// last half filter of frames, sample for sample a whole number of
    /// frames.
    pub proof fn lemma_equal_rates_tail(&self)
        requires
            self.valid(),
            self.ratio() == (1nat, 1nat),
            self.exhausted(),
            self.emitted() < u64::MAX,
            self.input().len() % self.channels() == 0,
        ensures
            self.emitted() <= self.input().len(),
            self.input().len() - self.emitted() <= FILTER_SIZE * self.channels(),
            self.emitted() % self.channels() == 0,
            self.emitted() == if self.input().len() >= (FILTER_SIZE / 2) * self.channels() {
                self.input().len() - (FILTER_SIZE / 2) * self.channels()
            } else {
                0
            },
    {
        let channels = self.source.channels() as int;
        let total = self.history@.len() as int;
        let count = self.output_count as int;
        lemma_equal_rates_needs(channels, count);
        assert(self.needs(count) == (FILTER_SIZE / 2) * channels + count);
        if count > 0 {
            lemma_equal_rates_needs(channels, count - 1);
            assert(self.needs(count - 1) < total);
        }
        assert(0 <= (FILTER_SIZE / 2) * channels <= FILTER_SIZE * channels) by (nonlinear_arith)
            requires
                channels >= 1,
        ;
        if count > 0 {
            let frames = total / channels;
            vstd::arithmetic::div_mod::lemma_fundamental_div_mod(total, channels);
            assert(count == (frames - (FILTER_SIZE / 2)) * channels) by (nonlinear_arith)
                requires
                    count == total - (FILTER_SIZE / 2) * channels,
                    total == channels * frames,
            ;
            vstd::arithmetic::div_mod::lemma_mod_multiples_basic(
                frames - (FILTER_SIZE / 2),
                channels,
            );
        }
    }

    /// What the source contract says of a resampler: it has the channels of
    /// its source, it is exhausted when the next output sample needs input
    /// that never came, and the output samples whose input has been read are
    /// determined.
    pub proof fn lemma_source(&self, len: nat, written: Seq<T>)
        ensures
            self.channels() == self.inner().channels(),
            self.exhausted() == (self.emitted() == u64::MAX || (self.ended() && self.needs(
                self.emitted() as int,
            ) >= self.input().len())),
            self.writes(len, written) ==> written.len() <= len,
            self.writes(len, written) ==> forall|i: int|
                0 <= i < written.len() && self.needs(self.emitted() + i) < self.input().len()
                    ==> (#[trigger] written[i]) == self.output(self.emitted() + i),
    {
    }

    /// How the source contract says a pull leaves a resampler: with its
    /// source pulled for the buffers that the samples needed, and for no
    /// others.
    pub proof fn lemma_leaves(&self, len: nat, written: Seq<T>, next: &Self)
        ensures
            self.leaves(len, written, next) == ((exists|states: Seq<S>, buffers: Seq<Seq<T>>| #[trigger]
                self.follows(len, written.len(), next, states, buffers)) && forall|i: int|
                0 <= i < written.len() ==> (#[trigger] written[i]) == next.output(
                    self.emitted() + i,
                )),
    {
    }

    /// An output sample whose input has been read stays what it is when more
    /// input is read.
    proof fn lemma_output_stable(&self, later: &Self, n: int)
        requires
            self.well_formed(),
            later.well_formed(),
            later.same_setup(self),
            self.input().len() <= later.input().len(),
            later.input().take(self.input().len() as int) == self.input(),
            0 <= n,
            self.needs(n) < self.input().len(),
        ensures
            later.output(n) == self.output(n),
    {
        let from = self.from as int;
        let to = self.to as int;
        let channels = self.source.channels() as int;
        let frame = input_frame(from, to, channels, n);
        let newest = newest_input(from, to, channels, n);
        let taps = tap_count(frame);
        lemma_position(from, to, channels, n);
        assert forall|tap: int| 0 <= tap < taps implies self.input()[#[trigger] tap_index(
            newest,
            channels,
            tap,
        )] == later.input()[0 + tap_index(newest, channels, tap)] by {
            lemma_tap_in_range(frame, channels, n % channels, tap);
            let index = tap_index(newest, channels, tap);
            assert(later.input().take(self.input().len() as int)[index] == later.input()[index]);
        }
        lemma_inner_product_agrees(
            self.accumulate,
            self.zero,
            self.input(),
            later.input(),
            0,
            self.table(),
            newest,
            channels,
            phase(from, to, channels, n),
            to,
            taps as nat,
        );
    }

    /// What a write that stops after `count` samples has shown of the state
    /// it started in, and how it leaves the resampler.
    proof fn lemma_finished(
        &self,
        before: &Self,
        buffer: Seq<T>,
        given: Seq<T>,
        count: int,
        states: Seq<S>,
        buffers: Seq<Seq<T>>,
    )
        requires
            before.well_formed(),
            self.well_formed(),
            self.same_setup(before),
            0 <= count <= buffer.len(),
            buffer.len() == given.len(),
            buffer.len() % before.inner().channels() == 0,
            self.output_count == before.output_count + count,
            before.input().len() <= self.input().len(),
            self.input().take(before.input().len() as int) == before.input(),
            forall|j: int| count <= j < buffer.len() ==> buffer[j] == given[j],
            forall|n: int|
                before.output_count <= n < before.output_count + count ==> #[trigger] self.needs(n)
                    < self.input().len(),
            forall|j: int|
                0 <= j < count ==> (#[trigger] buffer[j]) == self.output(before.output_count + j),
            before.reads(self, states, buffers),
            buffers.len() > 0 ==> before.newest_frame(
                if count < buffer.len() {
                    before.emitted() + count
                } else {
                    before.emitted() + count - 1
                },
            ) * before.inner().channels() >= self.input().len() - buffers.last().len(),
            count < buffer.len() ==> self.exhausted(),
        ensures
            buffer.skip(count) == given.skip(count),
            before.writes(buffer.len(), buffer.take(count)),
            before.leaves(buffer.len(), buffer.take(count), self),
            before.emitted() % before.inner().channels() == 0 && self.input().len()
                % before.inner().channels() == 0 && self.emitted() != u64::MAX ==> (count as nat)
                % before.inner().channels() == 0,
    {
        assert(buffer.skip(count) =~= given.skip(count));
        let written = buffer.take(count);
        assert forall|i: int|
            0 <= i < written.len() && before.needs(before.emitted() + i)
                < before.input().len() implies (#[trigger] written[i]) == before.output(
            before.emitted() + i,
        ) by {
            before.lemma_output_stable(self, before.emitted() + i);
            assert(written[i] == buffer[i]);
        }
        assert(before.follows(buffer.len(), written.len(), self, states, buffers));
        assert forall|i: int| 0 <= i < written.len() implies (#[trigger] written[i])
            == self.output(before.emitted() + i) by {
            assert(written[i] == buffer[i]);
        }
        let channels = before.inner().channels() as int;
        let first = before.emitted() as int;
        let total = self.input().len() as int;
        if first % channels == 0 && total % channels == 0 && self.emitted() != u64::MAX && count
            % channels != 0 {
            let n = first + count;
            lemma_sum_off_frame(first, count, channels);
            lemma_same_frame(self.from as int, self.to as int, channels, n);
            lemma_frame_reaches(
                input_frame(self.from as int, self.to as int, channels, n),
                channels,
                n % channels,
                total,
            );
            assert(self.needs(n - 1) < total);
        }
    }

    /// The inner product for one output sample, read off the window.
    fn convolve(&self, sample_index: usize, kaiser_index: usize, channels: usize, taps: usize) -> (sample: T)
        requires
            self.well_formed(),
            channels == self.source.channels(),
            kaiser_index < self.to,
            1 <= taps <= FILTER_SIZE,
            (taps - 1) * channels <= sample_index,
            sample_index < self.whole_filter_size,
        ensures
            sample == unary_result(
                self.narrow,
                inner_product(
                    self.accumulate,
                    self.zero,
                    self.window(),
                    self.kaiser_values@,
                    sample_index as int,
                    channels as int,
                    kaiser_index as int,
                    self.to as int,
                    taps as nat,
                ),
            ),
    {
        assert(FILTER_SIZE * self.to == self.kaiser_values.len());
        assert(kaiser_index + (taps - 1) * self.to < FILTER_SIZE * self.to) by (nonlinear_arith)
            requires
                kaiser_index < self.to,
                1 <= taps <= FILTER_SIZE,
        ;
        convolve(
            &self.accumulate,
            &self.narrow,
            self.zero,
            self.filter_1.as_slice(),
            self.filter_2.as_slice(),
            self.kaiser_values.as_slice(),
            sample_index,
            kaiser_index,
            channels,
            self.to as usize,
            taps,
        )
    }

    /// Slides the window on by one buffer: the older buffer is filled from
    /// the source and becomes the newer one.
    fn refill(&mut self, Ghost(frame): Ghost<int>)
        requires
            old(self).well_formed(),
            old(self).last_sample is None,
            frame == old(self).next_frame(),
            old(self).input_offset + 2 * FILTER_SIZE <= frame,
            frame <= u128::MAX,
        ensures
            final(self).well_formed(),
            final(self).same_setup(old(self)),
            final(self).output_count == old(self).output_count,
            final(self).input_offset == old(self).input_offset + FILTER_SIZE,
            old(self).input().len() <= final(self).input().len(),
            final(self).input().take(old(self).input().len() as int) == old(self).input(),
            final(self).input() == old(self).input() + final(self).input().skip(
                old(self).input().len() as int,
            ),
            old(self).inner().writes(
                old(self).chunk(),
                final(self).input().skip(old(self).input().len() as int),
            ),
            old(self).inner().leaves(
                old(self).chunk(),
                final(self).input().skip(old(self).input().len() as int),
                &final(self).inner(),
            ),
            final(self).input().len() - old(self).input().len() <= old(self).chunk(),
            final(self).ended() <==> final(self).input().len() - old(self).input().len() < old(
                self,
            ).chunk(),
            frame * old(self).inner().channels() >= old(self).input().len(),
    {
        let ghost channels = self.source.channels() as int;
        let ghost offset = self.input_offset as int;
        let ghost size = self.buffer_size as int;
        let ghost before = self.history@;
        let ghost newer = self.filter_2@;
        proof {
            vstd::arithmetic::div_mod::lemma_mod_multiples_basic(FILTER_SIZE as int, channels);
            assert(size == FILTER_SIZE * channels);
            assert(before.len() == offset * channels + 2 * size) by (nonlinear_arith)
                requires
                    before.len() == (offset + 2 * FILTER_SIZE) * channels,
                    size == FILTER_SIZE * channels,
            ;
        }
        let count: usize = self.source.write_samples(self.filter_1.as_mut_slice());
        let ghost fresh = self.filter_1@;
        self.history = Ghost(before + fresh.take(count as int));
        if count != self.filter_1.len() {
            self.last_sample = Some(self.buffer_size + count);
        }
        core::mem::swap(&mut self.filter_1, &mut self.filter_2);
        self.input_offset = self.input_offset + FILTER_SIZE as u128;
        proof {
            let after = self.history@;
            assert(after.take(before.len() as int) =~= before);
            assert(after.skip(before.len() as int) =~= fresh.take(count as int));
            assert forall|n: int| 0 <= n < self.output_count implies #[trigger] self.needs(n)
                < after.len() by {
                assert(old(self).needs(n) == self.needs(n));
            }
            assert(after =~= before + after.skip(before.len() as int));
            assert(frame * channels >= before.len()) by (nonlinear_arith)
                requires
                    offset + 2 * FILTER_SIZE <= frame,
                    before.len() == (offset + 2 * FILTER_SIZE) * channels,
                    channels >= 1,
            ;
            assert((offset + FILTER_SIZE) * channels == offset * channels + size)
                by (nonlinear_arith)
                requires
                    size == FILTER_SIZE * channels,
            ;
            assert((offset + FILTER_SIZE + 2 * FILTER_SIZE) * channels == offset * channels + 3
                * size) by (nonlinear_arith)
                requires
                    size == FILTER_SIZE * channels,
            ;
            assert forall|index: int|
                0 <= index && self.input_offset * channels + index
                    < after.len() implies (#[trigger] self.window()[index]) == after[self.input_offset
                * channels + index] by {
                if index < size {
                    assert(self.window()[index] == newer[index]);
                    assert(newer[index] == old(self).window()[size + index]);
                    assert(old(self).window()[size + index] == before[offset * channels + (size
                        + index)]);
                } else {
                    assert(self.window()[index] == fresh[index - size]);
                    assert(after[before.len() + (index - size)] == fresh.take(count as int)[index
                        - size]);
                }
            }
        }
    }
}

impl<S, T, W, M, N> Source<T> for Resampler<S, T, W, M, N> where
    S: Source<T>,
    T: Copy + Send + Sync,
    W: Copy + Send + Sync,
    M: Fn(W, T, W) -> W + Send + Sync,
    N: Fn(W) -> T + Send + Sync,
 {
    open spec fn valid(&self) -> bool {
        self.well_formed()
    }

    /// The channel count of the wrapped source.
    open spec fn channels(&self) -> nat {
        self.inner().channels()
    }

    /// A resampler is exhausted when its source has ended and the next output
    /// sample would need input that never came, or when its count of output
    /// samples has reached the largest number it can hold.
    open spec fn exhausted(&self) -> bool {
        self.emitted() == u64::MAX || (self.ended() && self.needs(self.emitted() as int)
            >= self.input().len())
    }

    /// The output samples whose input has been read already are determined.
    open spec fn writes(&self, len: nat, written: Seq<T>) -> bool {
        &&& written.len() <= len
        &&& forall|i: int|
            0 <= i < written.len() && self.needs(self.emitted() + i) < self.input().len()
                ==> (#[trigger] written[i]) == self.output(self.emitted() + i)
    }

    /// A pull leaves the resampler with the samples counted that it wrote,
    /// and with its input grown by the buffers that its source wrote in the
    /// meantime, each pulled when a sample needed it. Every sample written
    /// is the output over the input that the resampler is left with.
    open spec fn leaves(&self, len: nat, written: Seq<T>, next: &Self) -> bool {
        &&& exists|states: Seq<S>, buffers: Seq<Seq<T>>| #[trigger]
            self.follows(len, written.len(), next, states, buffers)
        &&& forall|i: int|
            0 <= i < written.len() ==> (#[trigger] written[i]) == next.output(self.emitted() + i)
    }

    /// Writes the next output samples. Each is the filter's inner product
    /// over the input read so far; the source is asked for another buffer
    /// whenever the next sample looks past the window, and then only. The
    /// write stops short where the source has ended and a sample needs input
    /// past its end; from a source of whole frames it then stops on a whole
    /// frame, unless the count of output samples has reached its limit.
    fn write_samples(&mut self, buffer: &mut [T]) -> (count: usize)
        ensures
            final(self).same_setup(old(self)),
            final(self).emitted() == old(self).emitted() + count,
            old(self).input().len() <= final(self).input().len(),
            final(self).input().take(old(self).input().len() as int) == old(self).input(),
            old(self).ended() ==> final(self).ended() && final(self).input() == old(self).input(),
            forall|n: int|
                old(self).emitted() <= n < old(self).emitted() + count
                    ==> #[trigger] final(self).needs(n) < final(self).input().len(),
            forall|i: int|
                0 <= i < count ==> (#[trigger] final(buffer)@[i]) == final(self).output(
                    old(self).emitted() + i,
                ),
            old(self).emitted() % old(self).channels() == 0 && final(self).input().len() % old(
                self,
            ).channels() == 0 && final(self).emitted() != u64::MAX ==> (count as nat) % old(
                self,
            ).channels() == 0,
            (exists|states: Seq<S>, buffers: Seq<Seq<T>>| #[trigger]
                old(self).follows(
                    old(buffer)@.len(),
                    count as nat,
                    final(self),
                    states,
                    buffers,
                )),
    {
        let channels: usize = self.source.channel_count();
        let wide_channels: u64 = channels as u64;
        let ghost first = old(self).output_count as int;
        let ghost mut states: Seq<S> = seq![old(self).inner()];
        let ghost mut buffers: Seq<Seq<T>> = Seq::empty();
        proof {
            assert(joined(buffers) =~= Seq::<T>::empty());
            assert(self.input() =~= old(self).input() + joined(buffers));
        }
        let mut i: usize = 0;
        while i < buffer.len()
            invariant
                old(self).well_formed(),
                self.well_formed(),
                self.same_setup(old(self)),
                channels == self.source.channels(),
                wide_channels == channels,
                first == old(self).output_count,
                buffer@.len() == old(buffer)@.len(),
                i <= buffer@.len(),
                self.output_count == first + i,
                i == 0 ==> *self == *old(self),
                i > 0 ==> !old(self).exhausted(),
                old(self).ended() ==> self.ended() && self.input() == old(self).input(),
                old(self).input().len() <= self.input().len(),
                self.input().take(old(self).input().len() as int) == old(self).input(),
                forall|j: int| i <= j < buffer@.len() ==> buffer@[j] == old(buffer)@[j],
                forall|n: int|
                    first <= n < first + i ==> #[trigger] self.needs(n) < self.input().len(),
                forall|j: int| 0 <= j < i ==> (#[trigger] buffer@[j]) == self.output(first + j),
                old(buffer)@.len() % (channels as nat) == 0,
                old(self).reads(&*self, states, buffers),
                buffers.len() > 0 ==> i > 0 && self.newest_frame(first + i - 1) * channels
                    >= self.input().len() - buffers.last().len(),
            decreases buffer@.len() - i,
        {
            proof {
                if buffers.len() > 0 {
                    lemma_frames_ordered(
                        self.from as int,
                        self.to as int,
                        channels as int,
                        first + i - 1,
                    );
                    assert(self.newest_frame(first + i) * channels >= self.newest_frame(
                        first + i - 1,
                    ) * channels) by (nonlinear_arith)
                        requires
                            self.newest_frame(first + i) >= self.newest_frame(first + i - 1),
                            channels >= 1,
                    ;
                }
            }
            if self.output_count == u64::MAX {
                proof {
                    self.lemma_finished(
                        old(self),
                        buffer@,
                        old(buffer)@,
                        i as int,
                        states,
                        buffers,
                    );
                }
                return i;
            }
            // Tells us which channel we're currently looking at in the output data.
            // We should only be using input data from the same channel.
            let frame: u64 = self.output_count / wide_channels;
            let channel: usize = (self.output_count % wide_channels) as usize;

            // Here, we calculate which input frame to start at and which set of table values
            // to use: the place on the finer grid, divided by the target rate, gives the input
            // frame, and its remainder the offset into the table.
            assert(self.from * frame <= 0xffff_ffff * 0xffff_ffff_ffff_ffff) by (nonlinear_arith)
                requires
                    self.from <= 0xffff_ffff,
                    frame <= 0xffff_ffff_ffff_ffff,
            ;
            let start: u128 = self.left_offset as u128 + (self.from as u128) * (frame as u128);
            let kaiser_index: usize = (start % (self.to as u128)) as usize;
            let input_frame: u128 = start / (self.to as u128);
            proof {
                lemma_position(
                    self.from as int,
                    self.to as int,
                    channels as int,
                    self.output_count as int,
                );
            }
            // The position of that frame in the window.
            let mut position: u128 = input_frame - self.input_offset;

            // The position is where we start counting backwards, so if it's beyond the length of
            // our two buffers added together, then we need new data. However, don't try to get
            // new data if the source has already been emptied (ie. we have a last_sample).
            while position >= 2 * FILTER_SIZE as u128 && self.last_sample.is_none()
                invariant
                    old(self).well_formed(),
                    self.well_formed(),
                    self.same_setup(old(self)),
                    channels == self.source.channels(),
                    first == old(self).output_count,
                    buffer@.len() == old(buffer)@.len(),
                    i < buffer@.len(),
                    self.output_count == first + i,
                    input_frame == self.next_frame(),
                    position == input_frame - self.input_offset,
                    i > 0 ==> !old(self).exhausted(),
                    old(self).ended() ==> self.ended() && self.input() == old(self).input(),
                    old(self).input().len() <= self.input().len(),
                    self.input().take(old(self).input().len() as int) == old(self).input(),
                    forall|j: int| i <= j < buffer@.len() ==> buffer@[j] == old(buffer)@[j],
                    forall|n: int|
                        first <= n < first + i ==> #[trigger] self.needs(n) < self.input().len(),
                    forall|j: int|
                        0 <= j < i ==> (#[trigger] buffer@[j]) == self.output(first + j),
                    old(self).reads(&*self, states, buffers),
                    buffers.len() > 0 ==> self.newest_frame(first + i) * channels
                        >= self.input().len() - buffers.last().len(),
                decreases position,
            {
                let ghost prior = *self;
                self.refill(Ghost(input_frame as int));
                position = position - FILTER_SIZE as u128;
                proof {
                    let piece = self.input().skip(prior.input().len() as int);
                    let earlier_states = states;
                    let earlier_buffers = buffers;
                    states = states.push(self.inner());
                    buffers = buffers.push(piece);
                    assert(buffers.drop_last() =~= earlier_buffers);
                    assert(joined(buffers) == joined(earlier_buffers) + piece);
                    assert(self.input() =~= old(self).input() + joined(buffers));
                    assert(prior.chunk() == old(self).chunk());
                    assert forall|k: int| 0 <= k < buffers.len() implies states[k].writes(
                        old(self).chunk(),
                        #[trigger] buffers[k],
                    ) && states[k].leaves(old(self).chunk(), buffers[k], &states[k + 1]) by {
                        if k < earlier_buffers.len() {
                            assert(buffers[k] == earlier_buffers[k]);
                            assert(states[k] == earlier_states[k]);
                            assert(states[k + 1] == earlier_states[k + 1]);
                        } else {
                            assert(states[k] == prior.inner());
                        }
                    }
                    assert forall|k: int| 0 <= k < buffers.len() - 1 implies (
                    #[trigger] buffers[k]).len() == old(self).chunk() by {
                        assert(buffers[k] == earlier_buffers[k]);
                    }
                    assert(old(self).reads(&*self, states, buffers));
                }
                proof {
                    assert(self.input().take(old(self).input().len() as int)
                        =~= old(self).input()) by {
                        assert(self.input().take(prior.input().len() as int).take(
                            old(self).input().len() as int,
                        ) =~= self.input().take(old(self).input().len() as int));
                    }
                    assert forall|j: int| 0 <= j < i implies (#[trigger] buffer@[j])
                        == self.output(first + j) by {
                        assert(prior.needs(first + j) < prior.input().len());
                        prior.lemma_output_stable(&*self, first + j);
                    }
                    assert forall|n: int| first <= n < first + i implies #[trigger] self.needs(n)
                        < self.input().len() by {
                        assert(prior.needs(n) < prior.input().len());
                    }
                }
            }

            let ghost offset = self.input_offset as int;
            proof {
                assert(input_frame * channels == offset * channels + position * channels)
                    by (nonlinear_arith)
                    requires
                        position == input_frame - offset,
                ;
                assert(2 * FILTER_SIZE * channels == 2 * (FILTER_SIZE * channels))
                    by (nonlinear_arith);
                assert((offset + 2 * FILTER_SIZE) * channels == offset * channels + 2
                    * FILTER_SIZE * channels) by (nonlinear_arith);
                if position >= 2 * FILTER_SIZE {
                    assert(position * channels >= 2 * FILTER_SIZE * channels) by (nonlinear_arith)
                        requires
                            position >= 2 * FILTER_SIZE,
                            channels >= 1,
                    ;
                } else {
                    assert(position * channels + channel < 2 * FILTER_SIZE * channels)
                        by (nonlinear_arith)
                        requires
                            0 <= position < 2 * FILTER_SIZE,
                            0 <= channel < channels,
                    ;
                }
            }
            // If we are past the end of our audio, exit early and indicate how much of the
            // buffer we filled. This does leave off the last few samples of input audio.
            let past_end: bool = match self.last_sample {
                Some(end) => position >= 2 * FILTER_SIZE as u128 || (position as usize) * channels
                    + channel >= end,
                None => false,
            };
            if past_end {
                proof {
                    assert(self.needs(self.output_count as int) >= self.input().len());
                    self.lemma_finished(
                        old(self),
                        buffer@,
                        old(buffer)@,
                        i as int,
                        states,
                        buffers,
                    );
                }
                return i;
            }
            let sample_index: usize = (position as usize) * channels + channel;
            let taps: usize = if position + 1 < FILTER_SIZE as u128 {
                position as usize + 1
            } else {
                FILTER_SIZE
            };
            assert((taps - 1) * channels <= sample_index) by (nonlinear_arith)
                requires
                    taps - 1 <= position,
                    sample_index == position * channels + channel,
                    channels >= 1,
                    channel >= 0,
            ;
            // Multiply this set of input data by the relevant set of table values and add them
            // all together.
            let sample: T = self.convolve(sample_index, kaiser_index, channels, taps);
            proof {
                let n = self.output_count as int;
                assert(self.needs(n) == offset * channels + sample_index);
                assert forall|tap: int| 0 <= tap < taps implies self.window()[#[trigger] tap_index(
                    sample_index as int,
                    channels as int,
                    tap,
                )] == self.input()[offset * channels + tap_index(
                    sample_index as int,
                    channels as int,
                    tap,
                )] by {
                    lemma_tap_in_range(position as int, channels as int, channel as int, tap);
                }
                lemma_inner_product_agrees(
                    self.accumulate,
                    self.zero,
                    self.window(),
                    self.input(),
                    offset * channels,
                    self.table(),
                    sample_index as int,
                    channels as int,
                    kaiser_index as int,
                    self.to as int,
                    taps as nat,
                );
                assert(taps == tap_count(input_frame as int));
                assert(sample == self.output(n));
                assert(self.needs(n) < self.input().len());
                assert(!old(self).exhausted());
                lemma_frames_ordered(self.from as int, self.to as int, channels as int, n);
            }
            let ghost previous = *self;
            buffer[i] = sample;
            self.output_count += 1;
            i += 1;
            proof {
                assert forall|n: int| first <= n < first + i implies #[trigger] self.needs(n)
                    < self.input().len() by {
                    assert(self.needs(n) == previous.needs(n));
                    assert(self.input() == previous.input());
                }
                assert forall|n: int| 0 <= n < self.output_count implies #[trigger] self.needs(n)
                    < self.history@.len() by {
                    assert(self.needs(n) == previous.needs(n));
                    assert(self.input() == previous.input());
                }
            }
        }
        proof {
            self.lemma_finished(old(self), buffer@, old(buffer)@, i as int, states, buffers);
        }
        i
    }

    fn channel_count(&self) -> (count: usize) {
        self.source.channel_count()
    }
}

/// Where output sample `n` looks: its frame, phase and newest input sample
/// are not negative, and the phase is below `to`.
pub proof fn lemma_position(from: int, to: int, channels: int, n: int)
    requires
        from >= 0,
        to >= 1,
        channels >= 1,
        n >= 0,
    ensures
        grid_position(from, to, channels, n) >= centre(to),
        input_frame(from, to, channels, n) >= FILTER_SIZE / 2,
        0 <= phase(from, to, channels, n) < to,
        0 <= n % channels < channels,
        newest_input(from, to, channels, n) >= 0,
{
    let frame = n / channels;
    vstd::arithmetic::div_mod::lemma_div_pos_is_pos(n, channels);
    assert(from * frame >= 0) by (nonlinear_arith)
        requires
            from >= 0,
            frame >= 0,
    ;
    let position = grid_position(from, to, channels, n);
    vstd::arithmetic::div_mod::lemma_div_is_ordered(centre(to), position, to);
    vstd::arithmetic::div_mod::lemma_div_multiples_vanish((FILTER_SIZE / 2) as int, to);
    assert(centre(to) == to * (FILTER_SIZE / 2) as int) by (nonlinear_arith);
    vstd::arithmetic::div_mod::lemma_mod_bound(position, to);
    vstd::arithmetic::div_mod::lemma_mod_bound(n, channels);
    assert(input_frame(from, to, channels, n) * channels >= 0) by (nonlinear_arith)
        requires
            input_frame(from, to, channels, n) >= 0,
            channels >= 1,
    ;
}

/// Equal rates reduce to the ratio of one to one.
pub proof fn lemma_equal_rates_reduce(rate: nat)
    requires
        rate > 0,
    ensures
        gcd(rate, rate) == rate,
        rate / gcd(rate, rate) == 1,
{
    vstd::arithmetic::div_mod::lemma_mod_self_0(rate as int);
    assert(gcd(rate, rate) == gcd(rate, 0));
    vstd::arithmetic::div_mod::lemma_div_by_self(rate as int);
}

/// At the ratio of one to one every output sample uses phase 0, and the
/// table's central entry meets the input sample at the output sample's own
/// index: the filter is centred on it and always reaches it.
pub proof fn lemma_equal_rates_align(channels: int, n: int)
    requires
        channels >= 1,
        n >= 0,
    ensures
        phase(1, 1, channels, n) == 0,
        input_frame(1, 1, channels, n) == FILTER_SIZE / 2 + n / channels,
        tap_index(newest_input(1, 1, channels, n), channels, (FILTER_SIZE / 2) as int) == n,
        (FILTER_SIZE / 2) < tap_count(input_frame(1, 1, channels, n)),
{
    let frame = n / channels;
    let position = grid_position(1, 1, channels, n);
    vstd::arithmetic::div_mod::lemma_div_pos_is_pos(n, channels);
    assert(position == FILTER_SIZE / 2 + frame) by (nonlinear_arith)
        requires
            position == (FILTER_SIZE / 2) * 1 + 1 * frame,
    ;
    assert(position / 1 == position && position % 1 == 0) by (nonlinear_arith);
    vstd::arithmetic::div_mod::lemma_fundamental_div_mod(n, channels);
    assert((FILTER_SIZE / 2 + frame) * channels + n % channels - (FILTER_SIZE / 2) * channels
        == n) by (nonlinear_arith)
        requires
            n == channels * frame + n % channels,
    ;
}

/// At the ratio of one to one the newest input that output sample `n` needs
/// lies half a filter of frames past the sample itself.
pub proof fn lemma_equal_rates_needs(channels: int, n: int)
    requires
        channels >= 1,
        n >= 0,
    ensures
        newest_input(1, 1, channels, n) == (FILTER_SIZE / 2) * channels + n,
{
    lemma_equal_rates_align(channels, n);
    vstd::arithmetic::div_mod::lemma_fundamental_div_mod(n, channels);
    assert((FILTER_SIZE / 2 + n / channels) * channels + n % channels == (FILTER_SIZE / 2)
        * channels + n) by (nonlinear_arith)
        requires
            n == channels * (n / channels) + n % channels,
    ;
}

/// The inner product with a table that is an impulse at its centre, at the
/// ratio of one to one: nothing until the filter reaches the centre, and
/// from there on the one product of the central entry.
proof fn lemma_impulse_inner_product<T, W, M: Fn(W, T, W) -> W>(
    accumulate: M,
    zero: W,
    input: Seq<T>,
    table: Seq<W>,
    newest: int,
    channels: int,
    taps: nat,
)
    requires
        forall|sum: W, sample: T, entry: int|
            0 <= entry < FILTER_SIZE && entry != FILTER_SIZE / 2 ==> #[trigger] ternary_result(
                accumulate,
                sum,
                sample,
                table[entry],
            ) == sum,
        taps <= FILTER_SIZE,
    ensures
        inner_product(accumulate, zero, input, table, newest, channels, 0, 1, taps) == if taps
            <= FILTER_SIZE / 2 {
            zero
        } else {
            ternary_result(
                accumulate,
                zero,
                input[tap_index(newest, channels, (FILTER_SIZE / 2) as int)],
                table[(FILTER_SIZE / 2) as int],
            )
        },
    decreases taps,
{
    if taps > 0 {
        let tap = taps - 1;
        lemma_impulse_inner_product(
            accumulate,
            zero,
            input,
            table,
            newest,
            channels,
            tap as nat,
        );
        assert(0 + tap * 1 == tap);
    }
}

/// Resampling to the same rate with an impulse for a table hands the input
/// on unchanged: if every entry of the table but the central one leaves the
/// sum as it is, and the central entry's product, rounded, is the sample
/// itself, then output sample `n` is input sample `n`.
pub proof fn lemma_equal_rates_identity<T, W, M: Fn(W, T, W) -> W, N: Fn(W) -> T>(
    accumulate: M,
    narrow: N,
    zero: W,
    input: Seq<T>,
    table: Seq<W>,
    channels: int,
    n: int,
)
    requires
        channels >= 1,
        n >= 0,
        forall|sum: W, sample: T, entry: int|
            0 <= entry < FILTER_SIZE && entry != FILTER_SIZE / 2 ==> #[trigger] ternary_result(
                accumulate,
                sum,
                sample,
                table[entry],
            ) == sum,
        forall|sample: T| #[trigger]
            unary_result(
                narrow,
                ternary_result(accumulate, zero, sample, table[(FILTER_SIZE / 2) as int]),
            ) == sample,
    ensures
        resampled(accumulate, narrow, zero, input, table, 1, 1, channels, n) == input[n],
{
    lemma_equal_rates_align(channels, n);
    lemma_impulse_inner_product(
        accumulate,
        zero,
        input,
        table,
        newest_input(1, 1, channels, n),
        channels,
        tap_count(input_frame(1, 1, channels, n)) as nat,
    );
}

/// The samples of one output frame need the same input frame: a sample that
/// is not the first of its frame needs the frame that the sample before it
/// needs.
pub proof fn lemma_same_frame(from: int, to: int, channels: int, n: int)
    requires
        channels >= 1,
        n >= 0,
        n % channels != 0,
    ensures
        n >= 1,
        input_frame(from, to, channels, n - 1) == input_frame(from, to, channels, n),
        (n - 1) % channels == n % channels - 1,
{
    vstd::arithmetic::div_mod::lemma_fundamental_div_mod(n, channels);
    vstd::arithmetic::div_mod::lemma_mod_bound(n, channels);
    assert(n - 1 == (n / channels) * channels + (n % channels - 1)) by (nonlinear_arith)
        requires
            n == channels * (n / channels) + n % channels,
    ;
    vstd::arithmetic::div_mod::lemma_fundamental_div_mod_converse(
        n - 1,
        channels,
        n / channels,
        n % channels - 1,
    );
}

/// A count that is not whole frames, added to one that is, is not whole
/// frames.
pub proof fn lemma_sum_off_frame(first: int, count: int, channels: int)
    requires
        channels >= 1,
        first >= 0,
        count >= 0,
        first % channels == 0,
        count % channels != 0,
    ensures
        (first + count) % channels == count % channels,
{
    vstd::arithmetic::div_mod::lemma_fundamental_div_mod(first, channels);
    vstd::arithmetic::div_mod::lemma_fundamental_div_mod(count, channels);
    vstd::arithmetic::div_mod::lemma_mod_bound(count, channels);
    assert(first + count == (first / channels + count / channels) * channels + count % channels)
        by (nonlinear_arith)
        requires
            first == channels * (first / channels),
            count == channels * (count / channels) + count % channels,
    ;
    vstd::arithmetic::div_mod::lemma_fundamental_div_mod_converse(
        first + count,
        channels,
        first / channels + count / channels,
        count % channels,
    );
}

/// A sample past the first of its frame that reaches the end of an input
/// of whole frames is in a frame that lies past that end altogether.
pub proof fn lemma_frame_reaches(frame: int, channels: int, channel: int, total: int)
    requires
        channels >= 1,
        1 <= channel < channels,
        total >= 0,
        total % channels == 0,
    ensures
        frame * channels + channel >= total ==> frame * channels + (channel - 1) >= total,
{
    vstd::arithmetic::div_mod::lemma_fundamental_div_mod(total, channels);
    let whole = total / channels;
    assert(frame * channels + channel >= whole * channels ==> frame >= whole)
        by (nonlinear_arith)
        requires
            1 <= channel < channels,
    ;
    assert(frame >= whole ==> frame * channels >= whole * channels) by (nonlinear_arith)
        requires
            channels >= 1,
    ;
    assert(total == whole * channels) by (nonlinear_arith)
        requires
            total == channels * whole + total % channels,
            total % channels == 0,
    ;
}

/// The newest input frame does not go back from one output sample to the
/// next.
pub proof fn lemma_frames_ordered(from: int, to: int, channels: int, n: int)
    requires
        from >= 0,
        to >= 1,
        channels >= 1,
        n >= 0,
    ensures
        input_frame(from, to, channels, n) <= input_frame(from, to, channels, n + 1),
{
    vstd::arithmetic::div_mod::lemma_div_is_ordered(n, n + 1, channels);
    assert(from * (n / channels) <= from * ((n + 1) / channels)) by (nonlinear_arith)
        requires
            from >= 0,
            n / channels <= (n + 1) / channels,
    ;
    vstd::arithmetic::div_mod::lemma_div_is_ordered(
        grid_position(from, to, channels, n),
        grid_position(from, to, channels, n + 1),
        to,
    );
}

/// A tap within the filter reads a sample between the start of the input and
/// the newest sample.
pub proof fn lemma_tap_in_range(frame: int, channels: int, channel: int, tap: int)
    requires
        0 <= tap < tap_count(frame),
        channels >= 1,
        0 <= channel < channels,
    ensures
        0 <= tap_index(frame * channels + channel, channels, tap) <= frame * channels + channel,
{
    assert((frame - tap) * channels >= 0 && tap * channels >= 0 && (frame - tap) * channels
        == frame * channels - tap * channels) by (nonlinear_arith)
        requires
            0 <= tap <= frame,
            channels >= 1,
    ;
}

} // verus!
