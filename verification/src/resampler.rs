//! A polyphase FIR resampler.
//!
//! The resampler converts a source at one rate to another rate. The caller
//! designs the lowpass prototype and supplies the multiply-accumulate step;
//! the resampler reduces the two rates to a ratio, splits the prototype into
//! its phases, keeps a scrolling window over the input, and decides which taps
//! meet which input samples for every output sample.

use crate::source::{
    first_of, foreknown, lemma_foreknown_adds_up, lemma_foreknown_at_rest, Call, ChannelCount,
    Sample, SampleRate, Source, SILENCE,
};
use vstd::prelude::*;

verus! {

/// Whether `d` divides `n`.
pub open spec fn divides(d: nat, n: nat) -> bool {
    d > 0 && n % d == 0
}

/// Whether `g` is the greatest common divisor of `a` and `b`.
pub open spec fn is_gcd(a: nat, b: nat, g: nat) -> bool {
    &&& divides(g, a)
    &&& divides(g, b)
    &&& forall|d: nat| #[trigger] divides(d, a) && divides(d, b) ==> d <= g
}

proof fn lemma_divides_remainder(d: nat, a: nat, b: nat)
    requires
        b > 0,
        divides(d, b),
    ensures
        divides(d, a) <==> divides(d, a % b),
{
    let q = a / b;
    let r = a % b;
    vstd::arithmetic::div_mod::lemma_fundamental_div_mod(a as int, b as int);
    vstd::arithmetic::div_mod::lemma_fundamental_div_mod(b as int, d as int);
    let y = b / d;
    assert(b == d * y);
    if divides(d, a) {
        vstd::arithmetic::div_mod::lemma_fundamental_div_mod(a as int, d as int);
        let x = a / d;
        assert(a == d * x);
        assert(r == d * (x - q * y)) by (nonlinear_arith)
            requires
                a == b * q + r,
                a == d * x,
                b == d * y,
        ;
        vstd::arithmetic::div_mod::lemma_mod_multiples_basic(x - q * y, d as int);
    }
    if divides(d, r) {
        vstd::arithmetic::div_mod::lemma_fundamental_div_mod(r as int, d as int);
        let z = r / d;
        assert(r == d * z);
        assert(a == d * (q * y + z)) by (nonlinear_arith)
            requires
                a == b * q + r,
                r == d * z,
                b == d * y,
        ;
        vstd::arithmetic::div_mod::lemma_mod_multiples_basic((q * y + z) as int, d as int);
    }
}

/// The greatest common divisor of `a` and `b`, of which one is not zero.
pub fn gcd(a: u32, b: u32) -> (g: u32)
    requires
        a > 0 || b > 0,
    ensures
        is_gcd(a as nat, b as nat, g as nat),
    decreases b,
{
    if b == 0 {
        proof {
            assert(a as nat % a as nat == 0);
            assert forall|d: nat| #[trigger] divides(d, a as nat) && divides(d, 0) implies d <= a by {
                if d > a {
                    vstd::arithmetic::div_mod::lemma_small_mod(a as nat, d);
                }
            }
        }
        a
    } else {
        let g = gcd(b, a % b);
        proof {
            lemma_divides_remainder(g as nat, a as nat, b as nat);
            assert forall|d: nat| #[trigger] divides(d, a as nat) && divides(d, b as nat) implies d
                <= g by {
                lemma_divides_remainder(d, a as nat, b as nat);
            }
        }
        g
    }
}

/// Whether `from / to` is `source / dest` in lowest terms: both divided by
/// their greatest common divisor.
pub open spec fn reduces(source: nat, dest: nat, from: nat, to: nat) -> bool {
    exists|g: nat| #[trigger] is_gcd(source, dest, g) && source == g * from && dest == g * to
}

/// A conversion ratio in lowest terms: `from` input frames span the time of
/// `to` output frames.
#[derive(Clone, Copy, Debug)]
pub struct Ratio {
    pub from: u32,
    pub to: u32,
}

impl Ratio {
    /// The ratio of the two rates, both divided by their greatest common divisor.
    pub fn new(source_rate: SampleRate, dest_rate: SampleRate) -> (r: Self)
        ensures
            r.from >= 1,
            r.to >= 1,
            reduces(source_rate.value(), dest_rate.value(), r.from as nat, r.to as nat),
    {
        let src: u32 = source_rate.get();
        let dst: u32 = dest_rate.get();
        let g: u32 = gcd(src, dst);
        proof {
            vstd::arithmetic::div_mod::lemma_fundamental_div_mod(src as int, g as int);
            vstd::arithmetic::div_mod::lemma_fundamental_div_mod(dst as int, g as int);
            assert(src as nat == (g as nat) * ((src / g) as nat));
            assert(dst as nat == (g as nat) * ((dst / g) as nat));
            assert(src / g >= 1 && dst / g >= 1) by (nonlinear_arith)
                requires
                    src == g * (src / g),
                    dst == g * (dst / g),
                    src >= 1,
                    dst >= 1,
                    g >= 1,
            ;
            assert(is_gcd(src as nat, dst as nat, g as nat));
        }
        Ratio { from: src / g, to: dst / g }
    }

    /// The larger of the two steps: the factor by which the passband of the
    /// lowpass prototype is narrowed.
    pub fn downscale_factor(&self) -> (d: u32)
        ensures
            d >= self.from,
            d >= self.to,
            d == self.from || d == self.to,
    {
        if self.to >= self.from {
            self.to
        } else {
            self.from
        }
    }
}

/// How many taps of a prototype of `taps` taps fall into phase `k` of `to`:
/// those at `k`, `k + to`, `k + 2 * to`, ...
pub open spec fn phase_len(taps: nat, to: nat, k: nat) -> nat {
    if k < taps {
        ((taps - 1 - k) / to as int + 1) as nat
    } else {
        0
    }
}

/// Phase `k` of the prototype: its taps at `k`, `k + to`, `k + 2 * to`, ...,
/// last first.
pub open spec fn phase_of(prototype: Seq<Sample>, to: nat, k: nat) -> Seq<Sample> {
    let m = phase_len(prototype.len(), to, k);
    Seq::new(m, |j: int| prototype[k + (m - 1 - j) * to])
}

/// The polyphase decomposition of the prototype: its `to` phases.
pub open spec fn polyphase(prototype: Seq<Sample>, to: nat) -> Seq<Seq<Sample>> {
    Seq::new(to, |k: int| phase_of(prototype, to, k as nat))
}

proof fn lemma_phase_index(taps: nat, to: nat, k: nat, j: int)
    requires
        to >= 1,
        k < taps,
        0 <= j < phase_len(taps, to, k),
    ensures
        0 <= k + (phase_len(taps, to, k) - 1 - j) * to < taps,
        j + 1 < phase_len(taps, to, k) ==> k + (phase_len(taps, to, k) - 1 - (j + 1)) * to == k + (
        phase_len(taps, to, k) - 1 - j) * to - to,
{
    let q = (taps - 1 - k) / to as int;
    vstd::arithmetic::div_mod::lemma_fundamental_div_mod(taps - 1 - k, to as int);
    vstd::arithmetic::div_mod::lemma_mod_bound(taps - 1 - k, to as int);
    assert(0 <= (q - j) * to <= q * to) by (nonlinear_arith)
        requires
            0 <= j <= q,
            to >= 1,
    ;
    assert((q - (j + 1)) * to == (q - j) * to - to) by (nonlinear_arith);
}

fn phase(prototype: &Vec<Sample>, to: u32, k: u32) -> (taps: Vec<Sample>)
    requires
        to >= 1,
    ensures
        taps@ == phase_of(prototype@, to as nat, k as nat),
{
    let total: usize = prototype.len();
    let mut taps: Vec<Sample> = Vec::new();
    if k as usize >= total {
        assert(taps@ =~= phase_of(prototype@, to as nat, k as nat));
        return taps;
    }
    let m: usize = (total - 1 - k as usize) / (to as usize) + 1;
    let ghost goal = phase_of(prototype@, to as nat, k as nat);
    proof {
        lemma_phase_index(total as nat, to as nat, k as nat, 0);
    }
    let mut at: usize = k as usize + (m - 1) * (to as usize);
    let mut j: usize = 0;
    while j < m
        invariant
            to >= 1,
            k < total == prototype@.len(),
            m == phase_len(total as nat, to as nat, k as nat),
            goal == phase_of(prototype@, to as nat, k as nat),
            j <= m,
            j < m ==> at == k + (m - 1 - j) * to,
            taps@ == goal.take(j as int),
        decreases m - j,
    {
        proof {
            lemma_phase_index(total as nat, to as nat, k as nat, j as int);
        }
        taps.push(prototype[at]);
        proof {
            assert(taps@ =~= goal.take(j + 1));
        }
        j += 1;
        if j < m {
            at = at - to as usize;
        }
    }
    proof {
        assert(goal.take(m as int) =~= goal);
    }
    taps
}

/// The taps that a bank of phases holds.
pub open spec fn phases(bank: Seq<Vec<Sample>>) -> Seq<Seq<Sample>> {
    Seq::new(bank.len(), |k: int| bank[k]@)
}

/// Splits the prototype into its `to` phases.
pub fn decompose(prototype: &Vec<Sample>, to: u32) -> (bank: Vec<Vec<Sample>>)
    requires
        to >= 1,
    ensures
        phases(bank@) == polyphase(prototype@, to as nat),
{
    let mut bank: Vec<Vec<Sample>> = Vec::new();
    let mut k: u32 = 0;
    while k < to
        invariant
            to >= 1,
            k <= to,
            bank@.len() == k,
            forall|i: int| 0 <= i < k ==> (#[trigger] bank@[i])@ == phase_of(prototype@, to as nat, i as nat),
        decreases to - k,
    {
        let taps = phase(prototype, to, k);
        bank.push(taps);
        k += 1;
    }
    proof {
        assert(phases(bank@) =~= polyphase(prototype@, to as nat));
    }
    bank
}

proof fn lemma_window_index(frames: int, half: int, c: int, ch: int)
    by (nonlinear_arith)
    requires
        0 <= frames < 2 * half,
        0 <= ch < c,
    ensures
        0 <= frames * c + ch < 2 * (half * c),
        frames >= half ==> frames * c + ch >= half * c,
        (frames - half) * c == frames * c - half * c,
{
}

proof fn lemma_scaled_sum(a: int, b: int, c: int)
    by (nonlinear_arith)
    ensures
        (a + b) * c == a * c + b * c,
        (a - b) * c == a * c - b * c,
{
}

proof fn lemma_scaled_order(a: int, b: int, c: int)
    by (nonlinear_arith)
    requires
        a <= b,
        0 <= c,
    ensures
        a * c <= b * c,
{
}

proof fn lemma_frame_of_index(i: int, c: int, ch: int)
    requires
        0 <= i,
        0 <= ch < c,
    ensures
        (i * c + ch) / c == i,
        (i * c + ch) % c == ch,
{
    vstd::arithmetic::div_mod::lemma_fundamental_div_mod_converse(i * c + ch, c, i, ch);
}

proof fn lemma_one_more_move(offset: int, half: int)
    requires
        1 <= half,
        0 <= offset,
        offset % half == 0,
    ensures
        (offset + half) / half == offset / half + 1,
{
    vstd::arithmetic::div_mod::lemma_fundamental_div_mod(offset, half);
    assert(offset + half == (offset / half + 1) * half + 0) by (nonlinear_arith)
        requires
            offset == half * (offset / half),
    ;
    vstd::arithmetic::div_mod::lemma_fundamental_div_mod_converse(
        offset + half,
        half,
        offset / half + 1,
        0,
    );
}

proof fn lemma_window_reaches(index: int, offset: int, half: int, c: int)
    requires
        1 <= half,
        1 <= c,
        0 <= offset <= index < offset + 2 * half,
        offset % half == 0,
    ensures
        (index / half + 1) * (half * c) <= (offset + 2 * half) * c,
        2 * (half * c) <= (offset + 2 * half) * c,
{
    let r = offset / half;
    vstd::arithmetic::div_mod::lemma_fundamental_div_mod(offset, half);
    vstd::arithmetic::div_mod::lemma_fundamental_div_mod(index, half);
    vstd::arithmetic::div_mod::lemma_mod_bound(index, half);
    let q = index / half;
    assert(q <= r + 1) by (nonlinear_arith)
        requires
            index == half * q + index % half,
            0 <= index % half,
            offset == half * r,
            index < offset + 2 * half,
            half >= 1,
    ;
    assert(r >= 0) by (nonlinear_arith)
        requires
            offset == half * r,
            offset >= 0,
            half >= 1,
    ;
    assert((q + 1) * (half * c) <= (offset + 2 * half) * c) by (nonlinear_arith)
        requires
            q <= r + 1,
            offset == half * r,
            half >= 1,
            c >= 1,
            r >= 0,
    ;
    assert(2 * (half * c) <= (offset + 2 * half) * c) by (nonlinear_arith)
        requires
            offset >= 0,
            c >= 1,
    ;
}

/// `count` pulls for `len` samples each.
pub open spec fn pulls_of(count: nat, len: nat) -> Seq<Call> {
    Seq::new(count, |i: int| Call::Pull(len))
}

/// Fills both halves of the window from the source. The result is where the
/// data ends, if the source came up short.
fn prime<S: Source>(source: &mut S, filter_1: &mut Vec<Sample>, filter_2: &mut Vec<Sample>) -> (last:
    Option<usize>)
    requires
        old(source).wf(),
        old(filter_1)@.len() == old(filter_2)@.len(),
        0 < 2 * old(filter_1)@.len() <= usize::MAX,
    ensures
        final(source).wf(),
        old(source).empty() ==> final(source).empty() && last == Some(0usize),
        final(source).calls() == old(source).calls() + pulls_of(
            if last matches Some(end) && end < old(filter_1)@.len() {
                1
            } else {
                2
            },
            old(filter_1)@.len(),
        ),
        foreknown(
            *old(source),
            *final(source),
            if last matches Some(end) && end < old(filter_1)@.len() {
                old(filter_1)@.len()
            } else {
                2 * old(filter_1)@.len()
            },
        ),
        final(source).channels() == old(source).channels(),
        final(source).rate() == old(source).rate(),
        final(filter_1)@.len() == old(filter_1)@.len(),
        final(filter_2)@.len() == old(filter_2)@.len(),
        old(source).emitted().is_prefix_of(final(source).emitted()),
        match last {
            Some(end) => end < 2 * old(filter_1)@.len() && final(source).emitted().skip(
                old(source).emitted().len() as int,
            ) == (final(filter_1)@ + final(filter_2)@).take(end as int),
            None => final(source).emitted().skip(old(source).emitted().len() as int)
                == final(filter_1)@ + final(filter_2)@,
        },
{
    let size: usize = filter_1.len();
    let ghost before = source.emitted();
    let ghost asked = source.calls();
    let ghost unprimed = *source;
    let len = source.write_samples(filter_1);
    let ghost halfway = *source;
    proof {
        if unprimed.upcoming() is Some {
            assert(filter_1@.take(len as int) =~= first_of(
                unprimed.upcoming().unwrap(),
                size as nat,
            ));
        }
        assert(foreknown(unprimed, halfway, size as nat));
    }
    if len == size {
        let len = source.write_samples(filter_2);
        proof {
            if halfway.upcoming() is Some {
                assert(filter_2@.take(len as int) =~= first_of(
                    halfway.upcoming().unwrap(),
                    size as nat,
                ));
            }
            assert(foreknown(halfway, *source, size as nat));
            lemma_foreknown_adds_up(unprimed, halfway, *source, size as nat, size as nat);
            assert(source.calls() =~= asked + pulls_of(2, size as nat));
            assert(filter_1@.take(size as int) =~= filter_1@);
            assert(source.emitted().skip(before.len() as int) =~= (filter_1@ + filter_2@).take(
                size + len,
            ));
            assert((filter_1@ + filter_2@).take(2 * size) =~= filter_1@ + filter_2@);
        }
        if len == size {
            None
        } else {
            Some(size + len)
        }
    } else {
        proof {
            assert(source.calls() =~= asked + pulls_of(1, size as nat));
            assert(source.emitted().skip(before.len() as int) =~= (filter_1@ + filter_2@).take(
                len as int,
            ));
        }
        Some(len)
    }
}

/// The fixed numbers of a resampler.
pub struct Geometry {
    /// How far the input advances, in steps of `1 / to` input frames, per output frame.
    pub from: nat,
    /// The number of phases.
    pub to: nat,
    /// The centre of the prototype: half its length.
    pub left: nat,
    /// The number of interleaved channels.
    pub channels: nat,
    /// How many frames each half of the window holds.
    pub half: nat,
}

impl Geometry {
    /// The channel of output sample `o`.
    pub open spec fn channel(self, o: nat) -> nat {
        o % self.channels
    }

    /// The frame of output sample `o`.
    pub open spec fn frame(self, o: nat) -> nat {
        o / self.channels
    }

    /// The place of output sample `o` on the upscaled time axis.
    pub open spec fn start(self, o: nat) -> nat {
        self.left + self.from * self.frame(o)
    }

    /// The phase that output sample `o` is filtered with.
    pub open spec fn phase(self, o: nat) -> nat {
        self.start(o) % self.to
    }

    /// The last input frame that output sample `o` looks at.
    pub open spec fn input_frame(self, o: nat) -> nat {
        self.start(o) / self.to
    }

    /// The place in the input of the last sample that output sample `o` looks at.
    pub open spec fn position(self, o: nat) -> nat {
        self.input_frame(o) * self.channels + self.channel(o)
    }

    /// How many samples one half of the window holds.
    pub open spec fn half_len(self) -> nat {
        self.half * self.channels
    }

    /// Whether output sample `o` lies where the machine's integers end.
    pub open spec fn overflows(self, o: nat) -> bool {
        o >= usize::MAX || self.start(o) > u64::MAX
    }

    /// Whether output sample `o` lies past the end of an input of `len` samples.
    pub open spec fn past_end(self, o: nat, len: nat) -> bool {
        self.position(o) + self.left * self.channels > len
    }

    /// How many samples have been asked of the wrapped source by the time
    /// that output sample `o` is computed: both halves of the window at
    /// first, and one more half each time that the window has to move on.
    pub open spec fn reach(self, o: nat) -> nat {
        let halves = self.input_frame(o) / self.half + 1;
        if halves <= 2 {
            2 * self.half_len()
        } else {
            halves * self.half_len()
        }
    }
}

/// The pairs of an input sample and a tap that output sample `o` is made of,
/// in the order in which they are accumulated.
///
/// With `m` taps in the phase of `o` and `i` its last input frame: the `m`
/// frames before frame `i`, each with its tap, where there are that many;
/// else the frames from the first to frame `i`, with the last `i + 1` taps.
pub open spec fn operands(
    bank: Seq<Seq<Sample>>,
    input: Seq<Sample>,
    g: Geometry,
    o: nat,
) -> Seq<(Sample, Sample)> {
    let taps = bank[g.phase(o) as int];
    let m = taps.len();
    let i = g.input_frame(o);
    let ch = g.channel(o);
    if i >= m {
        Seq::new(m, |j: int| (input[(i - m + j) * g.channels + ch], taps[j]))
    } else {
        Seq::new(i + 1, |j: int| (input[j * g.channels + ch], taps[m - i - 1 + j]))
    }
}

/// Whether `result` is what `mac` gives when it is fed the terms one after
/// another, starting from silence: each call gets the result so far, an
/// input sample and a tap.
pub open spec fn accumulates<M: Fn(Sample, Sample, Sample) -> Sample>(
    mac: M,
    terms: Seq<(Sample, Sample)>,
    result: Sample,
) -> bool
    decreases terms.len(),
{
    if terms.len() == 0 {
        result == SILENCE
    } else {
        exists|before: Sample|
            #![trigger call_ensures(mac, (before, terms.last().0, terms.last().1), result)]
            accumulates(mac, terms.drop_last(), before) && call_ensures(
                mac,
                (before, terms.last().0, terms.last().1),
                result,
            )
    }
}

/// One more call of `mac` accumulates one more term.
pub proof fn lemma_accumulates_one_more<M: Fn(Sample, Sample, Sample) -> Sample>(
    mac: M,
    terms: Seq<(Sample, Sample)>,
    before: Sample,
    term: (Sample, Sample),
    result: Sample,
)
    requires
        accumulates(mac, terms, before),
        call_ensures(mac, (before, term.0, term.1), result),
    ensures
        accumulates(mac, terms.push(term), result),
{
    let longer = terms.push(term);
    assert(longer.drop_last() =~= terms);
    assert(longer.last() == term);
    assert(accumulates(mac, longer.drop_last(), before));
    assert(call_ensures(mac, (before, longer.last().0, longer.last().1), result));
}

/// Whether `sample` is output sample `o`: accumulated over its operands, all
/// of which the input holds. An output sample that lies past the end of the
/// input is written only when the wrapped source had not yet come up short.
pub open spec fn resampled<M: Fn(Sample, Sample, Sample) -> Sample>(
    mac: M,
    bank: Seq<Seq<Sample>>,
    input: Seq<Sample>,
    g: Geometry,
    o: nat,
    sample: Sample,
) -> bool {
    &&& g.position(o) < input.len()
    &&& g.past_end(o, input.len()) ==> input.len() >= g.reach(o)
    &&& accumulates(mac, operands(bank, input, g, o), sample)
}

/// A [`Source`] that resamples another source to a new rate.
pub struct Resampler<S, M> {
    source: S,
    from: u32,
    to: u32,
    // Actual output rate - different from `to` because that is scaled down by GCD
    dest_rate: SampleRate,
    channels: usize,
    left_offset: usize,
    kaiser_values: Vec<Vec<Sample>>,
    filter_1: Vec<Sample>,
    filter_2: Vec<Sample>,
    // How many frames each buffer holds
    half_frames: usize,
    // The size of each individual buffer
    buffer_size: usize,
    // How many input frames were already discarded before the start of the current filter
    input_offset: u64,
    // How many output samples have been written so far
    output_count: usize,
    // The last valid sample in the filter, if the source ended and wasn't able to fill the entire buffer
    last_sample: Option<usize>,
    mac: M,
    base: Ghost<nat>,
    log: Ghost<Seq<Sample>>,
    trace: Ghost<Seq<Call>>,
}

impl<S: Source, M: Fn(Sample, Sample, Sample) -> Sample> Resampler<S, M> {
    /// The fixed numbers of this resampler.
    pub closed spec fn geometry(&self) -> Geometry {
        Geometry {
            from: self.from as nat,
            to: self.to as nat,
            left: self.left_offset as nat,
            channels: self.channels as nat,
            half: self.half_frames as nat,
        }
    }

    /// The phases of the prototype.
    pub closed spec fn bank(&self) -> Seq<Seq<Sample>> {
        phases(self.kaiser_values@)
    }

    /// The wrapped source.
    pub closed spec fn upstream(&self) -> S {
        self.source
    }

    /// How many samples the wrapped source had emitted when the window was
    /// last filled from its start.
    pub closed spec fn origin(&self) -> nat {
        self.base@
    }

    /// Every sample pulled from the wrapped source since the window was last
    /// filled from its start.
    pub open spec fn input(&self) -> Seq<Sample> {
        self.upstream().emitted().skip(self.origin() as int)
    }

    /// How many output samples have been written.
    pub closed spec fn produced(&self) -> nat {
        self.output_count as nat
    }

    /// Whether the wrapped source has come up short: nothing more is pulled.
    pub closed spec fn drained(&self) -> bool {
        self.last_sample is Some
    }

    /// The multiply-accumulate step.
    pub closed spec fn accumulator(&self) -> M {
        self.mac
    }

    pub closed spec fn target_rate(&self) -> SampleRate {
        self.dest_rate
    }

    pub closed spec fn history(&self) -> Seq<Sample> {
        self.log@
    }

    pub closed spec fn spec_calls(&self) -> Seq<Call> {
        self.trace@
    }

    /// How many times the window has moved on by one half.
    pub closed spec fn moves(&self) -> nat {
        (self.input_offset as nat) / (self.half_frames as nat)
    }

    spec fn window(&self) -> Seq<Sample> {
        self.filter_1@ + self.filter_2@
    }

    spec fn valid_len(&self) -> nat {
        match self.last_sample {
            Some(end) => end as nat,
            None => (2 * self.buffer_size) as nat,
        }
    }

    pub closed spec fn consistent(&self) -> bool {
        let g = self.geometry();
        &&& self.source.wf()
        &&& self.channels == self.source.channels().value()
        &&& self.channels >= 1
        &&& self.from >= 1
        &&& self.to >= 1
        &&& self.left_offset >= 1
        &&& self.kaiser_values@.len() == self.to
        &&& forall|k: int|
            0 <= k < self.to ==> (#[trigger] self.kaiser_values@[k])@.len() < self.half_frames
        &&& self.half_frames >= 2
        &&& self.buffer_size == self.half_frames * self.channels
        &&& 2 * self.buffer_size <= usize::MAX
        &&& self.filter_1@.len() == self.buffer_size
        &&& self.filter_2@.len() == self.buffer_size
        &&& self.base@ <= self.source.emitted().len()
        &&& self.valid_len() <= 2 * self.buffer_size
        &&& self.last_sample is Some ==> self.valid_len() < 2 * self.buffer_size
        &&& self.input().len() == self.input_offset * self.channels + self.valid_len()
        &&& forall|w: int|
            0 <= w < self.valid_len() ==> #[trigger] self.window()[w] == self.input()[self.input_offset
                * self.channels + w]
        &&& self.input_offset <= g.input_frame(self.produced())
        &&& self.input_offset > 0 ==> self.input_offset + self.half_frames <= g.input_frame(
            self.produced(),
        )
        &&& (self.input_offset as int) % (self.half_frames as int) == 0
    }

    proof fn window_accounts(self)
        requires
            self.consistent(),
        ensures
            self.drained() ==> self.input().len() < (self.moves() + 2) * self.geometry().half_len(),
            !self.drained() ==> self.input().len() == (self.moves() + 2)
                * self.geometry().half_len(),
    {
        let half = self.half_frames as int;
        let c = self.channels as int;
        let off = self.input_offset as int;
        vstd::arithmetic::div_mod::lemma_fundamental_div_mod(off, half);
        assert((self.moves() + 2) * (half * c) == off * c + 2 * (half * c)) by (nonlinear_arith)
            requires
                off == half * self.moves(),
        ;
    }

    /// Whether the window holds what output sample `produced()` needs: `k` is
    /// its phase and `s` the place in the window of the last sample it looks at.
    spec fn located(&self, k: usize, s: usize) -> bool {
        let g = self.geometry();
        let o = self.produced();
        &&& !g.overflows(o)
        &&& k == g.phase(o)
        &&& s == (g.input_frame(o) - self.input_offset) * self.channels + g.channel(o)
        &&& s < self.valid_len()
        &&& g.past_end(o, self.input().len()) ==> self.input().len() >= g.reach(o)
    }

    /// How many frames each half of the window holds for a prototype of
    /// `taps` taps split into `to` phases.
    pub open spec fn half_frames_for(taps: nat, to: nat) -> nat {
        ((taps - 1) / to as int + 2) as nat
    }

    /// Whether a resampler can be built: the prototype has a centre, and the
    /// window fits in memory.
    pub open spec fn buildable(taps: nat, to: nat, channels: nat) -> bool {
        taps >= 2 && 2 * (Self::half_frames_for(taps, to) * channels) <= usize::MAX
    }

    /// Wraps `source` in a resampler to `dest_rate`, with the given lowpass
    /// prototype, and fills the window from the source.
    ///
    /// `None` where the prototype has fewer than two taps or the window does
    /// not fit in memory.
    pub fn new(source: S, dest_rate: SampleRate, prototype: Vec<Sample>, mac: M) -> (r: Option<Self>)
        requires
            source.wf(),
            forall|acc: Sample, x: Sample, h: Sample| #[trigger] call_requires(mac, (acc, x, h)),
        ensures
            r is Some <==> exists|from: nat, to: nat|
                #![trigger reduces(source.rate().value(), dest_rate.value(), from, to)]
                reduces(source.rate().value(), dest_rate.value(), from, to) && Self::buildable(
                    prototype@.len(),
                    to,
                    source.channels().value(),
                ),
            r matches Some(p) ==> {
                let g = p.geometry();
                &&& p.wf()
                &&& reduces(source.rate().value(), dest_rate.value(), g.from, g.to)
                &&& g.from >= 1 && g.to >= 1
                &&& g.left == prototype@.len() / 2
                &&& g.channels == source.channels().value()
                &&& g.half == Self::half_frames_for(prototype@.len(), g.to)
                &&& p.bank() == polyphase(prototype@, g.to)
                &&& p.accumulator() == mac
                &&& p.rate() == dest_rate
                &&& p.channels() == source.channels()
                &&& p.produced() == 0
                &&& p.emitted() == Seq::<Sample>::empty()
                &&& p.origin() == source.emitted().len()
                &&& source.emitted().is_prefix_of(p.upstream().emitted())
                &&& if p.drained() {
                    p.input().len() < 2 * g.half_len()
                } else {
                    p.input().len() == 2 * g.half_len()
                }
                &&& p.upstream().calls() == source.calls() + pulls_of(
                    if p.input().len() < g.half_len() {
                        1
                    } else {
                        2
                    },
                    g.half_len(),
                )
                &&& foreknown(
                    source,
                    p.upstream(),
                    if p.input().len() < g.half_len() {
                        g.half_len()
                    } else {
                        2 * g.half_len()
                    },
                )
                &&& p.moves() == 0
                &&& p.calls() == Seq::<Call>::empty()
                &&& source.empty() ==> p.empty()
            },
    {
        let mut source = source;
        let ghost first = source;
        let ratio = Ratio::new(source.sample_rate(), dest_rate);
        let from: u32 = ratio.from;
        let to: u32 = ratio.to;
        let channel_count = source.channel_count();
        let channels: usize = channel_count.get() as usize;
        let taps: usize = prototype.len();
        proof {
            lemma_reduction_is_unique(source.rate().value(), dest_rate.value(), from as nat, to as nat);
        }
        if taps < 2 {
            return None;
        }
        let left_offset: usize = taps / 2;
        let half_frames: usize = match ((taps - 1) / (to as usize)).checked_add(2) {
            Some(h) => h,
            None => {
                assert(Self::half_frames_for(taps as nat, to as nat) * channels
                    >= Self::half_frames_for(taps as nat, to as nat)) by (nonlinear_arith)
                    requires
                        channels >= 1,
                ;
                return None;
            },
        };
        let buffer_size: usize = match half_frames.checked_mul(channels) {
            Some(b) => b,
            None => {
                return None;
            },
        };
        if buffer_size > usize::MAX / 2 {
            return None;
        }
        let kaiser_values = decompose(&prototype, to);
        let mut filter_1: Vec<Sample> = vec![SILENCE; buffer_size];
        let mut filter_2: Vec<Sample> = vec![SILENCE; buffer_size];
        proof {
            assert(half_frames * channels >= 1) by (nonlinear_arith)
                requires
                    half_frames >= 2,
                    channels >= 1,
            ;
        }
        let last_sample = prime(&mut source, &mut filter_1, &mut filter_2);
        let r = Resampler {
            source,
            from,
            to,
            dest_rate,
            channels,
            left_offset,
            kaiser_values,
            filter_1,
            filter_2,
            half_frames,
            buffer_size,
            input_offset: 0,
            output_count: 0,
            last_sample,
            mac,
            base: Ghost(first.emitted().len()),
            log: Ghost(Seq::empty()),
            trace: Ghost(Seq::empty()),
        };
        proof {
            let g = r.geometry();
            assert(r.input() =~= r.window().take(r.valid_len() as int));
            assert forall|k: int| 0 <= k < to implies (#[trigger] r.kaiser_values@[k])@.len()
                < half_frames by {
                assert(r.kaiser_values@.len() == phases(r.kaiser_values@).len());
                assert(r.kaiser_values@[k]@ == phases(r.kaiser_values@)[k]);
                assert(phases(r.kaiser_values@)[k] == phase_of(prototype@, to as nat, k as nat));
                if k < taps {
                    vstd::arithmetic::div_mod::lemma_div_is_ordered(
                        taps - 1 - k,
                        taps - 1,
                        to as int,
                    );
                }
            }
            assert(g.frame(0) == 0);
            assert(g.from * 0 == 0) by (nonlinear_arith);
            assert(g.input_frame(0) >= 0);
            assert(0 * r.channels == 0) by (nonlinear_arith);
            assert(r.source.wf());
            assert(r.channels == r.source.channels().value());
            assert(r.kaiser_values@.len() == phases(r.kaiser_values@).len());
            assert(r.buffer_size == r.half_frames * r.channels);
            assert(r.base@ <= r.source.emitted().len());
            assert(r.valid_len() <= 2 * r.buffer_size);
            assert(r.input().len() == r.valid_len());
            assert(r.consistent());
        }
        Some(r)
    }
}

/// A pair of rates has one reduction only.
pub proof fn lemma_reduction_is_unique(source: nat, dest: nat, from: nat, to: nat)
    requires
        reduces(source, dest, from, to),
    ensures
        forall|f: nat, t: nat| #[trigger] reduces(source, dest, f, t) ==> f == from && t == to,
{
    let g = choose|g: nat| #[trigger] is_gcd(source, dest, g) && source == g * from && dest == g * to;
    assert forall|f: nat, t: nat| #[trigger] reduces(source, dest, f, t) implies f == from && t
        == to by {
        let h = choose|h: nat| #[trigger] is_gcd(source, dest, h) && source == h * f && dest == h * t;
        assert(divides(g, source) && divides(g, dest));
        assert(divides(h, source) && divides(h, dest));
        assert(g == h);
        assert(f == from && t == to) by (nonlinear_arith)
            requires
                g >= 1,
                g * from == g * f,
                g * to == g * t,
        ;
    }
}

impl<S: Source, M: Fn(Sample, Sample, Sample) -> Sample> Resampler<S, M> {
    /// Brings the window to where output sample `produced()` needs it,
    /// pulling from the wrapped source as long as it has not come up short,
    /// and gives the phase and the place in the window of the last sample to
    /// look at; `None` where the stream has ended.
    fn locate(&mut self) -> (r: Option<(usize, usize)>)
        requires
            old(self).wf(),
        ensures
            final(self).wf(),
            final(self).geometry() == old(self).geometry(),
            final(self).bank() == old(self).bank(),
            final(self).accumulator() == old(self).accumulator(),
            final(self).target_rate() == old(self).target_rate(),
            final(self).upstream().channels() == old(self).upstream().channels(),
            final(self).produced() == old(self).produced(),
            final(self).history() == old(self).history(),
            final(self).origin() == old(self).origin(),
            old(self).input().is_prefix_of(final(self).input()),
            old(self).drained() ==> final(self).drained() && final(self).input() == old(self).input(),
            old(self).drained() || old(self).ended() ==> final(self).upstream() == old(self).upstream()
                && final(self).moves() == old(self).moves(),
            old(self).upstream().empty() ==> final(self).upstream().empty(),
            final(self).spec_calls() == old(self).spec_calls(),
            final(self).moves() >= old(self).moves(),
            final(self).moves() > old(self).moves() ==> (final(self).moves() + 1)
                * old(self).geometry().half <= old(self).geometry().input_frame(
                old(self).produced(),
            ),
            final(self).upstream().calls() == old(self).upstream().calls() + pulls_of(
                (final(self).moves() - old(self).moves()) as nat,
                old(self).geometry().half_len(),
            ),
            foreknown(
                old(self).upstream(),
                final(self).upstream(),
                ((final(self).moves() - old(self).moves()) * old(self).geometry().half_len()) as nat,
            ),
            old(self).ended() ==> r is None,
            r is None ==> final(self).ended(),
            r matches Some((k, s)) ==> final(self).located(k, s),
    {
        let ghost g = self.geometry();
        let ghost o = self.produced();
        let channels: usize = self.channels;
        proof {
            lemma_foreknown_at_rest(self.upstream());
            assert(0 * g.half_len() == 0) by (nonlinear_arith);
        }
        if self.output_count == usize::MAX {
            return None;
        }
        let frame: u64 = (self.output_count / channels) as u64;
        let channel: usize = self.output_count % channels;
        let advance: u64 = match (self.from as u64).checked_mul(frame) {
            Some(a) => a,
            None => {
                return None;
            },
        };
        let start: u64 = match advance.checked_add(self.left_offset as u64) {
            Some(s) => s,
            None => {
                return None;
            },
        };
        let k: usize = (start % (self.to as u64)) as usize;
        let index: u64 = start / (self.to as u64);
        let half: u64 = self.half_frames as u64;
        proof {
            lemma_scaled_order(1, channels as int, half as int);
            lemma_scaled_sum(0, 1, half as int);
            assert(self.half_frames * channels == channels * self.half_frames) by (nonlinear_arith);
        }
        let window: u64 = 2 * half;
        let mut ahead: u64 = index - self.input_offset;
        proof {
            assert(self.upstream().calls() + pulls_of(0, g.half_len()) =~= self.upstream().calls());
        }
        while ahead >= window && self.last_sample.is_none()
            invariant
                window == 2 * half,
                self.wf(),
                self.geometry() == g,
                self.produced() == o,
                self.bank() == old(self).bank(),
                self.accumulator() == old(self).accumulator(),
                self.target_rate() == old(self).target_rate(),
                self.upstream().channels() == old(self).upstream().channels(),
                self.history() == old(self).history(),
                self.origin() == old(self).origin(),
                old(self).input().is_prefix_of(self.input()),
                old(self).drained() ==> self.drained() && self.input() == old(self).input(),
                old(self).drained() || old(self).ended() ==> self.upstream() == old(self).upstream()
                    && self.moves() == old(self).moves(),
                !g.overflows(o),
                o == old(self).produced(),
                old(self).upstream().empty() ==> self.upstream().empty(),
                self.spec_calls() == old(self).spec_calls(),
                self.moves() >= old(self).moves(),
                self.moves() > old(self).moves() ==> (self.moves() + 1) * g.half
                    <= g.input_frame(o),
                self.upstream().calls() == old(self).upstream().calls() + pulls_of(
                    (self.moves() - old(self).moves()) as nat,
                    g.half_len(),
                ),
                foreknown(
                    old(self).upstream(),
                    self.upstream(),
                    ((self.moves() - old(self).moves()) * g.half_len()) as nat,
                ),
                g == old(self).geometry(),
                channels == self.channels,
                half == self.half_frames,
                index == g.input_frame(o),
                ahead == index - self.input_offset,
            decreases ahead,
        {
            let ghost before = *self;
            let len = self.source.write_samples(&mut self.filter_1);
            if len != self.buffer_size {
                self.last_sample = Some(self.buffer_size + len);
            }
            std::mem::swap(&mut self.filter_1, &mut self.filter_2);
            ahead = ahead - half;
            self.input_offset = self.input_offset + half;
            proof {
                let size = self.buffer_size as int;
                let fresh = self.filter_2@.take(len as int);
                lemma_scaled_sum(before.input_offset as int, half as int, channels as int);
                vstd::arithmetic::div_mod::lemma_mod_adds(
                    before.input_offset as int,
                    half as int,
                    half as int,
                );
                vstd::arithmetic::div_mod::lemma_mod_self_0(half as int);
                lemma_one_more_move(before.input_offset as int, half as int);
                assert(self.moves() == before.moves() + 1);
                vstd::arithmetic::div_mod::lemma_fundamental_div_mod(
                    self.input_offset as int,
                    half as int,
                );
                assert((self.moves() + 1) * g.half == self.input_offset + half) by (nonlinear_arith)
                    requires
                        self.input_offset == half * self.moves(),
                        g.half == half,
                ;
                assert(self.buffer_size == g.half_len());
                assert(self.upstream().calls() =~= old(self).upstream().calls() + pulls_of(
                    (self.moves() - old(self).moves()) as nat,
                    g.half_len(),
                ));
                if before.source.upcoming() is Some {
                    assert(fresh =~= first_of(before.source.upcoming().unwrap(), size as nat));
                }
                assert(foreknown(before.source, self.source, size as nat));
                lemma_foreknown_adds_up(
                    old(self).upstream(),
                    before.source,
                    self.source,
                    ((before.moves() - old(self).moves()) * g.half_len()) as nat,
                    size as nat,
                );
                let m0 = old(self).moves() as int;
                let m1 = before.moves() as int;
                let m2 = self.moves() as int;
                let b = g.half_len() as int;
                assert((m2 - m0) * b == (m1 - m0) * b + size) by (nonlinear_arith)
                    requires
                        m2 == m1 + 1,
                        size == b,
                ;
                assert(self.input() =~= before.input() + fresh);
                assert forall|w: int| 0 <= w < self.valid_len() implies #[trigger] self.window()[w]
                    == self.input()[self.input_offset * self.channels + w] by {
                    if w < size {
                        assert(self.window()[w] == before.window()[size + w]);
                    } else {
                        assert(self.window()[w] == fresh[w - size]);
                    }
                }
                assert(self.consistent());
            }
        }
        if ahead >= window {
            proof {
                lemma_scaled_order(2 * half as int, ahead as int, channels as int);
                lemma_scaled_sum(index as int, self.input_offset as int, channels as int);
                lemma_scaled_sum(half as int, half as int, channels as int);
                assert(self.left_offset * channels >= 0) by (nonlinear_arith);
            }
            return None;
        }
        proof {
            lemma_window_index(ahead as int, half as int, channels as int, channel as int);
            lemma_scaled_sum(index as int, self.input_offset as int, channels as int);
            if self.last_sample is None {
                lemma_window_reaches(
                    index as int,
                    self.input_offset as int,
                    half as int,
                    channels as int,
                );
                lemma_scaled_sum(self.input_offset as int, 2 * half, channels as int);
                assert((2 * half) * channels == 2 * (half * channels)) by (nonlinear_arith);
            }
        }
        let s: usize = (ahead as usize) * channels + channel;
        if let Some(end) = self.last_sample {
            match self.left_offset.checked_mul(channels) {
                None => {
                    return None;
                },
                Some(lead) => {
                    if lead > end || s > end - lead {
                        return None;
                    }
                    assert(lead >= 1) by (nonlinear_arith)
                        requires
                            lead == self.left_offset * channels,
                            self.left_offset >= 1,
                            channels >= 1,
                    ;
                },
            }
        }
        Some((k, s))
    }

    /// Computes output sample `produced()` from the window.
    fn get_sample(&self, k: usize, s: usize) -> (v: Sample)
        requires
            self.wf(),
            self.located(k, s),
        ensures
            resampled(
                self.accumulator(),
                self.bank(),
                self.input(),
                self.geometry(),
                self.produced(),
                v,
            ),
    {
        let ghost g = self.geometry();
        let ghost o = self.produced();
        let ghost terms = operands(self.bank(), self.input(), g, o);
        let ghost index = g.input_frame(o) as int;
        let ghost ch = g.channel(o) as int;
        let ghost off = self.input_offset as int;
        let channels: usize = self.channels;
        let size: usize = self.buffer_size;
        let channel: usize = self.output_count % channels;
        let taps: &Vec<Sample> = &self.kaiser_values[k];
        let m: usize = taps.len();
        proof {
            assert(self.bank()[k as int] == taps@);
            lemma_scaled_order(m as int, self.half_frames as int, channels as int);
            lemma_scaled_sum(index, off, channels as int);
            lemma_frame_of_index(index - off, channels as int, ch);
            if off > 0 {
                lemma_scaled_order(self.half_frames as int, index - off, channels as int);
            }
            if index >= m {
                lemma_scaled_order(m as int, index, channels as int);
            } else {
                lemma_scaled_order(index + 1, m as int, channels as int);
                lemma_scaled_sum(index, 1, channels as int);
            }
        }
        let span: usize = m * channels;
        let first: usize = if s >= span {
            0
        } else {
            m - s / channels - 1
        };
        let mut w: usize = if s >= span {
            s - span
        } else {
            channel
        };
        let ghost origin = w as int;
        let mut j: usize = first;
        let mut acc: Sample = SILENCE;
        proof {
            assert(terms.take(0) =~= Seq::<(Sample, Sample)>::empty());
            assert(self.accumulator() == self.mac);
        }
        while j < m
            invariant
                self.wf(),
                forall|a: Sample, x: Sample, h: Sample| #[trigger] call_requires(self.mac, (a, x, h)),
                self.located(k, s),
                g == self.geometry(),
                o == self.produced(),
                terms == operands(self.bank(), self.input(), g, o),
                index == g.input_frame(o),
                ch == g.channel(o),
                off == self.input_offset,
                channels == self.channels,
                size == self.buffer_size,
                taps@ == self.bank()[k as int],
                m == taps@.len(),
                span == m * channels,
                first <= j <= m,
                terms.len() == m - first,
                index >= m ==> first == 0 && origin == s - span,
                index < m ==> first == m - index - 1 && origin == ch && off == 0,
                j < m ==> w == origin + (j - first) * channels,
                j < m ==> w <= s,
                accumulates(self.mac, terms.take(j - first), acc),
            decreases m - j,
        {
            let ghost t = j - first;
            proof {
                lemma_scaled_sum(t, 1, channels as int);
                lemma_scaled_sum(index - m, t, channels as int);
                lemma_scaled_sum(index, m as int, channels as int);
                lemma_scaled_order(t + 1, m - first, channels as int);
                lemma_scaled_sum(index, off, channels as int);
                lemma_scaled_sum(index, 1, channels as int);
                assert(self.window()[w as int] == self.input()[off * channels + w]);
            }
            let x: Sample = if w < size {
                self.filter_1[w]
            } else {
                self.filter_2[w - size]
            };
            let ghost before = acc;
            let h: Sample = taps[j];
            acc = (self.mac)(acc, x, h);
            proof {
                assert(call_ensures(self.mac, (before, x, h), acc));
                assert(terms[t] == (x, taps@[j as int]));
                lemma_accumulates_one_more(self.mac, terms.take(t), before, terms[t], acc);
                assert(terms.take(t + 1) =~= terms.take(t).push(terms[t]));
            }
            j += 1;
            if j < m {
                proof {
                    lemma_scaled_order(t + 2, m - first, channels as int);
                    lemma_scaled_sum(t, 2, channels as int);
                    lemma_scaled_sum(index, 1, channels as int);
                    lemma_scaled_sum(index, off, channels as int);
                }
                w = w + channels;
            }
        }
        proof {
            assert(terms.take(m - first) =~= terms);
            lemma_scaled_sum(index, off, channels as int);
            assert(g.position(o) < self.input().len());
        }
        acc
    }
}

impl<S: Source, M: Fn(Sample, Sample, Sample) -> Sample> Source for Resampler<S, M> {
    open spec fn wf(&self) -> bool {
        &&& self.consistent()
        &&& forall|acc: Sample, x: Sample, h: Sample| #[trigger]
            call_requires(self.accumulator(), (acc, x, h))
    }

    open spec fn channels(&self) -> ChannelCount {
        self.upstream().channels()
    }

    open spec fn rate(&self) -> SampleRate {
        self.target_rate()
    }

    open spec fn emitted(&self) -> Seq<Sample> {
        self.history()
    }

    /// The stream has ended where the wrapped source has come up short and the
    /// next output sample lies past the end of the input, or where the next
    /// output sample lies where the machine's integers end.
    open spec fn ended(&self) -> bool {
        ||| self.geometry().overflows(self.produced())
        ||| self.drained() && self.geometry().past_end(self.produced(), self.input().len())
    }

    /// The resampler holds no samples where the wrapped source holds none.
    open spec fn empty(&self) -> bool {
        self.upstream().empty() && self.drained() && self.input().len() == 0
    }

    open spec fn calls(&self) -> Seq<Call> {
        self.spec_calls()
    }

    #[inline]
    fn channel_count(&self) -> (c: ChannelCount) {
        self.source.channel_count()
    }

    #[inline]
    fn sample_rate(&self) -> (r: SampleRate) {
        self.dest_rate
    }

    /// Writes output samples until the buffer is full or the stream has
    /// ended. Each is accumulated from silence over its [`operands`], which
    /// are taken from what has been pulled from the wrapped source so far.
    ///
    /// The wrapped source is pulled for one half of the window each time
    /// that the window moves on, and the window moves on no further than the
    /// last output sample that was looked for needs. Once the wrapped source
    /// has come up short, or the stream has ended, it is left alone. Where the source knows
    /// what it will emit, what it is pulled for is the beginning of that.
    fn write_samples(&mut self, buffer: &mut [Sample]) -> (n: usize)
        ensures
            final(self).geometry() == old(self).geometry(),
            final(self).bank() == old(self).bank(),
            final(self).accumulator() == old(self).accumulator(),
            final(self).origin() == old(self).origin(),
            final(self).produced() == old(self).produced() + n,
            n < old(buffer)@.len() ==> final(self).ended(),
            old(self).input().is_prefix_of(final(self).input()),
            old(self).drained() ==> final(self).drained() && final(self).input() == old(self).input(),
            old(self).drained() || old(self).ended() ==> final(self).upstream() == old(self).upstream()
                && final(self).moves() == old(self).moves(),
            final(self).moves() >= old(self).moves(),
            final(self).moves() > old(self).moves() ==> (final(self).moves() + 1)
                * old(self).geometry().half <= old(self).geometry().input_frame(
                if n < old(buffer)@.len() {
                    (old(self).produced() + n) as nat
                } else {
                    (old(self).produced() + n - 1) as nat
                },
            ),
            final(self).upstream().calls() == old(self).upstream().calls() + pulls_of(
                (final(self).moves() - old(self).moves()) as nat,
                old(self).geometry().half_len(),
            ),
            foreknown(
                old(self).upstream(),
                final(self).upstream(),
                ((final(self).moves() - old(self).moves()) * old(self).geometry().half_len()) as nat,
            ),
            forall|i: int|
                0 <= i < n ==> resampled(
                    old(self).accumulator(),
                    old(self).bank(),
                    final(self).input(),
                    old(self).geometry(),
                    (old(self).produced() + i) as nat,
                    #[trigger] final(buffer)@[i],
                ),
    {
        let len: usize = buffer.len();
        let ghost g = self.geometry();
        let ghost first = self.produced();
        proof {
            if self.empty() {
                assert(g.left * g.channels >= 1) by (nonlinear_arith)
                    requires
                        g.left >= 1,
                        g.channels >= 1,
                ;
                assert(self.ended());
            }
        }
        proof {
            assert(self.upstream().calls() + pulls_of(0, g.half_len()) =~= self.upstream().calls());
            lemma_foreknown_at_rest(self.upstream());
            assert(0 * g.half_len() == 0) by (nonlinear_arith);
        }
        let mut i: usize = 0;
        while i < len
            invariant
                self.wf(),
                g == old(self).geometry(),
                first == old(self).produced(),
                len == old(buffer)@.len(),
                self.mac == old(self).accumulator(),
                self.geometry() == g,
                self.bank() == old(self).bank(),
                self.accumulator() == old(self).accumulator(),
                self.target_rate() == old(self).target_rate(),
                self.upstream().channels() == old(self).upstream().channels(),
                self.origin() == old(self).origin(),
                self.produced() == first + i,
                self.history() == old(self).history() + buffer@.take(i as int),
                old(self).input().is_prefix_of(self.input()),
                old(self).drained() ==> self.drained() && self.input() == old(self).input(),
                old(self).drained() || old(self).ended() ==> self.upstream() == old(self).upstream()
                    && self.moves() == old(self).moves(),
                old(self).ended() ==> i == 0,
                old(self).empty() ==> old(self).ended(),
                old(self).upstream().empty() ==> self.upstream().empty(),
                self.spec_calls() == old(self).spec_calls(),
                self.moves() >= old(self).moves(),
                self.moves() > old(self).moves() ==> i >= 1 && (self.moves() + 1) * g.half
                    <= g.input_frame((first + i - 1) as nat),
                self.upstream().calls() == old(self).upstream().calls() + pulls_of(
                    (self.moves() - old(self).moves()) as nat,
                    g.half_len(),
                ),
                foreknown(
                    old(self).upstream(),
                    self.upstream(),
                    ((self.moves() - old(self).moves()) * g.half_len()) as nat,
                ),
                i <= len == buffer@.len(),
                buffer@.skip(i as int) == old(buffer)@.skip(i as int),
                forall|t: int|
                    0 <= t < i ==> resampled(
                        self.mac,
                        self.bank(),
                        self.input(),
                        g,
                        (first + t) as nat,
                        #[trigger] buffer@[t],
                    ),
            decreases len - i,
        {
            let ghost before = *self;
            let ghost written = buffer@;
            proof {
                if i >= 1 {
                    lemma_input_frame_grows(g, (first + i - 1) as nat);
                }
            }
            let located = self.locate();
            proof {
                lemma_foreknown_adds_up(
                    old(self).upstream(),
                    before.upstream(),
                    self.upstream(),
                    ((before.moves() - old(self).moves()) * g.half_len()) as nat,
                    ((self.moves() - before.moves()) * g.half_len()) as nat,
                );
                let m0 = old(self).moves() as int;
                let m1 = before.moves() as int;
                let m2 = self.moves() as int;
                let b = g.half_len() as int;
                assert((m2 - m0) * b == (m1 - m0) * b + (m2 - m1) * b) by (nonlinear_arith);
            }
            match located {
                None => {
                    proof {
                        assert(self.upstream().calls() =~= old(self).upstream().calls() + pulls_of(
                            (self.moves() - old(self).moves()) as nat,
                            g.half_len(),
                        )) by {
                            assert(pulls_of((before.moves() - old(self).moves()) as nat, g.half_len())
                                + pulls_of((self.moves() - before.moves()) as nat, g.half_len())
                                =~= pulls_of(
                                (self.moves() - old(self).moves()) as nat,
                                g.half_len(),
                            ));
                        }
                        let ghost settled = *self;
                        self.trace = Ghost(self.trace@.push(Call::Pull(len as nat)));
                        assert(self.window() == settled.window());
                        assert(self.valid_len() == settled.valid_len());
                        assert(self.input() == settled.input());
                        assert(self.produced() == settled.produced());
                        assert(self.consistent());
                        assert(self.accumulator() == settled.accumulator());
                        assert(buffer@.take(i as int) + Seq::<Sample>::empty() =~= buffer@.take(i as int));
                        assert forall|t: int| 0 <= t < i implies resampled(
                            self.mac,
                            self.bank(),
                            self.input(),
                            g,
                            (first + t) as nat,
                            #[trigger] buffer@[t],
                        ) by {
                            assert(resampled(
                                self.mac,
                                before.bank(),
                                before.input(),
                                g,
                                (first + t) as nat,
                                written[t],
                            ));
                            lemma_operands_are_stable(
                                self.bank(),
                                before.input(),
                                self.input(),
                                g,
                                (first + t) as nat,
                            );
                            lemma_scaled_order(0, g.left as int, g.channels as int);
                        }
                    }
                    return i;
                },
                Some((k, s)) => {
                    let v = self.get_sample(k, s);
                    buffer[i] = v;
                    let ghost located = *self;
                    self.output_count = self.output_count + 1;
                    proof {
                        assert(pulls_of((before.moves() - old(self).moves()) as nat, g.half_len())
                            + pulls_of((located.moves() - before.moves()) as nat, g.half_len())
                            =~= pulls_of(
                            (located.moves() - old(self).moves()) as nat,
                            g.half_len(),
                        ));
                        self.log = Ghost(self.log@.push(v));
                        assert(buffer@.skip(i + 1) =~= written.skip(i as int).skip(1));
                        assert(buffer@.take(i + 1) =~= written.take(i as int).push(v));
                        assert(self.history() =~= old(self).history() + buffer@.take(i + 1));
                        lemma_input_frame_grows(g, (first + i) as nat);
                        assert(self.input() == located.input());
                        assert(self.window() == located.window());
                        assert(self.valid_len() == located.valid_len());
                        assert(self.produced() == located.produced() + 1);
                        assert(self.input_offset <= g.input_frame(self.produced()));
                        assert(self.consistent());
                        assert forall|t: int| 0 <= t < i + 1 implies resampled(
                            self.mac,
                            self.bank(),
                            self.input(),
                            g,
                            (first + t) as nat,
                            #[trigger] buffer@[t],
                        ) by {
                            if t < i {
                                assert(buffer@[t] == written[t]);
                                assert(resampled(
                                    self.mac,
                                    before.bank(),
                                    before.input(),
                                    g,
                                    (first + t) as nat,
                                    written[t],
                                ));
                                lemma_operands_are_stable(
                                    self.bank(),
                                    before.input(),
                                    self.input(),
                                    g,
                                    (first + t) as nat,
                                );
                                lemma_scaled_order(0, g.left as int, g.channels as int);
                            }
                        }
                    }
                },
            }
            i += 1;
        }
        proof {
            let ghost settled = *self;
            self.trace = Ghost(self.trace@.push(Call::Pull(len as nat)));
            assert(self.window() == settled.window());
            assert(self.valid_len() == settled.valid_len());
            assert(self.input() == settled.input());
            assert(self.produced() == settled.produced());
            assert(self.consistent());
            assert(self.accumulator() == settled.accumulator());
            assert(buffer@.skip(len as int) =~= old(buffer)@.skip(len as int));
        }
        len
    }

    /// Resets the wrapped source, fills the window anew and starts over at
    /// the first output sample.
    fn reset(&mut self)
        ensures
            final(self).geometry() == old(self).geometry(),
            final(self).bank() == old(self).bank(),
            final(self).accumulator() == old(self).accumulator(),
            final(self).produced() == 0,
            final(self).origin() == old(self).upstream().emitted().len(),
            final(self).moves() == 0,
            final(self).upstream().calls() == old(self).upstream().calls().push(Call::Reset)
                + pulls_of(
                if final(self).input().len() < old(self).geometry().half_len() {
                    1
                } else {
                    2
                },
                old(self).geometry().half_len(),
            ),
    {
        self.source.reset();
        let ghost restart = self.source.emitted();
        proof {
            assert(self.half_frames * self.channels >= 1) by (nonlinear_arith)
                requires
                    self.half_frames >= 2,
                    self.channels >= 1,
            ;
        }
        let last_sample = prime(&mut self.source, &mut self.filter_1, &mut self.filter_2);
        self.last_sample = last_sample;
        self.input_offset = 0;
        self.output_count = 0;
        proof {
            self.base = Ghost(restart.len());
            self.trace = Ghost(self.trace@.push(Call::Reset));
            let g = self.geometry();
            assert(self.input() =~= self.window().take(self.valid_len() as int));
            assert(g.frame(0) == 0);
            assert(g.from * 0 == 0) by (nonlinear_arith);
            assert(0 * self.channels == 0) by (nonlinear_arith);
            assert(self.source.wf());
            assert(self.channels == self.source.channels().value());
            assert(self.buffer_size == self.half_frames * self.channels);
            assert(self.base@ <= self.source.emitted().len());
            assert(self.valid_len() <= 2 * self.buffer_size);
            assert(self.input().len() == self.valid_len());
            assert(self.consistent());
            assert(self.accumulator() == old(self).accumulator());
        }
    }
}

/// What an output sample is made of does not change when the input grows:
/// it looks at no sample past its position.
pub proof fn lemma_operands_are_stable(
    bank: Seq<Seq<Sample>>,
    input: Seq<Sample>,
    longer: Seq<Sample>,
    g: Geometry,
    o: nat,
)
    requires
        input.is_prefix_of(longer),
        g.channels >= 1,
        g.to >= 1,
        g.position(o) < input.len(),
    ensures
        operands(bank, input, g, o) == operands(bank, longer, g, o),
{
    let taps = bank[g.phase(o) as int];
    let m = taps.len() as int;
    let i = g.input_frame(o) as int;
    let ch = g.channel(o) as int;
    let c = g.channels as int;
    let short_terms = operands(bank, input, g, o);
    let long_terms = operands(bank, longer, g, o);
    assert(short_terms.len() == long_terms.len());
    assert forall|j: int| 0 <= j < short_terms.len() implies short_terms[j] == long_terms[j] by {
        if i >= m {
            lemma_scaled_order(0, i - m + j, c);
            lemma_scaled_order(i - m + j, i, c);
        } else {
            lemma_scaled_order(0, j, c);
            lemma_scaled_order(j, i, c);
        }
    }
    assert(operands(bank, input, g, o) =~= operands(bank, longer, g, o));
}

/// The window accounts for every pull: the wrapped source has been asked for
/// both halves of the window and for one more half each time that the window
/// moved on, and it has given all of that unless it has come up short.
pub proof fn lemma_window_accounts<S: Source, M: Fn(Sample, Sample, Sample) -> Sample>(
    resampler: Resampler<S, M>,
)
    requires
        resampler.wf(),
    ensures
        resampler.drained() ==> resampler.input().len() < (resampler.moves() + 2)
            * resampler.geometry().half_len(),
        !resampler.drained() ==> resampler.input().len() == (resampler.moves() + 2)
            * resampler.geometry().half_len(),
{
    resampler.window_accounts();
}

/// The resampler writes no more than the ratio allows, and one frame: an
/// output sample that looks at no sample past the end of an input of
/// `frames` frames belongs to a frame before `frames * to / from`, rounded
/// up. So an input of `frames` frames gives `frames * to / from` frames,
/// rounded down, and one more at most.
pub proof fn lemma_output_is_bounded(g: Geometry, o: nat, frames: nat)
    requires
        g.channels >= 1,
        g.to >= 1,
        g.from >= 1,
        g.position(o) < frames * g.channels,
    ensures
        g.frame(o) * g.from < frames * g.to,
        g.frame(o) + 1 <= (frames * g.to) / g.from + 1,
{
    let c = g.channels as int;
    let i = g.input_frame(o) as int;
    let f = g.frame(o) as int;
    let start = g.start(o) as int;
    assert(i < frames) by (nonlinear_arith)
        requires
            i * c + g.channel(o) < frames * c,
            0 <= g.channel(o),
            c >= 1,
    ;
    vstd::arithmetic::div_mod::lemma_fundamental_div_mod(start, g.to as int);
    vstd::arithmetic::div_mod::lemma_mod_bound(start, g.to as int);
    assert(start < frames * g.to) by (nonlinear_arith)
        requires
            start == g.to * i + start % (g.to as int),
            start % (g.to as int) < g.to,
            i + 1 <= frames,
            g.to >= 1,
    ;
    assert(g.from * f == f * g.from) by (nonlinear_arith);
    assert(f * g.from < frames * g.to);
    vstd::arithmetic::div_mod::lemma_fundamental_div_mod((frames * g.to) as int, g.from as int);
    vstd::arithmetic::div_mod::lemma_mod_bound((frames * g.to) as int, g.from as int);
    assert(f <= (frames * g.to) / g.from) by (nonlinear_arith)
        requires
            f * g.from < frames * g.to,
            frames * g.to == g.from * ((frames * g.to) / g.from) + (frames * g.to) % g.from,
            (frames * g.to) % g.from < g.from,
            g.from >= 1,
    ;
}

/// The input frame that an output sample looks at never goes back.
pub proof fn lemma_input_frame_grows(g: Geometry, o: nat)
    requires
        g.channels >= 1,
        g.to >= 1,
    ensures
        g.input_frame(o) <= g.input_frame(o + 1),
{
    let c = g.channels as int;
    vstd::arithmetic::div_mod::lemma_div_is_ordered(o as int, (o + 1) as int, c);
    lemma_scaled_order(g.frame(o) as int, g.frame(o + 1) as int, g.from as int);
    assert(g.from * g.frame(o) <= g.from * g.frame(o + 1)) by (nonlinear_arith)
        requires
            g.frame(o) * g.from <= g.frame(o + 1) * g.from,
    ;
    vstd::arithmetic::div_mod::lemma_div_is_ordered(
        g.start(o) as int,
        g.start(o + 1) as int,
        g.to as int,
    );
}

} // verus!
