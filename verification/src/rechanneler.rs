//! A source that changes the channel count of another source.

use crate::source::{
    first_of, foreknown, lemma_sums_one_more, sums, Call, ChannelCount, Sample, SampleRate, Source,
    SILENCE,
};
use vstd::prelude::*;

verus! {

/// How many samples are pulled from a source of `from` channels for a buffer
/// of `len` samples of `to` channels.
pub open spec fn pull_len(len: nat, from: nat, to: nat) -> nat {
    (len * from / to) as nat
}

/// Whether `mean` is an arithmetic mean of the samples of `frame`: a result of
/// `divide` on a sum of the frame and the number of its samples.
pub open spec fn averages<A: Fn(Sample, Sample) -> Sample, D: Fn(Sample, u16) -> Sample>(
    add: A,
    divide: D,
    frame: Seq<Sample>,
    mean: Sample,
) -> bool {
    exists|sum: Sample|
        #![trigger call_ensures(divide, (sum, frame.len() as u16), mean)]
        sums(add, frame, sum) && call_ensures(divide, (sum, frame.len() as u16), mean)
}

/// How many frames are written for a buffer of `len` samples when `pulled`
/// samples came from the wrapped source.
pub open spec fn frames_written(pulled: nat, len: nat, from: nat, to: nat) -> nat {
    if pulled / from <= len / to {
        pulled / from
    } else {
        len / to
    }
}

proof fn lemma_whole_frames(len: int, from: int, to: int)
    requires
        0 <= len,
        1 <= from,
        1 <= to,
        len % to == 0,
    ensures
        len * from / to == (len / to) * from,
        (len * from / to) % from == 0,
{
    let q = len / to;
    vstd::arithmetic::div_mod::lemma_fundamental_div_mod(len, to);
    assert(len * from == (q * from) * to) by (nonlinear_arith)
        requires
            len == to * q,
    ;
    vstd::arithmetic::div_mod::lemma_div_multiples_vanish(q * from, to);
    vstd::arithmetic::div_mod::lemma_mod_multiples_basic(q, from);
}

proof fn lemma_short_pull(len: int, from: int, to: int, written: int, frames: int)
    requires
        0 <= len,
        0 <= written,
        1 <= from,
        1 <= to,
        len % to == 0,
        frames == written / from || frames == len / to,
        frames <= written / from,
        frames * to < len,
    ensures
        written < (len / to) * from,
{
    vstd::arithmetic::div_mod::lemma_fundamental_div_mod(len, to);
    vstd::arithmetic::div_mod::lemma_fundamental_div_mod(written, from);
    vstd::arithmetic::div_mod::lemma_mod_bound(written, from);
    assert(frames < len / to) by (nonlinear_arith)
        requires
            frames * to < len,
            len == to * (len / to),
            to >= 1,
    ;
    assert(written < (len / to) * from) by (nonlinear_arith)
        requires
            written / from + 1 <= len / to,
            written == from * (written / from) + written % from,
            0 <= written % from < from,
    ;
}

proof fn lemma_frame_of(f: int, k: int, width: int)
    requires
        0 <= f,
        0 <= k < width,
    ensures
        (f * width + k) / width == f,
{
    vstd::arithmetic::div_mod::lemma_fundamental_div_mod_converse(f * width + k, width, f, k);
}

proof fn lemma_frame_bounds(f: int, frames: int, width: int, total: int)
    by (nonlinear_arith)
    requires
        0 <= f < frames,
        1 <= width,
        frames <= total / width,
        0 <= total,
    ensures
        0 <= f * width,
        f * width + width <= total,
        (f + 1) * width == f * width + width,
        f * width + width <= frames * width,
        frames * width <= total,
{
}

/// Converts the number of channels in a source to the target channel count.
///
/// Channel mixing strategy is as follows:
/// - if input and output channel count is the same, pass straight through
/// - otherwise: take the average input sample from each frame and duplicate it
///   across each output frame
///
/// This suffices for most use-cases, but a more specialized strategy would be
/// needed for mixing a multi-channel input to a >2 channel output (5-channel
/// multimedia, for example) non-naively.
pub struct Rechanneler<S, A, D> {
    source: S,
    source_channels: ChannelCount,
    target_channels: ChannelCount,
    buffer: Vec<Sample>,
    overrun: bool,
    add: A,
    divide: D,
    log: Ghost<Seq<Sample>>,
    trace: Ghost<Seq<Call>>,
}

impl<S: Source, A: Fn(Sample, Sample) -> Sample, D: Fn(Sample, u16) -> Sample> Rechanneler<S, A, D> {
    /// The wrapped source.
    pub closed spec fn upstream(&self) -> S {
        self.source
    }

    /// The channel count that comes out.
    pub closed spec fn target(&self) -> ChannelCount {
        self.target_channels
    }

    /// Whether a request was too large for the machine: the stream has ended.
    pub closed spec fn overran(&self) -> bool {
        self.overrun
    }

    /// The function that adds two samples.
    pub closed spec fn adder(&self) -> A {
        self.add
    }

    /// The function that divides a sample by a count.
    pub closed spec fn divider(&self) -> D {
        self.divide
    }

    pub closed spec fn history(&self) -> Seq<Sample> {
        self.log@
    }

    pub closed spec fn spec_calls(&self) -> Seq<Call> {
        self.trace@
    }

    pub closed spec fn consistent(&self) -> bool {
        &&& self.source_channels == self.source.channels()
        &&& self.overrun ==> self.source_channels.value() != self.target_channels.value()
    }

    /// Wraps `source`, whose frames come out with `target_channels` channels.
    pub fn new(source: S, target_channels: ChannelCount, add: A, divide: D) -> (r: Self)
        requires
            source.wf(),
            forall|a: Sample, b: Sample| #[trigger] call_requires(add, (a, b)),
            forall|sum: Sample, count: u16| #[trigger] call_requires(divide, (sum, count)),
        ensures
            r.wf(),
            r.upstream() == source,
            r.target() == target_channels,
            r.adder() == add,
            r.divider() == divide,
            !r.overran(),
            r.emitted() == Seq::<Sample>::empty(),
            r.calls() == Seq::<Call>::empty(),
    {
        let source_channels = source.channel_count();
        Rechanneler {
            source,
            source_channels,
            target_channels,
            buffer: Vec::new(),
            overrun: false,
            add,
            divide,
            log: Ghost(Seq::empty()),
            trace: Ghost(Seq::empty()),
        }
    }

    /// The mean of frame `f` of the scratch buffer.
    fn mean(&self, f: usize, from: u16) -> (mean: Sample)
        requires
            self.wf(),
            from >= 1,
            f * from + from <= self.buffer.len(),
        ensures
            averages(
                self.adder(),
                self.divider(),
                self.buffer@.subrange(f * from, f * from + from),
                mean,
            ),
    {
        let width: usize = from as usize;
        proof {
            assert(self.adder() == self.add && self.divider() == self.divide);
            assert(0 <= f * width) by (nonlinear_arith);
        }
        let start: usize = f * width;
        let ghost frame = self.buffer@.subrange(start as int, start + width);
        let mut sum: Sample = SILENCE;
        let mut c: usize = 0;
        proof {
            assert(frame.take(0) =~= Seq::<Sample>::empty());
        }
        while c < width
            invariant
                c <= width,
                start + width <= self.buffer.len(),
                frame == self.buffer@.subrange(start as int, start + width),
                forall|a: Sample, b: Sample| #[trigger] call_requires(self.add, (a, b)),
                sums(self.add, frame.take(c as int), sum),
            decreases width - c,
        {
            let ghost before = sum;
            let x: Sample = self.buffer[start + c];
            sum = (self.add)(sum, x);
            proof {
                lemma_sums_one_more(self.add, frame.take(c as int), before, x, sum);
                assert(frame.take(c + 1) =~= frame.take(c as int).push(x));
            }
            c += 1;
        }
        let mean: Sample = (self.divide)(sum, from);
        proof {
            assert(frame.take(width as int) =~= frame);
            assert(frame.len() as u16 == from);
            assert(call_ensures(self.divide, (sum, frame.len() as u16), mean));
        }
        mean
    }
}

impl<S: Source, A: Fn(Sample, Sample) -> Sample, D: Fn(Sample, u16) -> Sample> Source for Rechanneler<
    S,
    A,
    D,
> {
    open spec fn wf(&self) -> bool {
        &&& self.upstream().wf()
        &&& self.consistent()
        &&& forall|a: Sample, b: Sample| #[trigger] call_requires(self.adder(), (a, b))
        &&& forall|sum: Sample, count: u16| #[trigger] call_requires(self.divider(), (sum, count))
    }

    open spec fn channels(&self) -> ChannelCount {
        self.target()
    }

    open spec fn rate(&self) -> SampleRate {
        self.upstream().rate()
    }

    open spec fn emitted(&self) -> Seq<Sample> {
        self.history()
    }

    open spec fn ended(&self) -> bool {
        self.upstream().ended() || self.overran()
    }

    open spec fn empty(&self) -> bool {
        self.upstream().empty()
    }

    open spec fn calls(&self) -> Seq<Call> {
        self.spec_calls()
    }

    #[inline(always)]
    fn channel_count(&self) -> (c: ChannelCount) {
        self.target_channels
    }

    #[inline(always)]
    fn sample_rate(&self) -> (r: SampleRate) {
        self.source.sample_rate()
    }

    /// The wrapped source is pulled once, and `chunk` is what it emits; where
    /// the source knows what it will emit, the chunk is the beginning of that:
    ///
    /// - Where both channel counts are the same, it is pulled for the buffer
    ///   itself, so the chunk is written as it is.
    /// - Otherwise it is pulled for `pull_len` samples, unless that many do
    ///   not fit the machine: then nothing is pulled, and the stream has
    ///   ended. The chunk is cut into frames of the source's channel
    ///   count, and each output frame holds, in every channel, the mean of the
    ///   input frame of the same number: output sample `i` belongs to frame
    ///   `i / to`.
    fn write_samples(&mut self, buffer: &mut [Sample]) -> (n: usize)
        ensures
            final(self).target() == old(self).target(),
            final(self).adder() == old(self).adder(),
            final(self).divider() == old(self).divider(),
            old(self).upstream().emitted().is_prefix_of(final(self).upstream().emitted()),
            ({
                let from = old(self).upstream().channels().value();
                let to = old(self).target().value();
                let len = old(buffer)@.len();
                let chunk = final(self).upstream().emitted().skip(
                    old(self).upstream().emitted().len() as int,
                );
                if from == to {
                    &&& final(self).upstream().calls() == old(self).upstream().calls().push(
                        Call::Pull(len),
                    )
                    &&& foreknown(old(self).upstream(), final(self).upstream(), len)
                    &&& n == chunk.len()
                    &&& final(buffer)@.take(n as int) == chunk
                    &&& final(self).overran() == old(self).overran()
                } else if old(self).overran() || pull_len(len, from, to) > usize::MAX {
                    &&& final(self).upstream() == old(self).upstream()
                    &&& n == 0
                    &&& final(self).overran()
                } else {
                    &&& final(self).upstream().calls() == old(self).upstream().calls().push(
                        Call::Pull(pull_len(len, from, to)),
                    )
                    &&& foreknown(
                        old(self).upstream(),
                        final(self).upstream(),
                        pull_len(len, from, to),
                    )
                    &&& chunk.len() <= pull_len(len, from, to)
                    &&& n == frames_written(chunk.len(), len, from, to) * to
                    &&& !final(self).overran()
                    &&& forall|i: int|
                        0 <= i < n ==> averages(
                            old(self).adder(),
                            old(self).divider(),
                            chunk.subrange((i / to as int) * from, (i / to as int) * from + from),
                            #[trigger] final(buffer)@[i],
                        )
                }
            }),
    {
        let from_count: u16 = self.source_channels.get();
        let to_count: u16 = self.target_channels.get();
        let ghost earlier = self.source.emitted();
        proof {
            assert(self.adder() == self.add && self.divider() == self.divide);
        }
        if from_count == to_count {
            let n = self.source.write_samples(buffer);
            proof {
                if old(self).source.upcoming() is Some {
                    assert(buffer@.take(n as int) =~= first_of(
                        old(self).source.upcoming().unwrap(),
                        buffer@.len(),
                    ));
                }
                self.log = Ghost(self.log@ + buffer@.take(n as int));
                self.trace = Ghost(self.trace@.push(Call::Pull(buffer@.len())));
                assert(self.source.emitted().skip(earlier.len() as int) =~= buffer@.take(n as int));
                assert(self.adder() == old(self).adder() && self.divider() == old(self).divider());
            }
            return n;
        }
        let from: usize = from_count as usize;
        let to: usize = to_count as usize;
        let len: usize = buffer.len();
        proof {
            assert(buffer@.take(0) =~= Seq::<Sample>::empty());
            assert(self.log@ + buffer@.take(0) =~= self.log@);
            assert(self.source.emitted().skip(earlier.len() as int) =~= Seq::<Sample>::empty());
            assert(len * from <= u128::MAX) by (nonlinear_arith)
                requires
                    len <= u64::MAX,
                    from <= u16::MAX,
            ;
        }
        if self.overrun {
            proof {
                self.trace = Ghost(self.trace@.push(Call::Pull(len as nat)));
            }
            return 0;
        }
        let want: u128 = (len as u128) * (from as u128) / (to as u128);
        if want > usize::MAX as u128 {
            self.overrun = true;
            proof {
                self.trace = Ghost(self.trace@.push(Call::Pull(len as nat)));
                assert(self.adder() == old(self).adder() && self.divider() == old(self).divider());
            }
            return 0;
        }
        let want: usize = want as usize;
        self.buffer.resize(want, SILENCE);
        let written: usize = self.source.write_samples(&mut self.buffer);
        let ghost chunk = self.buffer@.take(written as int);
        proof {
            if old(self).source.upcoming() is Some {
                assert(chunk =~= first_of(old(self).source.upcoming().unwrap(), want as nat));
            }
        }
        let frames: usize = if written / from <= len / to {
            written / from
        } else {
            len / to
        };
        proof {
            assert(self.source.emitted().skip(earlier.len() as int) =~= chunk);
            assert(self.adder() == old(self).adder() && self.divider() == old(self).divider());
            vstd::arithmetic::div_mod::lemma_fundamental_div_mod(len as int, to as int);
            vstd::arithmetic::div_mod::lemma_mod_bound(len as int, to as int);
            assert(frames * to <= len) by (nonlinear_arith)
                requires
                    frames <= len / to,
                    to >= 1,
                    len >= 0,
                    len == to * (len / to) + len % to,
                    len % to >= 0,
            ;
            if len % to == 0 {
                lemma_whole_frames(len as int, from as int, to as int);
                if frames * to < len {
                    lemma_short_pull(len as int, from as int, to as int, written as int, frames as int);
                }
            }
        }
        let ghost pulled = *self;
        let mut f: usize = 0;
        while f < frames
            invariant
                *self == pulled,
                self.wf(),
                old(self).upstream().ended() ==> written == 0,
                old(self).upstream().empty() ==> written == 0,
                foreknown(old(self).upstream(), self.source, want as nat),
                self.add == old(self).adder(),
                self.divide == old(self).divider(),
                from == from_count >= 1,
                to == to_count >= 1,
                frames <= written / from,
                frames <= len / to,
                written <= self.buffer.len(),
                chunk == self.buffer@.take(written as int),
                f <= frames,
                frames * to <= len == buffer@.len(),
                len == old(buffer)@.len(),
                buffer@.skip(f * to) == old(buffer)@.skip(f * to),
                forall|i: int|
                    0 <= i < f * to ==> averages(
                        self.add,
                        self.divide,
                        chunk.subrange((i / to as int) * from, (i / to as int) * from + from),
                        #[trigger] buffer@[i],
                    ),
            decreases frames - f,
        {
            proof {
                lemma_frame_bounds(f as int, frames as int, from as int, written as int);
                lemma_frame_bounds(f as int, frames as int, to as int, len as int);
                assert(self.adder() == self.add && self.divider() == self.divide);
            }
            let mean: Sample = self.mean(f, from_count);
            let base: usize = f * to;
            let ghost frame = chunk.subrange(f * from, f * from + from);
            proof {
                assert(self.buffer@.subrange(f * from, f * from + from) =~= frame);
            }
            let mut c: usize = 0;
            while c < to
                invariant
                    c <= to,
                    to >= 1,
                    base == f * to,
                    base + to <= len == buffer@.len(),
                    len == old(buffer)@.len(),
                    buffer@.skip(base + c) == old(buffer)@.skip(base + c),
                    averages(self.add, self.divide, frame, mean),
                    frame == chunk.subrange(f * from, f * from + from),
                    forall|i: int|
                        0 <= i < base + c ==> averages(
                            self.add,
                            self.divide,
                            chunk.subrange((i / to as int) * from, (i / to as int) * from + from),
                            #[trigger] buffer@[i],
                        ),
                decreases to - c,
            {
                let ghost before = buffer@;
                buffer[base + c] = mean;
                proof {
                    lemma_frame_of(f as int, c as int, to as int);
                    assert(buffer@.skip(base + c + 1) =~= before.skip(base + c).skip(1));
                    assert forall|i: int| 0 <= i < base + c + 1 implies averages(
                        self.add,
                        self.divide,
                        chunk.subrange((i / to as int) * from, (i / to as int) * from + from),
                        #[trigger] buffer@[i],
                    ) by {
                        if i < base + c {
                            assert(buffer@[i] == before[i]);
                        }
                    }
                }
                c += 1;
            }
            f += 1;
            proof {
                assert(f * to == base + to) by (nonlinear_arith)
                    requires
                        base == (f - 1) * to,
                ;
            }
        }
        proof {
            self.log = Ghost(self.log@ + buffer@.take(frames * to));
            self.trace = Ghost(self.trace@.push(Call::Pull(len as nat)));
            assert(self.adder() == old(self).adder() && self.divider() == old(self).divider());
            if written == 0 {
                assert(frames == 0);
                assert(frames * to == 0) by (nonlinear_arith)
                    requires
                        frames == 0,
                ;
            }
        }
        frames * to
    }

    fn reset(&mut self)
        ensures
            final(self).target() == old(self).target(),
            final(self).adder() == old(self).adder(),
            final(self).divider() == old(self).divider(),
            final(self).upstream().calls() == old(self).upstream().calls().push(Call::Reset),
            !final(self).overran(),
    {
        self.source.reset();
        self.overrun = false;
        proof {
            self.trace = Ghost(self.trace@.push(Call::Reset));
            assert(self.adder() == old(self).adder());
            assert(self.divider() == old(self).divider());
        }
    }
}

} // verus!
