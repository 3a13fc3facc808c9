//! A source that plays samples held in memory.

use crate::source::{Call, ChannelCount, Sample, SampleRate, Source};
use vstd::prelude::*;

verus! {

/// A basic sound-playing object: it hands out the samples it contains until it
/// has no more.
///
/// The samples are played as they are. If they were recorded at another rate
/// than the one the player reports, wrap the player in a resampler.
pub struct Player {
    samples: Vec<Sample>,
    channels: ChannelCount,
    rate: SampleRate,
    offset: usize,
    log: Ghost<Seq<Sample>>,
    trace: Ghost<Seq<Call>>,
}

impl Player {
    /// The samples the player holds.
    pub closed spec fn samples(&self) -> Seq<Sample> {
        self.samples@
    }

    /// How many samples have been played.
    pub closed spec fn position(&self) -> nat {
        self.offset as nat
    }

    pub closed spec fn spec_channels(&self) -> ChannelCount {
        self.channels
    }

    pub closed spec fn spec_rate(&self) -> SampleRate {
        self.rate
    }

    pub closed spec fn spec_calls(&self) -> Seq<Call> {
        self.trace@
    }

    pub closed spec fn history(&self) -> Seq<Sample> {
        self.log@
    }

    /// A player at the start of `samples`, which reports 48 kHz.
    pub fn new(samples: Vec<Sample>, channels: ChannelCount) -> (p: Self)
        ensures
            p.wf(),
            p.samples() == samples@,
            p.position() == 0,
            p.channels() == channels,
            p.rate().value() == 48000,
            p.emitted() == Seq::<Sample>::empty(),
            p.calls() == Seq::<Call>::empty(),
    {
        let rate = SampleRate::new(48000).unwrap();
        Player {
            samples,
            channels,
            rate,
            offset: 0,
            log: Ghost(Seq::empty()),
            trace: Ghost(Seq::empty()),
        }
    }

    /// The same player, reporting `rate`.
    pub fn with_sample_rate(self, rate: SampleRate) -> (p: Self)
        requires
            self.wf(),
        ensures
            p.wf(),
            p.samples() == self.samples(),
            p.position() == self.position(),
            p.channels() == self.channels(),
            p.rate() == rate,
            p.emitted() == self.emitted(),
            p.calls() == self.calls(),
    {
        Player {
            samples: self.samples,
            channels: self.channels,
            rate,
            offset: self.offset,
            log: self.log,
            trace: self.trace,
        }
    }
}

impl Source for Player {
    open spec fn wf(&self) -> bool {
        self.position() <= self.samples().len()
    }

    open spec fn channels(&self) -> ChannelCount {
        self.spec_channels()
    }

    open spec fn rate(&self) -> SampleRate {
        self.spec_rate()
    }

    open spec fn emitted(&self) -> Seq<Sample> {
        self.history()
    }

    open spec fn ended(&self) -> bool {
        self.position() == self.samples().len()
    }

    open spec fn empty(&self) -> bool {
        self.samples().len() == 0
    }

    open spec fn calls(&self) -> Seq<Call> {
        self.spec_calls()
    }

    /// A player knows what it will emit: the samples from its position on.
    open spec fn upcoming(&self) -> Option<Seq<Sample>> {
        Some(self.samples().skip(self.position() as int))
    }

    /// After a reset a player emits all its samples.
    open spec fn rewound(&self) -> Option<Seq<Sample>> {
        Some(self.samples())
    }

    fn channel_count(&self) -> (c: ChannelCount) {
        self.channels
    }

    fn sample_rate(&self) -> (r: SampleRate) {
        self.rate
    }

    /// Copies the next `min(remaining, buffer.len())` samples and advances by
    /// that many.
    fn write_samples(&mut self, buffer: &mut [Sample]) -> (n: usize)
        ensures
            final(self).samples() == old(self).samples(),
            final(self).position() == old(self).position() + n,
            n == if old(buffer)@.len() <= old(self).samples().len() - old(self).position() {
                old(buffer)@.len() as int
            } else {
                old(self).samples().len() - old(self).position()
            },
            final(buffer)@.take(n as int) == old(self).samples().subrange(
                old(self).position() as int,
                old(self).position() + n,
            ),
    {
        let total: usize = self.samples.len();
        let remaining: usize = total - self.offset;
        let n: usize = if buffer.len() <= remaining {
            buffer.len()
        } else {
            remaining
        };
        let start: usize = self.offset;
        let mut i: usize = 0;
        while i < n
            invariant
                self.samples@ == old(self).samples@,
                self.offset == start,
                self.channels == old(self).channels,
                self.rate == old(self).rate,
                self.log == old(self).log,
                self.trace == old(self).trace,
                start + n <= total == self.samples@.len(),
                i <= n <= buffer@.len(),
                buffer@.len() == old(buffer)@.len(),
                buffer@.skip(i as int) == old(buffer)@.skip(i as int),
                buffer@.take(i as int) == self.samples@.subrange(start as int, start + i),
            decreases n - i,
        {
            let ghost before = buffer@;
            buffer[i] = self.samples[start + i];
            proof {
                assert(buffer@.skip(i + 1) =~= before.skip(i as int).skip(1));
                assert(buffer@.take(i + 1) =~= before.take(i as int).push(self.samples@[start + i]));
                assert(self.samples@.subrange(start as int, start + i + 1)
                    =~= self.samples@.subrange(start as int, start + i).push(self.samples@[start + i]));
            }
            i += 1;
        }
        self.offset = start + n;
        proof {
            self.log = Ghost(self.log@ + buffer@.take(n as int));
            self.trace = Ghost(self.trace@.push(Call::Pull(buffer@.len())));
            assert(buffer@.skip(n as int) == old(buffer)@.skip(n as int));
            assert(self.samples@.skip(start as int).take(n as int) =~= self.samples@.subrange(
                start as int,
                start + n,
            ));
            assert(self.samples@.skip(start + n) =~= self.samples@.skip(start as int).skip(n as int));
        }
        n
    }

    /// Rewinds to the first sample.
    fn reset(&mut self)
        ensures
            final(self).samples() == old(self).samples(),
            final(self).position() == 0,
    {
        self.offset = 0;
        proof {
            self.trace = Ghost(self.trace@.push(Call::Reset));
            assert(self.samples@.skip(0) =~= self.samples@);
        }
    }
}

} // verus!
