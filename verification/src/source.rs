//! The contract that every node of the pipeline honours.

use vstd::prelude::*;

pub mod consts;

verus! {

/// One PCM sample, carried as the bit pattern of a 32-bit IEEE 754 number.
///
/// The library never interprets the word; it only moves it, and hands it to the
/// arithmetic functions that the caller supplies.
pub type Sample = u32;

/// The sample word of silence (positive zero).
pub const SILENCE: Sample = 0;

/// A number of channels: a 16-bit integer that is never zero.
#[derive(Clone, Copy, Debug, PartialEq, Eq, Structural)]
pub struct ChannelCount {
    count: u16,
}

impl ChannelCount {
    #[verifier::type_invariant]
    spec fn positive(self) -> bool {
        self.count >= 1
    }

    /// The number of channels, as a mathematical integer.
    pub closed spec fn value(self) -> nat {
        self.count as nat
    }

    /// `Some` exactly when `count` is not zero.
    pub fn new(count: u16) -> (r: Option<Self>)
        ensures
            count == 0 <==> r is None,
            r matches Some(c) ==> c.value() == count,
    {
        if count == 0 {
            None
        } else {
            Some(ChannelCount { count })
        }
    }

    /// One channel.
    pub fn mono() -> (c: Self)
        ensures
            c.value() == 1,
    {
        ChannelCount { count: 1 }
    }

    /// Two channels.
    pub fn stereo() -> (c: Self)
        ensures
            c.value() == 2,
    {
        ChannelCount { count: 2 }
    }

    pub fn get(self) -> (v: u16)
        ensures
            v == self.value(),
            v >= 1,
    {
        proof {
            use_type_invariant(self);
        }
        self.count
    }
}

/// A sample rate in Hz: a 32-bit integer that is never zero.
#[derive(Clone, Copy, Debug, PartialEq, Eq, Structural)]
pub struct SampleRate {
    hz: u32,
}

impl SampleRate {
    #[verifier::type_invariant]
    spec fn positive(self) -> bool {
        self.hz >= 1
    }

    /// The rate in Hz, as a mathematical integer.
    pub closed spec fn value(self) -> nat {
        self.hz as nat
    }

    /// `Some` exactly when `hz` is not zero.
    pub fn new(hz: u32) -> (r: Option<Self>)
        ensures
            hz == 0 <==> r is None,
            r matches Some(s) ==> s.value() == hz,
    {
        if hz == 0 {
            None
        } else {
            Some(SampleRate { hz })
        }
    }

    pub fn get(self) -> (v: u32)
        ensures
            v == self.value(),
            v >= 1,
    {
        proof {
            use_type_invariant(self);
        }
        self.hz
    }
}

/// A call that was made to a source.
pub enum Call {
    /// A call of `write_samples` with a buffer of that many samples.
    Pull(nat),
    /// A call of `reset`.
    Reset,
}

/// A source of audio that outputs interleaved PCM at a fixed channel count and
/// sample rate.
///
/// The trait's contract is stated over these quantities of a source: its
/// channel count, its sample rate, the samples it has emitted, whether it has
/// ended, whether it holds no samples at all, the calls that were made to
/// it, and the samples it will emit, now and after a reset, where they are
/// known beforehand. Every source of this library defines what it needs of
/// them. They have bodies here so that a source written outside verified
/// code has only the four operations to supply; of such a source nothing is
/// proved, and what is proved of the nodes that wrap it holds as far as it
/// keeps the contract.
pub trait Source {
    /// The validity of the source's state. Every operation needs it and keeps it.
    open spec fn wf(&self) -> bool {
        true
    }

    /// The channel count, which no operation changes.
    open spec fn channels(&self) -> ChannelCount {
        arbitrary()
    }

    /// The sample rate, which no operation changes.
    open spec fn rate(&self) -> SampleRate {
        arbitrary()
    }

    /// Every sample that the source has handed out since it was built, in order.
    open spec fn emitted(&self) -> Seq<Sample> {
        arbitrary()
    }

    /// Whether the stream has ended: from then on nothing is written.
    open spec fn ended(&self) -> bool {
        false
    }

    /// Whether the source holds no samples at all: it writes nothing, also
    /// after a reset.
    open spec fn empty(&self) -> bool {
        false
    }

    /// Every call of `write_samples` and `reset` that was made to the source
    /// since it was built, in order. A node that wraps a source says by this
    /// what it asked of it.
    open spec fn calls(&self) -> Seq<Call> {
        arbitrary()
    }

    /// The samples that the source will emit until it ends or is reset, where
    /// they are known beforehand: a source that plays a recording knows them,
    /// a source that computes its samples does not.
    open spec fn upcoming(&self) -> Option<Seq<Sample>> {
        None
    }

    /// The samples that the source will emit after a reset, where they are
    /// known beforehand.
    open spec fn rewound(&self) -> Option<Seq<Sample>> {
        None
    }

    /// Returns the number of channels in this source.
    fn channel_count(&self) -> (c: ChannelCount)
        requires
            self.wf(),
        ensures
            c == self.channels(),
    ;

    /// Returns the sample rate the written data should be interpreted at.
    fn sample_rate(&self) -> (r: SampleRate)
        requires
            self.wf(),
        ensures
            r == self.rate(),
    ;

    /// Writes the next samples to the start of `buffer` and returns how many
    /// were written; the rest of `buffer` is left as it was.
    ///
    /// A count below `buffer.len()`, for a buffer of whole frames, means that
    /// the stream has ended. A source that has ended writes nothing.
    fn write_samples(&mut self, buffer: &mut [Sample]) -> (n: usize)
        requires
            old(self).wf(),
        ensures
            final(self).wf(),
            final(self).channels() == old(self).channels(),
            final(self).rate() == old(self).rate(),
            n <= old(buffer)@.len(),
            final(buffer)@.len() == old(buffer)@.len(),
            final(buffer)@.skip(n as int) == old(buffer)@.skip(n as int),
            final(self).emitted() == old(self).emitted() + final(buffer)@.take(n as int),
            final(self).calls() == old(self).calls().push(Call::Pull(old(buffer)@.len())),
            old(self).ended() ==> n == 0 && final(self).ended(),
            old(self).empty() ==> n == 0 && final(self).empty(),
            old(self).upcoming() matches Some(samples) ==> {
                &&& n == if old(buffer)@.len() <= samples.len() {
                    old(buffer)@.len()
                } else {
                    samples.len()
                }
                &&& final(buffer)@.take(n as int) == samples.take(n as int)
                &&& final(self).upcoming() == Some(samples.skip(n as int))
            },
            final(self).rewound() == old(self).rewound(),
            n < old(buffer)@.len() && old(buffer)@.len() % old(self).channels().value() == 0
                ==> final(self).ended(),
    ;

    /// Puts the source back to its start, or to its default state.
    fn reset(&mut self)
        requires
            old(self).wf(),
        ensures
            final(self).wf(),
            final(self).channels() == old(self).channels(),
            final(self).rate() == old(self).rate(),
            final(self).emitted() == old(self).emitted(),
            final(self).calls() == old(self).calls().push(Call::Reset),
            old(self).empty() ==> final(self).empty(),
            old(self).rewound() is Some ==> final(self).upcoming() == old(self).rewound(),
            final(self).rewound() == old(self).rewound(),
    ;
}

/// The first `asked` of the samples, or all of them where they are fewer.
pub open spec fn first_of(samples: Seq<Sample>, asked: nat) -> Seq<Sample> {
    if asked <= samples.len() {
        samples.take(asked as int)
    } else {
        samples
    }
}

/// Whether `after` is what `before` foreknew of itself for when `asked`
/// samples have been asked of it: where `before` knows the samples that it
/// will emit, the first `asked` of them have been emitted since, and `after`
/// knows the rest.
pub open spec fn foreknown<S: Source>(before: S, after: S, asked: nat) -> bool {
    before.upcoming() matches Some(samples) ==> {
        &&& after.emitted() == before.emitted() + first_of(samples, asked)
        &&& after.upcoming() == Some(samples.skip(first_of(samples, asked).len() as int))
    }
}

/// A source that is left alone is as it foreknew.
pub proof fn lemma_foreknown_at_rest<S: Source>(source: S)
    ensures
        foreknown(source, source, 0),
{
    if source.upcoming() is Some {
        let samples = source.upcoming().unwrap();
        assert(source.emitted() + first_of(samples, 0) =~= source.emitted());
        assert(samples.skip(0) =~= samples);
    }
}

/// What a source foreknew holds on from pull to pull.
pub proof fn lemma_foreknown_adds_up<S: Source>(first: S, second: S, third: S, x: nat, y: nat)
    requires
        foreknown(first, second, x),
        foreknown(second, third, y),
    ensures
        foreknown(first, third, x + y),
{
    if first.upcoming() is Some {
        let samples = first.upcoming().unwrap();
        let head = first_of(samples, x);
        let rest = samples.skip(head.len() as int);
        let tail = first_of(rest, y);
        assert(second.upcoming() == Some(rest));
        assert(head + tail =~= first_of(samples, x + y));
        assert(rest.skip(tail.len() as int) =~= samples.skip(first_of(samples, x + y).len() as int));
        assert(third.emitted() =~= first.emitted() + (head + tail));
    }
}

/// Whether `result` is what `add` gives when it is fed the terms one after
/// another, starting from silence: each call gets the result so far and the
/// next term.
pub open spec fn sums<A: Fn(Sample, Sample) -> Sample>(
    add: A,
    terms: Seq<Sample>,
    result: Sample,
) -> bool
    decreases terms.len(),
{
    if terms.len() == 0 {
        result == SILENCE
    } else {
        exists|before: Sample|
            #![trigger call_ensures(add, (before, terms.last()), result)]
            sums(add, terms.drop_last(), before) && call_ensures(
                add,
                (before, terms.last()),
                result,
            )
    }
}

/// One more call of `add` sums one more term.
pub proof fn lemma_sums_one_more<A: Fn(Sample, Sample) -> Sample>(
    add: A,
    terms: Seq<Sample>,
    before: Sample,
    term: Sample,
    result: Sample,
)
    requires
        sums(add, terms, before),
        call_ensures(add, (before, term), result),
    ensures
        sums(add, terms.push(term), result),
{
    let longer = terms.push(term);
    assert(longer.drop_last() =~= terms);
    assert(longer.last() == term);
}

} // verus!
