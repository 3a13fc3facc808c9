//! A source that starts another source over whenever it ends.

use crate::source::{Call, ChannelCount, Sample, SampleRate, Source};
use vstd::prelude::*;

verus! {

/// The calls by which a cycle starts its source over while it fills a buffer
/// of `len` samples: at each mark, which is the number of samples written by
/// then, a reset and a pull for the rest of the buffer.
pub open spec fn restarts(len: nat, marks: Seq<nat>) -> Seq<Call>
    decreases marks.len(),
{
    if marks.len() == 0 {
        Seq::empty()
    } else {
        restarts(len, marks.drop_last()).push(Call::Reset).push(
            Call::Pull((len - marks.last()) as nat),
        )
    }
}

/// What a cycle writes to a buffer of `len` samples over a source that will
/// emit `first` and then, after each reset, `again`: the first `len` samples
/// of `first` and then `again` over and over, and only `first` where `again`
/// holds nothing.
pub open spec fn cycled(first: Seq<Sample>, again: Seq<Sample>, len: nat) -> Seq<Sample> {
    if len <= first.len() {
        first.take(len as int)
    } else if again.len() == 0 {
        first
    } else {
        first + Seq::new((len - first.len()) as nat, |i: int| again[i % (again.len() as int)])
    }
}

/// What the wrapped source will still emit before its next reset when a
/// cycle has filled a buffer of `len` samples over it: the rest of `first`
/// where the buffer ended in it, else the rest of the round of `again` in
/// which the buffer ended, and nothing where that round was a whole one.
pub open spec fn round_rest(first: Seq<Sample>, again: Seq<Sample>, len: nat) -> Seq<Sample> {
    if len <= first.len() {
        first.skip(len as int)
    } else if again.len() == 0 {
        Seq::empty()
    } else {
        let over = (len - first.len()) % (again.len() as int);
        if over == 0 {
            Seq::empty()
        } else {
            again.skip(over)
        }
    }
}

proof fn lemma_next_round(written: int, lead: int, period: int, j: int)
    requires
        0 <= lead <= written,
        1 <= period,
        (written - lead) % period == 0,
        0 <= j < period,
    ensures
        (written - lead + j) % period == j,
        (written + period - lead) % period == 0,
{
    let q = (written - lead) / period;
    vstd::arithmetic::div_mod::lemma_fundamental_div_mod(written - lead, period);
    assert(written - lead + j == q * period + j) by (nonlinear_arith)
        requires
            written - lead == period * q,
    ;
    vstd::arithmetic::div_mod::lemma_fundamental_div_mod_converse(
        written - lead + j,
        period,
        q,
        j,
    );
    assert(written + period - lead == (q + 1) * period + 0) by (nonlinear_arith)
        requires
            written - lead == period * q,
    ;
    vstd::arithmetic::div_mod::lemma_fundamental_div_mod_converse(
        written + period - lead,
        period,
        q + 1,
        0,
    );
}

/// A [`Source`] which endlessly cycles another source, calling `reset()` each
/// time it ends.
///
/// Note that this struct is not necessarily endless: where the wrapped source
/// gives nothing right after a reset, the cycle stops there, and stays
/// stopped until it is reset itself.
pub struct Cycle<S> {
    source: S,
    finished: bool,
    log: Ghost<Seq<Sample>>,
    trace: Ghost<Seq<Call>>,
    marks: Ghost<Seq<nat>>,
}

impl<S: Source> Cycle<S> {
    /// The wrapped source.
    pub closed spec fn upstream(&self) -> S {
        self.source
    }

    /// Whether the cycle has stopped.
    pub closed spec fn stopped(&self) -> bool {
        self.finished
    }

    pub closed spec fn history(&self) -> Seq<Sample> {
        self.log@
    }

    pub closed spec fn spec_calls(&self) -> Seq<Call> {
        self.trace@
    }

    /// How many samples had been written each time the wrapped source was
    /// started over in the last call of `write_samples`.
    pub closed spec fn last_marks(&self) -> Seq<nat> {
        self.marks@
    }

    #[inline(always)]
    pub fn new(source: S) -> (c: Self)
        requires
            source.wf(),
        ensures
            c.wf(),
            c.upstream() == source,
            !c.stopped(),
            c.emitted() == Seq::<Sample>::empty(),
            c.calls() == Seq::<Call>::empty(),
    {
        Cycle {
            source,
            finished: false,
            log: Ghost(Seq::empty()),
            trace: Ghost(Seq::empty()),
            marks: Ghost(Seq::empty()),
        }
    }
}

impl<S: Source> Source for Cycle<S> {
    open spec fn wf(&self) -> bool {
        self.upstream().wf()
    }

    open spec fn channels(&self) -> ChannelCount {
        self.upstream().channels()
    }

    open spec fn rate(&self) -> SampleRate {
        self.upstream().rate()
    }

    open spec fn emitted(&self) -> Seq<Sample> {
        self.history()
    }

    open spec fn ended(&self) -> bool {
        self.stopped()
    }

    /// A cycle over a source that holds no samples holds none itself.
    open spec fn empty(&self) -> bool {
        self.upstream().empty()
    }

    open spec fn calls(&self) -> Seq<Call> {
        self.spec_calls()
    }

    #[inline]
    fn channel_count(&self) -> (c: ChannelCount) {
        self.source.channel_count()
    }

    #[inline]
    fn sample_rate(&self) -> (r: SampleRate) {
        self.source.sample_rate()
    }

    /// Fills the buffer from the wrapped source, starting it over each time it
    /// comes up short. The cycle stops, with what it has written so far, only
    /// where the wrapped source gives nothing right after a reset. Over a
    /// source that holds no samples it writes nothing, on any call.
    ///
    /// A stopped cycle leaves the wrapped source alone. Otherwise the source
    /// is pulled for the whole buffer, and then reset and pulled for the rest
    /// of the buffer at each of `last_marks()`. Each round but the last one
    /// writes a sample at least, and the last one writes nothing only where
    /// the cycle stops. What is written is what the wrapped source emits
    /// meanwhile, in the same order; over a source that knows what it will
    /// emit, now and after a reset, that is [`cycled`], and the source then
    /// knows that it will emit [`round_rest`].
    fn write_samples(&mut self, buffer: &mut [Sample]) -> (n: usize)
        ensures
            old(self).upstream().empty() ==> n == 0,
            old(self).stopped() ==> final(self).upstream() == old(self).upstream(),
            !old(self).stopped() ==> {
                let len = old(buffer)@.len();
                let marks = final(self).last_marks();
                &&& final(self).upstream().calls() == old(self).upstream().calls().push(
                    Call::Pull(len),
                ) + restarts(len, marks)
                &&& forall|k: int| 0 <= k < marks.len() ==> #[trigger] marks[k] < len
                &&& forall|k: int| 0 <= k < marks.len() - 1 ==> #[trigger] marks[k] < marks[k + 1]
                &&& marks.len() > 0 ==> marks.last() <= n
                &&& final(self).stopped() <==> n < len
                &&& final(self).stopped() <==> marks.len() > 0 && marks.last() == n
                &&& final(self).upstream().emitted() == old(self).upstream().emitted()
                    + final(buffer)@.take(n as int)
                &&& final(self).upstream().rewound() == old(self).upstream().rewound()
                &&& (old(self).upstream().upcoming(), old(self).upstream().rewound()) matches (
                    Some(first),
                    Some(again),
                ) ==> final(buffer)@.take(n as int) == cycled(first, again, len) && final(self).upstream().upcoming() == Some(round_rest(first, again, len))
            },
    {
        if self.finished {
            proof {
                assert(buffer@.take(0) =~= Seq::<Sample>::empty());
                assert(self.log@ + buffer@.take(0) =~= self.log@);
                self.trace = Ghost(self.trace@.push(Call::Pull(buffer@.len())));
            }
            return 0;
        }
        let len: usize = buffer.len();
        let ghost before = self.source;
        let mut written: usize = self.source.write_samples(buffer);
        let ghost mut marks: Seq<nat> = Seq::empty();
        let ghost known = before.upcoming() is Some && before.rewound() is Some;
        let ghost first = before.upcoming().unwrap();
        let ghost again = before.rewound().unwrap();
        let ghost goal = cycled(first, again, len as nat);
        proof {
            if known {
                assert(buffer@.take(written as int) =~= goal.take(written as int));
                assert(self.source.upcoming() == Some(round_rest(first, again, written as nat)));
                if written < len {
                    assert(first.skip(written as int) =~= Seq::<Sample>::empty());
                    if again.len() > 0 {
                        vstd::arithmetic::div_mod::lemma_small_mod(0, again.len());
                    }
                }
            }
            assert(before.calls().push(Call::Pull(len as nat)) + restarts(len as nat, marks)
                =~= before.calls().push(Call::Pull(len as nat)));
        }
        while written != len
            invariant
                self.source.wf(),
                !self.finished,
                !old(self).finished,
                self.log == old(self).log,
                self.trace == old(self).trace,
                self.source.channels() == old(self).source.channels(),
                self.source.rate() == old(self).source.rate(),
                before == old(self).source,
                before.empty() ==> written == 0 && self.source.empty(),
                written <= len == buffer@.len(),
                len == old(buffer)@.len(),
                buffer@.skip(written as int) == old(buffer)@.skip(written as int),
                self.source.calls() == before.calls().push(Call::Pull(len as nat)) + restarts(
                    len as nat,
                    marks,
                ),
                forall|k: int| 0 <= k < marks.len() ==> #[trigger] marks[k] < len,
                forall|k: int| 0 <= k < marks.len() - 1 ==> #[trigger] marks[k] < marks[k + 1],
                marks.len() > 0 ==> marks.last() < written,
                self.source.emitted() == before.emitted() + buffer@.take(written as int),
                self.source.rewound() == before.rewound(),
                known == (before.upcoming() is Some && before.rewound() is Some),
                first == before.upcoming().unwrap(),
                again == before.rewound().unwrap(),
                goal == cycled(first, again, len as nat),
                known ==> written <= goal.len() && buffer@.take(written as int) == goal.take(
                    written as int,
                ),
                known ==> self.source.upcoming() == Some(
                    round_rest(first, again, written as nat),
                ),
                known && written < len ==> {
                    &&& first.len() <= written
                    &&& self.source.upcoming() matches Some(left) && left.len() == 0
                    &&& again.len() > 0 ==> (written - first.len()) % (again.len() as int) == 0
                    &&& again.len() == 0 ==> written == first.len()
                },
            decreases len - written,
        {
            let ghost filled = buffer@;
            let ghost earlier = marks;
            self.source.reset();
            let (head, rest) = buffer.split_at_mut(written);
            let newly: usize = self.source.write_samples(rest);
            proof {
                marks = earlier.push(written as nat);
                assert(marks.drop_last() =~= earlier);
                assert(self.source.calls() =~= before.calls().push(Call::Pull(len as nat))
                    + restarts(len as nat, marks));
                assert(buffer@.take(written as int) =~= filled.take(written as int));
                assert(buffer@.skip(written + newly) =~= filled.skip(written as int).skip(
                    newly as int,
                ));
                assert(self.source.emitted() =~= before.emitted() + buffer@.take(
                    written + newly,
                ));
                if known {
                    let period = again.len() as int;
                    if period > 0 {
                        let longer = buffer@.take(written + newly);
                        let wanted = goal.take(written + newly);
                        assert forall|k: int| 0 <= k < written + newly implies #[trigger] longer[k]
                            == wanted[k] by {
                            if k < written {
                                assert(buffer@.take(written as int)[k] == goal.take(written as int)[k]);
                            } else {
                                lemma_next_round(written as int, first.len() as int, period, k - written);
                                assert(buffer@[k] == rest@.take(newly as int)[k - written]);
                            }
                        }
                        assert(longer =~= wanted);
                        lemma_next_round(written as int, first.len() as int, period, 0);
                        if newly < period {
                            lemma_next_round(
                                written as int,
                                first.len() as int,
                                period,
                                newly as int,
                            );
                        } else {
                            assert(again.skip(newly as int) =~= Seq::<Sample>::empty());
                        }
                        assert(self.source.upcoming() == Some(
                            round_rest(first, again, (written + newly) as nat),
                        ));
                    } else {
                        assert(goal.take(written as int) =~= goal);
                        assert(again.skip(0) =~= Seq::<Sample>::empty());
                        assert(self.source.upcoming() == Some(round_rest(first, again, len as nat)));
                    }
                }
            }
            if newly == 0 {
                self.finished = true;
                proof {
                    self.log = Ghost(self.log@ + buffer@.take(written as int));
                    self.trace = Ghost(self.trace@.push(Call::Pull(len as nat)));
                    self.marks = Ghost(marks);
                }
                return written;
            }
            written = written + newly;
        }
        proof {
            self.log = Ghost(self.log@ + buffer@.take(written as int));
            self.trace = Ghost(self.trace@.push(Call::Pull(len as nat)));
            self.marks = Ghost(marks);
            assert(buffer@.skip(len as int) =~= old(buffer)@.skip(len as int));
            if known {
                assert(goal.take(len as int) =~= goal);
            }
        }
        len
    }

    /// Resets the wrapped source; a stopped cycle starts anew.
    fn reset(&mut self)
        ensures
            !final(self).stopped(),
            final(self).upstream().calls() == old(self).upstream().calls().push(Call::Reset),
            final(self).upstream().emitted() == old(self).upstream().emitted(),
            final(self).upstream().rewound() == old(self).upstream().rewound(),
            old(self).upstream().rewound() is Some ==> final(self).upstream().upcoming() == old(self).upstream().rewound(),
    {
        self.source.reset();
        self.finished = false;
        proof {
            self.trace = Ghost(self.trace@.push(Call::Reset));
        }
    }
}

/// A cycle goes round and round: over a source that emits the same samples,
/// `again`, on every pass, and that has emitted `at` of them in this pass, a
/// cycle fills every buffer, sample `i` of the buffer is sample `(at + i) %
/// again.len()` of `again`, and the source is then as far into a pass as
/// that count says.
pub proof fn lemma_cycle_goes_round(again: Seq<Sample>, at: nat, len: nat)
    requires
        again.len() >= 1,
        at <= again.len(),
    ensures
        cycled(again.skip(at as int), again, len).len() == len,
        forall|i: int|
            0 <= i < len ==> #[trigger] cycled(again.skip(at as int), again, len)[i] == again[(at
                + i) % (again.len() as int)],
        exists|next: nat|
            next <= again.len() && #[trigger] again.skip(next as int) == round_rest(
                again.skip(at as int),
                again,
                len,
            ) && next % again.len() == (at + len) % again.len(),
{
    let p = again.len() as int;
    let first = again.skip(at as int);
    let all = cycled(first, again, len);
    let lead = first.len() as int;
    assert(lead == p - at);
    assert forall|i: int| 0 <= i < len implies #[trigger] all[i] == again[(at + i) % p] by {
        if i < lead {
            vstd::arithmetic::div_mod::lemma_small_mod((at + i) as nat, p as nat);
        } else {
            let j = i - lead;
            vstd::arithmetic::div_mod::lemma_mod_multiples_vanish(1, j, p);
            assert(at + i == p * 1 + j);
        }
    }
    if len <= lead {
        let next = (at + len) as nat;
        assert(again.skip(next as int) =~= first.skip(len as int));
    } else {
        let over = (len - lead) % p;
        vstd::arithmetic::div_mod::lemma_mod_multiples_vanish(1, len - lead, p);
        assert(at + len == p * 1 + (len - lead));
        vstd::arithmetic::div_mod::lemma_mod_bound(len - lead, p);
        if over == 0 {
            let next = p as nat;
            assert(again.skip(p) =~= Seq::<Sample>::empty());
            vstd::arithmetic::div_mod::lemma_mod_self_0(p);
            assert(again.skip(next as int) == round_rest(first, again, len));
        } else {
            let next = over as nat;
            vstd::arithmetic::div_mod::lemma_small_mod(next, p as nat);
            assert(again.skip(next as int) == round_rest(first, again, len));
        }
    }
}

} // verus!
