//! The ring that decouples a slow source from a consumer with a deadline.
//!
//! A producer pulls from the source into the ring whenever there is room; a
//! consumer takes from the ring what it holds. This module holds the ring and
//! both of their steps; running the producer on a thread of its own, and the
//! lock around each step, are left to the caller.

use crate::source::{first_of, foreknown, Call, Sample, Source, SILENCE};
use vstd::prelude::*;

verus! {

/// The default capacity of a ring, in samples.
pub const DEF_BUFFER_SIZE: usize = 4800;

/// What the producer has to do next.
#[derive(Clone, Copy, Debug, PartialEq, Eq, Structural)]
pub enum ProducerAction {
    /// The ring was dropped, or the source has ended: stop.
    Exit,
    /// The ring is full: sleep until the consumer has taken something.
    Wait,
    /// There is room: fill it from the source.
    Fill,
}

/// A buffered stream, as far as its samples go: those that the consumer has
/// been handed, those that the ring holds, and those that the source will
/// still emit.
pub struct Stream {
    pub heard: Seq<Sample>,
    pub held: Seq<Sample>,
    pub ahead: Seq<Sample>,
}

/// One step of a buffered stream.
pub enum Step {
    /// The producer fills a ring of that capacity.
    Fill(nat),
    /// The consumer is served for a buffer of that many samples.
    Serve(nat),
}

impl Stream {
    /// Every sample of the stream, in the order in which the consumer hears
    /// them.
    pub open spec fn all(self) -> Seq<Sample> {
        self.heard + self.held + self.ahead
    }

    /// The stream after the producer has filled a ring of `capacity` samples:
    /// as many samples as the ring has room for have gone from the source to
    /// the back of the ring.
    pub open spec fn fill(self, capacity: nat) -> Stream {
        let chunk = first_of(self.ahead, (capacity - self.held.len()) as nat);
        Stream {
            heard: self.heard,
            held: self.held + chunk,
            ahead: self.ahead.skip(chunk.len() as int),
        }
    }

    /// The stream after the consumer has been served for a buffer of `len`
    /// samples: as many samples as the buffer takes have gone from the front
    /// of the ring to the consumer.
    pub open spec fn serve(self, len: nat) -> Stream {
        let out = first_of(self.held, len);
        Stream {
            heard: self.heard + out,
            held: self.held.skip(out.len() as int),
            ahead: self.ahead,
        }
    }

    /// The stream after `step`.
    pub open spec fn step(self, step: Step) -> Stream {
        match step {
            Step::Fill(capacity) => self.fill(capacity),
            Step::Serve(len) => self.serve(len),
        }
    }

    /// The stream after the steps, one after another.
    pub open spec fn run(self, steps: Seq<Step>) -> Stream
        decreases steps.len(),
    {
        if steps.len() == 0 {
            self
        } else {
            self.run(steps.drop_last()).step(steps.last())
        }
    }
}

/// A step moves samples forward and changes none: the samples of the stream
/// are the same after it, in the same order, and what the consumer has heard
/// has only grown.
pub proof fn lemma_step_is_transparent(stream: Stream, step: Step)
    ensures
        stream.step(step).all() == stream.all(),
        stream.heard.is_prefix_of(stream.step(step).heard),
{
    match step {
        Step::Fill(capacity) => {
            let chunk = first_of(stream.ahead, (capacity - stream.held.len()) as nat);
            assert(stream.ahead =~= chunk + stream.ahead.skip(chunk.len() as int));
            assert(stream.fill(capacity).all() =~= stream.all());
        },
        Step::Serve(len) => {
            let out = first_of(stream.held, len);
            assert(stream.held =~= out + stream.held.skip(out.len() as int));
            assert(stream.serve(len).all() =~= stream.all());
        },
    }
}

/// Buffering is transparent: whatever the producer and the consumer do, in
/// whatever order, the consumer hears the samples of the source, none lost,
/// repeated or out of order. What it has heard after the steps, what the
/// ring holds and what the source will still emit are together what they
/// were at the start.
pub proof fn lemma_buffer_is_transparent(start: Stream, steps: Seq<Step>)
    ensures
        start.run(steps).all() == start.all(),
        start.heard.is_prefix_of(start.run(steps).heard),
        start.heard.len() == 0 && start.held.len() == 0 ==> start.run(steps).heard.is_prefix_of(
            start.ahead,
        ),
    decreases steps.len(),
{
    if steps.len() > 0 {
        lemma_buffer_is_transparent(start, steps.drop_last());
        lemma_step_is_transparent(start.run(steps.drop_last()), steps.last());
    }
    if start.heard.len() == 0 && start.held.len() == 0 {
        let end = start.run(steps);
        assert(start.all() =~= start.ahead);
        assert(end.heard.is_prefix_of(end.all()));
    }
}

/// What one step of the consumer did.
#[derive(Clone, Copy, Debug, PartialEq, Eq, Structural)]
pub struct Served {
    /// How many samples of the output have been written, from its start.
    pub count: usize,
    /// Whether the request is done with: the output is full, or the stream
    /// has ended. Otherwise the ring ran dry, and the rest of the output is
    /// to be asked for again.
    pub done: bool,
}

proof fn lemma_next_slot(a: int, cap: int)
    requires
        0 <= a,
        1 <= cap,
    ensures
        (a + 1) % cap == if a % cap + 1 == cap {
            0
        } else {
            a % cap + 1
        },
{
    let q = a / cap;
    let r = a % cap;
    vstd::arithmetic::div_mod::lemma_fundamental_div_mod(a, cap);
    vstd::arithmetic::div_mod::lemma_mod_bound(a, cap);
    if r + 1 == cap {
        assert(a + 1 == (q + 1) * cap + 0) by (nonlinear_arith)
            requires
                a == cap * q + r,
                r + 1 == cap,
        ;
        vstd::arithmetic::div_mod::lemma_fundamental_div_mod_converse(a + 1, cap, q + 1, 0);
    } else {
        assert(a + 1 == q * cap + (r + 1)) by (nonlinear_arith)
            requires
                a == cap * q + r,
        ;
        vstd::arithmetic::div_mod::lemma_fundamental_div_mod_converse(a + 1, cap, q, r + 1);
    }
}

proof fn lemma_first_free_slot(index: int, len: int, cap: int)
    requires
        0 <= index < cap,
        0 <= len <= cap,
    ensures
        (index + len) % cap == if len >= cap - index {
            len - (cap - index)
        } else {
            index + len
        },
{
    if len >= cap - index {
        vstd::arithmetic::div_mod::lemma_fundamental_div_mod_converse(
            index + len,
            cap,
            1,
            len - (cap - index),
        );
    } else {
        vstd::arithmetic::div_mod::lemma_small_mod((index + len) as nat, cap as nat);
    }
}

/// A fixed-capacity circular array of samples, first in, first out.
pub struct RingBuffer {
    data: Vec<Sample>,
    index: usize,
    len: usize,
    samples_remaining: Option<usize>,
    dropped: bool,
    taken_in: Ghost<Seq<Sample>>,
    handed_out: Ghost<Seq<Sample>>,
}

impl View for RingBuffer {
    type V = Seq<Sample>;

    /// The samples that the ring holds, oldest first.
    closed spec fn view(&self) -> Seq<Sample> {
        Seq::new(self.len as nat, |i: int| self.data@[(self.index + i) % (self.data@.len() as int)])
    }
}

impl RingBuffer {
    /// How many samples the ring can hold.
    pub closed spec fn spec_capacity(&self) -> nat {
        self.data@.len()
    }

    /// Whether the source has ended: the ring takes in nothing more.
    pub closed spec fn sealed(&self) -> bool {
        self.samples_remaining is Some
    }

    /// Whether the ring's owner has let go of it.
    pub closed spec fn is_dropped(&self) -> bool {
        self.dropped
    }

    /// Every sample that was ever put into the ring, in order.
    pub closed spec fn pushed(&self) -> Seq<Sample> {
        self.taken_in@
    }

    /// Every sample that was ever taken out of the ring, in order.
    pub closed spec fn served(&self) -> Seq<Sample> {
        self.handed_out@
    }

    /// The stream that the ring buffers, over a source that will still emit
    /// `ahead`.
    pub open spec fn stream(&self, ahead: Seq<Sample>) -> Stream {
        Stream { heard: self.served(), held: self@, ahead }
    }

    /// The validity of the ring: it holds no more than its capacity, and what
    /// was put in is what was taken out and then what it holds.
    pub closed spec fn wf(&self) -> bool {
        &&& self.data@.len() >= 1
        &&& self.index < self.data@.len()
        &&& self.len <= self.data@.len()
        &&& self.samples_remaining matches Some(k) ==> k == self.len
        &&& self.taken_in@ == self.handed_out@ + self@
    }

    /// An empty ring of the given capacity.
    pub fn with_capacity(capacity: usize) -> (ring: Self)
        requires
            capacity >= 1,
        ensures
            ring.wf(),
            ring.spec_capacity() == capacity,
            ring@ == Seq::<Sample>::empty(),
            ring.pushed() == Seq::<Sample>::empty(),
            ring.served() == Seq::<Sample>::empty(),
            !ring.sealed(),
            !ring.is_dropped(),
    {
        let ring = RingBuffer {
            data: vec![SILENCE; capacity],
            index: 0,
            len: 0,
            samples_remaining: None,
            dropped: false,
            taken_in: Ghost(Seq::empty()),
            handed_out: Ghost(Seq::empty()),
        };
        proof {
            assert(ring@ =~= Seq::<Sample>::empty());
            assert(ring.taken_in@ =~= ring.handed_out@ + ring@);
        }
        ring
    }

    /// How many samples the ring can hold.
    pub fn capacity(&self) -> (c: usize)
        ensures
            c == self.spec_capacity(),
    {
        self.data.len()
    }

    /// How many samples the ring holds.
    pub fn stored_len(&self) -> (n: usize)
        requires
            self.wf(),
        ensures
            n == self@.len(),
    {
        self.len
    }

    /// Marks the ring as dropped, so that the producer stops.
    pub fn close(&mut self)
        requires
            old(self).wf(),
        ensures
            final(self).wf(),
            final(self).is_dropped(),
            final(self)@ == old(self)@,
            final(self).spec_capacity() == old(self).spec_capacity(),
            final(self).sealed() == old(self).sealed(),
            final(self).pushed() == old(self).pushed(),
            final(self).served() == old(self).served(),
    {
        self.dropped = true;
        proof {
            assert(self@ =~= old(self)@);
        }
    }

    /// What the producer has to do next: stop where the ring was dropped or
    /// the source has ended, wait where the ring is full, else fill it.
    pub fn producer_action(&self) -> (action: ProducerAction)
        requires
            self.wf(),
        ensures
            action == if self.is_dropped() || self.sealed() {
                ProducerAction::Exit
            } else if self@.len() >= self.spec_capacity() {
                ProducerAction::Wait
            } else {
                ProducerAction::Fill
            },
    {
        if self.dropped || self.samples_remaining.is_some() {
            ProducerAction::Exit
        } else if self.len >= self.data.len() {
            ProducerAction::Wait
        } else {
            ProducerAction::Fill
        }
    }

    /// The producer's step: pulls the source once, for as many samples as
    /// the ring has room for, and puts what it wrote behind the samples that
    /// the ring holds. A short read seals the ring. Where the source knows
    /// what it will emit, what it wrote is the beginning of that.
    ///
    /// `back_buffer` is scratch space; what it held is lost.
    pub fn fill<S: Source>(&mut self, source: &mut S, back_buffer: &mut Vec<Sample>)
        requires
            old(self).wf(),
            !old(self).sealed(),
            old(source).wf(),
        ensures
            final(self).wf(),
            final(source).wf(),
            final(source).channels() == old(source).channels(),
            final(source).rate() == old(source).rate(),
            final(self).spec_capacity() == old(self).spec_capacity(),
            final(self).is_dropped() == old(self).is_dropped(),
            final(self).served() == old(self).served(),
            old(source).emitted().is_prefix_of(final(source).emitted()),
            final(source).calls() == old(source).calls().push(
                Call::Pull((old(self).spec_capacity() - old(self)@.len()) as nat),
            ),
            foreknown(
                *old(source),
                *final(source),
                (old(self).spec_capacity() - old(self)@.len()) as nat,
            ),
            old(source).upcoming() matches Some(ahead) ==> final(source).upcoming() matches Some(
                rest,
            ) && final(self).stream(rest) == old(self).stream(ahead).fill(old(self).spec_capacity()),
            ({
                let chunk = final(source).emitted().skip(old(source).emitted().len() as int);
                &&& final(self)@ == old(self)@ + chunk
                &&& final(self).pushed() == old(self).pushed() + chunk
                &&& final(self).sealed() <==> final(self)@.len() < final(self).spec_capacity()
            }),
    {
        let capacity: usize = self.data.len();
        let samples_missing: usize = capacity - self.len;
        back_buffer.resize(samples_missing, SILENCE);
        let ghost earlier = source.emitted();
        let ghost before = *source;
        let written_count: usize = source.write_samples(back_buffer);
        let ghost chunk = back_buffer@.take(written_count as int);
        proof {
            if before.upcoming() is Some {
                assert(chunk =~= first_of(before.upcoming().unwrap(), samples_missing as nat));
            }
            assert(source.emitted().skip(earlier.len() as int) =~= chunk);
            lemma_first_free_slot(self.index as int, self.len as int, capacity as int);
        }
        if written_count < samples_missing {
            self.samples_remaining = Some(self.len + written_count);
        }
        let mut write_index: usize = if self.len >= capacity - self.index {
            self.len - (capacity - self.index)
        } else {
            self.index + self.len
        };
        let ghost start = *self;
        let mut i: usize = 0;
        while i < written_count
            invariant
                i <= written_count <= samples_missing,
                capacity == self.data@.len(),
                capacity >= 1,
                self.index == start.index < capacity,
                self.len == start.len,
                start.len + samples_missing == capacity,
                self.samples_remaining == start.samples_remaining,
                self.dropped == start.dropped,
                self.taken_in == start.taken_in,
                self.handed_out == start.handed_out,
                write_index == (self.index + self.len + i) % (capacity as int),
                written_count <= back_buffer@.len(),
                chunk == back_buffer@.take(written_count as int),
                forall|k: int|
                    0 <= k < self.len + i ==> self.data@[(self.index + k) % (capacity as int)] == (
                    start@ + chunk)[k],
            decreases written_count - i,
        {
            proof {
                lemma_next_slot(self.index + self.len + i, capacity as int);
                vstd::arithmetic::div_mod::lemma_mod_bound(
                    self.index + self.len + i,
                    capacity as int,
                );
            }
            let ghost before = self.data@;
            self.data[write_index] = back_buffer[i];
            proof {
                assert forall|k: int| 0 <= k < self.len + i + 1 implies self.data@[(self.index + k) % (
                capacity as int)] == (start@ + chunk)[k] by {
                    if k < self.len + i {
                        lemma_distinct_slots(
                            self.index as int,
                            k,
                            self.len + i,
                            capacity as int,
                        );
                        assert(before[(self.index + k) % (capacity as int)] == (start@ + chunk)[k]);
                    }
                }
            }
            i += 1;
            write_index = if write_index + 1 == capacity {
                0
            } else {
                write_index + 1
            };
        }
        self.len = self.len + written_count;
        proof {
            self.taken_in = Ghost(self.taken_in@ + chunk);
            assert(self@ =~= start@ + chunk);
            assert(self.taken_in@ =~= self.handed_out@ + self@);
        }
    }

    // Only meant as a helper fn. Assumes there's enough data in the ring buffer to fill the output.
    fn write_to(&mut self, output: &mut [Sample])
        requires
            old(self).wf(),
            old(output)@.len() <= old(self)@.len(),
        ensures
            final(self).wf(),
            final(self).spec_capacity() == old(self).spec_capacity(),
            final(self).is_dropped() == old(self).is_dropped(),
            final(self).sealed() == old(self).sealed(),
            final(self).pushed() == old(self).pushed(),
            final(output)@ == old(self)@.take(old(output)@.len() as int),
            final(self)@ == old(self)@.skip(old(output)@.len() as int),
            final(self).served() == old(self).served() + final(output)@,
    {
        let capacity: usize = self.data.len();
        let count: usize = output.len();
        let ghost start = *self;
        let mut read_index: usize = self.index;
        let mut i: usize = 0;
        proof {
            vstd::arithmetic::div_mod::lemma_small_mod(self.index as nat, capacity as nat);
        }
        while i < count
            invariant
                *self == start,
                start.wf(),
                capacity == self.data@.len(),
                i <= count == output@.len(),
                count <= self.len,
                read_index == (self.index + i) % (capacity as int),
                read_index < capacity,
                output@.take(i as int) == start@.take(i as int),
            decreases count - i,
        {
            proof {
                lemma_next_slot(self.index + i, capacity as int);
            }
            let ghost before = output@;
            output[i] = self.data[read_index];
            proof {
                assert(output@.take(i + 1) =~= before.take(i as int).push(start@[i as int]));
                assert(start@.take(i + 1) =~= start@.take(i as int).push(start@[i as int]));
            }
            i += 1;
            read_index = if read_index + 1 == capacity {
                0
            } else {
                read_index + 1
            };
        }
        // Remove data from the front of the ring buffer
        self.index = read_index;
        self.len = self.len - count;
        if let Some(remaining) = self.samples_remaining {
            self.samples_remaining = Some(remaining - count);
        }
        proof {
            assert(output@.take(count as int) =~= output@);
            self.handed_out = Ghost(self.handed_out@ + output@);
            assert forall|k: int| 0 <= k < self.len implies self@[k] == start@[count + k] by {
                vstd::arithmetic::div_mod::lemma_add_mod_noop(
                    start.index + count,
                    k,
                    capacity as int,
                );
                vstd::arithmetic::div_mod::lemma_small_mod(k as nat, capacity as nat);
            }
            assert(self@ =~= start@.skip(count as int));
            assert(start@ =~= start@.take(count as int) + start@.skip(count as int));
            assert(self.taken_in@ =~= self.handed_out@ + self@);
        }
    }

    /// The consumer's step: writes to the start of `output` as much of what
    /// is asked for as the ring holds, oldest first.
    ///
    /// What is asked for is the whole output, or what is left of the stream
    /// where that is less. The step is done where all of that was written.
    pub fn serve(&mut self, output: &mut [Sample]) -> (r: Served)
        requires
            old(self).wf(),
        ensures
            final(self).wf(),
            final(self).spec_capacity() == old(self).spec_capacity(),
            final(self).is_dropped() == old(self).is_dropped(),
            final(self).sealed() == old(self).sealed(),
            final(self).pushed() == old(self).pushed(),
            final(output)@.len() == old(output)@.len(),
            r.count == if old(output)@.len() <= old(self)@.len() {
                old(output)@.len()
            } else {
                old(self)@.len()
            },
            r.done <==> r.count == old(output)@.len() || old(self).sealed(),
            r.done && r.count < old(output)@.len() ==> final(self).sealed() && final(self)@.len() == 0,
            final(output)@.take(r.count as int) == old(self)@.take(r.count as int),
            final(output)@.skip(r.count as int) == old(output)@.skip(r.count as int),
            final(self)@ == old(self)@.skip(r.count as int),
            final(self).served() == old(self).served() + final(output)@.take(r.count as int),
            forall|ahead: Seq<Sample>| #[trigger]
                final(self).stream(ahead) == old(self).stream(ahead).serve(old(output)@.len()),
    {
        let wanted: usize = output.len();
        let count: usize = if wanted <= self.len {
            wanted
        } else {
            self.len
        };
        let done: bool = count == wanted || self.samples_remaining.is_some();
        let (head, tail) = output.split_at_mut(count);
        self.write_to(head);
        proof {
            assert(output@.take(count as int) =~= head@);
            assert(output@.skip(count as int) =~= tail@);
            assert(first_of(old(self)@, wanted as nat) =~= old(self)@.take(count as int));
        }
        Served { count, done }
    }

    /// The consumer's step within a request that has been served in part:
    /// `total` samples of `output` have been written, and the step writes
    /// behind them as much of the rest as the ring holds, oldest first.
    ///
    /// The result carries the new total. The request is done where the whole
    /// output has been written or the stream has ended; the total is then
    /// what the request returns.
    pub fn serve_from(&mut self, output: &mut [Sample], total: usize) -> (r: Served)
        requires
            old(self).wf(),
            total <= old(output)@.len(),
        ensures
            final(self).wf(),
            final(self).spec_capacity() == old(self).spec_capacity(),
            final(self).is_dropped() == old(self).is_dropped(),
            final(self).sealed() == old(self).sealed(),
            final(self).pushed() == old(self).pushed(),
            final(output)@.len() == old(output)@.len(),
            r.count == total + if old(output)@.len() - total <= old(self)@.len() {
                old(output)@.len() - total
            } else {
                old(self)@.len() as int
            },
            r.done <==> r.count == old(output)@.len() || old(self).sealed(),
            r.done && r.count < old(output)@.len() ==> final(self).sealed() && final(self)@.len() == 0,
            final(output)@.take(total as int) == old(output)@.take(total as int),
            final(output)@.subrange(total as int, r.count as int) == old(self)@.take(r.count - total),
            final(output)@.skip(r.count as int) == old(output)@.skip(r.count as int),
            final(self)@ == old(self)@.skip(r.count - total),
            final(self).served() == old(self).served() + final(output)@.subrange(
                total as int,
                r.count as int,
            ),
            forall|ahead: Seq<Sample>| #[trigger]
                final(self).stream(ahead) == old(self).stream(ahead).serve(
                    (old(output)@.len() - total) as nat,
                ),
    {
        let len: usize = output.len();
        let (written, rest) = output.split_at_mut(total);
        let ghost asked = rest@;
        let step = self.serve(rest);
        assert(total + step.count <= len);
        proof {
            assert(output@.take(total as int) =~= written@);
            assert(output@.subrange(total as int, total + step.count) =~= rest@.take(
                step.count as int,
            ));
            assert(output@.skip(total + step.count) =~= rest@.skip(step.count as int));
            assert(old(output)@.skip(total + step.count) =~= asked.skip(step.count as int));
        }
        Served { count: total + step.count, done: step.done }
    }
}

proof fn lemma_distinct_slots(index: int, k: int, last: int, cap: int)
    requires
        0 <= index < cap,
        0 <= k < last < cap,
    ensures
        (index + k) % cap != (index + last) % cap,
{
    let a = index + k;
    let b = index + last;
    vstd::arithmetic::div_mod::lemma_fundamental_div_mod(a, cap);
    vstd::arithmetic::div_mod::lemma_fundamental_div_mod(b, cap);
    if a % cap == b % cap {
        assert(b - a == cap * (b / cap - a / cap)) by (nonlinear_arith)
            requires
                a == cap * (a / cap) + a % cap,
                b == cap * (b / cap) + b % cap,
                a % cap == b % cap,
        ;
        assert(false) by (nonlinear_arith)
            requires
                0 < b - a < cap,
                b - a == cap * (b / cap - a / cap),
        ;
    }
}

/// The ring is transparent: what was taken out is the beginning of what was
/// put in, sample for sample, and all of it once the ring is empty.
pub proof fn lemma_ring_is_transparent(ring: RingBuffer)
    requires
        ring.wf(),
    ensures
        ring.pushed() == ring.served() + ring@,
        ring.served().is_prefix_of(ring.pushed()),
        ring@.len() == 0 ==> ring.served() == ring.pushed(),
{
    assert(ring@.len() == 0 ==> ring.served() + ring@ =~= ring.served());
}

} // verus!
