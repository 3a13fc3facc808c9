//! A simple additive mixer.
//!
//! [`Mixer::new`] returns a [`Mixer`] and a [`MixerHandle`]. The mixer is a
//! [`Source`], meant to be attached (directly or indirectly) to an output
//! stream or any other place where a source is expected. The handle is kept
//! and used for adding sources to the mixer while it plays.

use crate::source::{
    first_of, foreknown, lemma_sums_one_more, sums, Call, ChannelCount, Sample, SampleRate, Source,
    SILENCE,
};
use std::sync::atomic::AtomicBool;
use std::sync::atomic::Ordering;
use std::sync::mpsc::Receiver;
use std::sync::mpsc::Sender;
use std::sync::Arc;
use vstd::prelude::*;

verus! {

/// The number of sounds that a new mixer has room for.
pub const INIT_CAPACITY: usize = 16;

/// Error type for Mixer calls
#[derive(Debug, Clone, Copy, PartialEq, Eq, Structural)]
pub enum Error {
    /// Indicates that something could not be sent to the Mixer via a MixerHandle.
    /// This usually happens because the Mixer no longer exists.
    SendError,
}

/// `std::sync::mpsc::Receiver`, the receiving half of a channel: a value of
/// it is carried about and never looked into.
#[verifier::external_type_specification]
#[verifier::external_body]
#[verifier::reject_recursive_types(T)]
pub struct ExReceiver<T>(Receiver<T>);

/// `std::sync::mpsc::Sender`, the sending half of a channel: a value of it
/// is carried about and never looked into.
#[verifier::external_type_specification]
#[verifier::external_body]
#[verifier::reject_recursive_types(T)]
pub struct ExSender<T>(Sender<T>);

/// `std::sync::mpsc::channel`: a new channel, as its sending and its
/// receiving half. Nothing is claimed of them.
#[verifier::external_body]
fn channel<T>() -> (halves: (Sender<T>, Receiver<T>)) {
    std::sync::mpsc::channel()
}

/// `Sender::send`: hands `message` to the channel and says whether it was
/// taken. Whether it is depends on whether the receiving half still exists,
/// so nothing is claimed of the result.
#[verifier::external_body]
fn send<T>(sender: &Sender<T>, message: T) -> (delivered: bool) {
    sender.send(message).is_ok()
}

/// `Sender::clone`: another sending half of the same channel. Nothing is
/// claimed of it.
#[verifier::external_body]
fn another<T>(sender: &Sender<T>) -> (other: Sender<T>) {
    sender.clone()
}

/// `Receiver::try_iter`: the messages that are waiting in the channel, in the
/// order in which they were sent, without blocking. Which messages these are
/// depends on the other threads, so nothing is claimed of the result.
#[verifier::external_body]
fn pending<T>(receiver: &Receiver<T>) -> (messages: Vec<T>) {
    receiver.try_iter().collect()
}

/// `Arc::clone`: another pointer to the same allocation.
#[verifier::external_body]
fn share(info: &Arc<SoundInfo>) -> (other: Arc<SoundInfo>)
    ensures
        other == *info,
{
    Arc::clone(info)
}

/// The two flags that a mixer and the handle of a sound share.
struct SoundInfo {
    running: AtomicBool,
    stop: AtomicBool,
}

fn stop_requested(handle: &SoundHandle) -> bool {
    handle.0.stop.load(Ordering::Acquire)
}

fn set_running(handle: &SoundHandle, running: bool) {
    handle.0.running.store(running, Ordering::Release)
}

/// The caller's handle of a sound that was added to a mixer.
pub struct SoundHandle(Arc<SoundInfo>);

impl SoundHandle {
    /// Whether the mixer is still playing the sound, as far as it has said.
    #[inline(always)]
    pub fn is_running(&self) -> bool {
        self.0.running.load(Ordering::Acquire)
    }

    /// Asks the mixer to drop the sound at its next pull. Asking twice is
    /// asking once.
    #[inline(always)]
    pub fn stop(&mut self) {
        self.0.stop.store(true, Ordering::Release)
    }
}

/// A source on its way to a mixer, with its flags. The source of a sound is
/// valid: a sound is made by [`Sound::new`] only, so that the validity of a
/// source passes through the channel with it.
pub struct Sound<S: Source> {
    source: S,
    handle: SoundHandle,
}

impl<S: Source> Sound<S> {
    #[verifier::type_invariant]
    spec fn valid(self) -> bool {
        self.source.wf()
    }

    /// The source of the sound.
    pub closed spec fn source(self) -> S {
        self.source
    }

    /// The mixer's handle of the sound, which shares its flags with the
    /// caller's handle.
    pub closed spec fn handle(self) -> SoundHandle {
        self.handle
    }
}

/// One pull in a mix: the source of a sound before the pull, and after it,
/// and the handle of the sound.
pub struct Mixed<S> {
    pub before: S,
    pub after: S,
    pub handle: SoundHandle,
}

impl<S: Source> Mixed<S> {
    /// The samples that the source wrote in the pull.
    pub open spec fn chunk(self) -> Seq<Sample> {
        self.after.emitted().skip(self.before.emitted().len() as int)
    }
}

/// The samples that the chunks hold at place `i`, in the order of the chunks;
/// a chunk that ends before `i` holds none.
pub open spec fn column(chunks: Seq<Seq<Sample>>, i: int) -> Seq<Sample>
    decreases chunks.len(),
{
    if chunks.len() == 0 {
        Seq::empty()
    } else {
        let rest = column(chunks.drop_last(), i);
        if i < chunks.last().len() {
            rest.push(chunks.last()[i])
        } else {
            rest
        }
    }
}

/// The chunks of the pulls.
pub open spec fn chunks_of<S: Source>(mix: Seq<Mixed<S>>) -> Seq<Seq<Sample>> {
    Seq::new(mix.len(), |j: int| mix[j].chunk())
}

/// The sources that were pulled, as they were before.
pub open spec fn befores<S>(mix: Seq<Mixed<S>>) -> Seq<S> {
    Seq::new(mix.len(), |j: int| mix[j].before)
}

/// The handles of the sounds that were pulled.
pub open spec fn handles_in<S>(mix: Seq<Mixed<S>>) -> Seq<SoundHandle> {
    Seq::new(mix.len(), |j: int| mix[j].handle)
}

/// The sources that stay after a mix into a buffer of `len` samples: those
/// that filled it, in their order, as they are after their pull.
pub open spec fn kept<S: Source>(mix: Seq<Mixed<S>>, len: nat) -> Seq<S>
    decreases mix.len(),
{
    if mix.len() == 0 {
        Seq::empty()
    } else {
        let rest = kept(mix.drop_last(), len);
        if mix.last().chunk().len() == len {
            rest.push(mix.last().after)
        } else {
            rest
        }
    }
}

/// The handles of the sounds that stay after a mix into a buffer of `len`
/// samples: those of the sources that stay.
pub open spec fn kept_handles<S: Source>(mix: Seq<Mixed<S>>, len: nat) -> Seq<SoundHandle>
    decreases mix.len(),
{
    if mix.len() == 0 {
        Seq::empty()
    } else {
        let rest = kept_handles(mix.drop_last(), len);
        if mix.last().chunk().len() == len {
            rest.push(mix.last().handle)
        } else {
            rest
        }
    }
}

/// Those of the items, which are the sources of the sounds or their handles,
/// that belong to sounds whose stop was not asked for, in their order.
pub open spec fn unstopped<T>(items: Seq<T>, stops: Seq<bool>) -> Seq<T>
    decreases items.len(),
{
    if items.len() == 0 || stops.len() != items.len() {
        Seq::empty()
    } else {
        let rest = unstopped(items.drop_last(), stops.drop_last());
        if stops.last() {
            rest
        } else {
            rest.push(items.last())
        }
    }
}

/// The sources of the sounds.
pub open spec fn sources_of<S: Source>(sounds: Seq<Sound<S>>) -> Seq<S> {
    Seq::new(sounds.len(), |j: int| sounds[j].source())
}

/// The handles of the sounds.
pub open spec fn handles_of<S: Source>(sounds: Seq<Sound<S>>) -> Seq<SoundHandle> {
    Seq::new(sounds.len(), |j: int| sounds[j].handle())
}

/// Says what came of adding a sound: its handle where the mixer took it, else
/// the error.
pub fn outcome(delivered: bool, handle: SoundHandle) -> (r: Result<SoundHandle, Error>)
    ensures
        delivered <==> r is Ok,
        r matches Err(e) ==> e == Error::SendError,
        r matches Ok(h) ==> h == handle,
{
    if delivered {
        Ok(handle)
    } else {
        Err(Error::SendError)
    }
}

/// Returned from [`Mixer::new`], and permanently associated with the mixer
/// created alongside it. Used for adding sounds to the mixer with
/// `handle.add()`.
#[verifier::reject_recursive_types(S)]
pub struct MixerHandle<S: Source>(Sender<Sound<S>>);

impl<S: Source> MixerHandle<S> {
    /// Adds a source to the mixer associated with this handle. The mixer will
    /// play the source until it ends, then discard it.
    ///
    /// Whether the mixer takes the sound is not for this library to say: the
    /// result is that of [`outcome`] for what the channel answered.
    pub fn add(&self, source: S) -> (r: Result<SoundHandle, Error>)
        requires
            source.wf(),
        ensures
            r matches Err(e) ==> e == Error::SendError,
    {
        // What is handed to the channel: the source, with the flags that
        // the caller's handle shares.
        let (sound, handle) = Sound::new(source);
        let delivered = send(&self.0, sound);

        outcome(delivered, handle)
    }

    /// Another handle to the same mixer.
    pub fn duplicate(&self) -> Self {
        MixerHandle(another(&self.0))
    }
}

impl<S: Source> Sound<S> {
    /// Makes a sound of `source`: the sound that goes to the mixer, and the
    /// caller's handle of it. The two share their flags, of which `running`
    /// is set and `stop` is not.
    pub fn new(source: S) -> (r: (Self, SoundHandle))
        requires
            source.wf(),
        ensures
            r.0.source() == source,
            r.0.handle() == r.1,
    {
        let arc = Arc::new(
            SoundInfo { running: AtomicBool::new(true), stop: AtomicBool::new(false) },
        );
        let handle = SoundHandle(share(&arc));
        (Sound { source, handle: SoundHandle(arc) }, handle)
    }
}

/// A simple additive mixer: a [`Source`] whose samples are the sums of the
/// samples of its sounds.
#[verifier::reject_recursive_types(S)]
pub struct Mixer<S: Source, A> {
    channels: ChannelCount,
    sample_rate: SampleRate,
    sources: Vec<S>,
    infos: Vec<SoundHandle>,
    input_buffer: Vec<Sample>,
    receiver: Receiver<Sound<S>>,
    add: A,
    log: Ghost<Seq<Sample>>,
    trace: Ghost<Seq<Call>>,
    pulls: Ghost<Seq<Mixed<S>>>,
    arrived: Ghost<Seq<Sound<S>>>,
    stops: Ghost<Seq<bool>>,
}

impl<S: Source, A: Fn(Sample, Sample) -> Sample> Mixer<S, A> {
    pub closed spec fn spec_channels(&self) -> ChannelCount {
        self.channels
    }

    pub closed spec fn spec_rate(&self) -> SampleRate {
        self.sample_rate
    }

    /// The function that adds two samples.
    pub closed spec fn adder(&self) -> A {
        self.add
    }

    /// The sources that the mixer is playing, in the order in which they came.
    pub closed spec fn sounds(&self) -> Seq<S> {
        self.sources@
    }

    /// The handles of the sounds that the mixer is playing, in the same order.
    pub closed spec fn handles(&self) -> Seq<SoundHandle> {
        self.infos@
    }

    pub closed spec fn consistent(&self) -> bool {
        &&& self.infos@.len() == self.sources@.len()
        &&& forall|j: int| 0 <= j < self.sources@.len() ==> (#[trigger] self.sources@[j]).wf()
    }

    /// The pulls of the last mix, in their order.
    pub closed spec fn last_mix(&self) -> Seq<Mixed<S>> {
        self.pulls@
    }

    /// The sounds that came through the handle before the last mix, in the
    /// order in which they were sent.
    pub closed spec fn last_arrived(&self) -> Seq<Sound<S>> {
        self.arrived@
    }

    /// What the stop flags of the sounds read as in the last mix, in the
    /// order of the sounds.
    pub closed spec fn last_stops(&self) -> Seq<bool> {
        self.stops@
    }

    pub closed spec fn spec_calls(&self) -> Seq<Call> {
        self.trace@
    }

    pub closed spec fn history(&self) -> Seq<Sample> {
        self.log@
    }

    /// Constructs a new Mixer and MixerHandle.
    ///
    /// `Mixer` does not make any changes to the channel count or sample rate
    /// of its sources. As such, it needs to know its expected output rate and
    /// channel count on construction.
    ///
    /// If sources with a different sample rate or channel count than this are
    /// subsequently added to the mixer, they will sound wrong. For resampling
    /// and rechanneling, see `Resampler` and `Rechanneler`.
    pub fn new(sample_rate: SampleRate, channels: ChannelCount, add: A) -> (r: (Self, MixerHandle<S>))
        requires
            forall|a: Sample, b: Sample| #[trigger] call_requires(add, (a, b)),
        ensures
            r.0.wf(),
            r.0.rate() == sample_rate,
            r.0.channels() == channels,
            r.0.adder() == add,
            r.0.sounds() == Seq::<S>::empty(),
            r.0.handles() == Seq::<SoundHandle>::empty(),
            r.0.emitted() == Seq::<Sample>::empty(),
            r.0.calls() == Seq::<Call>::empty(),
    {
        let (sender, receiver) = channel();
        let mixer = Mixer {
            channels,
            sample_rate,
            sources: Vec::with_capacity(INIT_CAPACITY),
            infos: Vec::with_capacity(INIT_CAPACITY),
            input_buffer: Vec::new(),
            receiver,
            add,
            log: Ghost(Seq::empty()),
            trace: Ghost(Seq::empty()),
            pulls: Ghost(Seq::empty()),
            arrived: Ghost(Seq::empty()),
            stops: Ghost(Seq::empty()),
        };
        (mixer, MixerHandle(sender))
    }
}

impl<S: Source, A: Fn(Sample, Sample) -> Sample> Mixer<S, A> {
    /// Takes in the sounds that have arrived, behind those that the mixer is
    /// playing and in the order in which they arrived.
    pub fn take_in(&mut self, arrived: Vec<Sound<S>>)
        requires
            old(self).wf(),
        ensures
            final(self).wf(),
            final(self).channels() == old(self).channels(),
            final(self).rate() == old(self).rate(),
            final(self).adder() == old(self).adder(),
            final(self).emitted() == old(self).emitted(),
            final(self).calls() == old(self).calls(),
            final(self).sounds() == old(self).sounds() + sources_of(arrived@),
            final(self).handles() == old(self).handles() + handles_of(arrived@),
    {
        let mut arrived = arrived;
        let ghost sent = arrived@;
        let ghost total = sent.len();
        let mut latest_first: Vec<Sound<S>> = Vec::new();
        while arrived.len() > 0
            invariant
                total == sent.len(),
                arrived@.len() + latest_first@.len() == total,
                arrived@ == sent.take(arrived@.len() as int),
                forall|j: int|
                    0 <= j < latest_first@.len() ==> #[trigger] latest_first@[j] == sent[total - 1
                        - j],
            decreases arrived@.len(),
        {
            let ghost waiting = arrived@;
            let ghost turned = latest_first@;
            if let Some(sound) = arrived.pop() {
                latest_first.push(sound);
                proof {
                    assert(sound == sent[waiting.len() - 1]);
                    assert(arrived@ =~= sent.take(waiting.len() - 1));
                    assert forall|j: int| 0 <= j < latest_first@.len() implies #[trigger] latest_first@[j]
                        == sent[total - 1 - j] by {
                        if j < turned.len() {
                            assert(latest_first@[j] == turned[j]);
                        }
                    }
                }
            }
        }
        let ghost playing = self.sources@;
        let ghost held = self.infos@;
        proof {
            assert(self.sources@ =~= playing + sources_of(sent.take(0)));
            assert(self.infos@ =~= held + handles_of(sent.take(0)));
        }
        while latest_first.len() > 0
            invariant
                self.add == old(self).add,
                self.channels == old(self).channels,
                self.sample_rate == old(self).sample_rate,
                self.log == old(self).log,
                self.trace == old(self).trace,
                self.consistent(),
                latest_first@.len() <= total == sent.len(),
                forall|j: int|
                    0 <= j < latest_first@.len() ==> #[trigger] latest_first@[j] == sent[total - 1
                        - j],
                self.sources@ == playing + sources_of(sent.take(total - latest_first@.len())),
                self.infos@ == held + handles_of(sent.take(total - latest_first@.len())),
            decreases latest_first@.len(),
        {
            let ghost taken = total - latest_first@.len();
            if let Some(sound) = latest_first.pop() {
                proof {
                    use_type_invariant(&sound);
                    assert(sound == sent[taken]);
                }
                self.sources.push(sound.source);
                self.infos.push(sound.handle);
                proof {
                    assert(sent.take(taken + 1) =~= sent.take(taken).push(sent[taken]));
                    assert(self.sources@ =~= playing + sources_of(sent.take(taken + 1)));
                    assert(self.infos@ =~= held + handles_of(sent.take(taken + 1)));
                }
            }
        }
        proof {
            assert(sent.take(total as int) =~= sent);
            assert(self.adder() == old(self).adder());
        }
    }

    /// Mixes sound `i` into the buffer, unless its stop was asked for, and
    /// says whether the sound stays.
    ///
    /// A sound that is not stopped is pulled once, for a buffer as long as
    /// `buffer`, and each sample that it wrote is added to the sample of
    /// `buffer` at the same place. It stays if it filled its buffer.
    pub fn mix_sound(&mut self, i: usize, stop: bool, buffer: &mut [Sample]) -> (stay: bool)
        requires
            old(self).wf(),
            i < old(self).sounds().len(),
        ensures
            final(self).wf(),
            final(self).channels() == old(self).channels(),
            final(self).rate() == old(self).rate(),
            final(self).adder() == old(self).adder(),
            final(self).emitted() == old(self).emitted(),
            final(self).calls() == old(self).calls(),
            final(self).last_mix() == old(self).last_mix(),
            final(self).last_arrived() == old(self).last_arrived(),
            final(self).last_stops() == old(self).last_stops(),
            final(buffer)@.len() == old(buffer)@.len(),
            final(self).sounds().len() == old(self).sounds().len(),
            final(self).handles() == old(self).handles(),
            forall|j: int|
                0 <= j < old(self).sounds().len() && j != i ==> #[trigger] final(self).sounds()[j]
                    == old(self).sounds()[j],
            stop ==> !stay && final(buffer)@ == old(buffer)@ && final(self).sounds() == old(self).sounds(),
            !stop ==> {
                let pull = Mixed {
                    before: old(self).sounds()[i as int],
                    after: final(self).sounds()[i as int],
                    handle: old(self).handles()[i as int],
                };
                &&& pull.after.calls() == pull.before.calls().push(Call::Pull(old(buffer)@.len()))
                &&& foreknown(pull.before, pull.after, old(buffer)@.len())
                &&& pull.before.emitted().is_prefix_of(pull.after.emitted())
                &&& pull.chunk().len() <= old(buffer)@.len()
                &&& stay <==> pull.chunk().len() == old(buffer)@.len()
                &&& forall|k: int|
                    0 <= k < pull.chunk().len() ==> call_ensures(
                        old(self).adder(),
                        (old(buffer)@[k], pull.chunk()[k]),
                        #[trigger] final(buffer)@[k],
                    )
                &&& forall|k: int|
                    pull.chunk().len() <= k < old(buffer)@.len() ==> #[trigger] final(buffer)@[k]
                        == old(buffer)@[k]
            },
    {
        if stop {
            return false;
        }
        let len: usize = buffer.len();
        self.input_buffer.resize(len, SILENCE);
        let ghost before = self.sources@;
        let ghost earlier = self.sources@[i as int].emitted();
        let count: usize = self.sources[i].write_samples(&mut self.input_buffer);
        let ghost chunk = self.input_buffer@.take(count as int);
        proof {
            assert(self.adder() == self.add);
            assert(self.sources@[i as int].emitted().skip(earlier.len() as int) =~= chunk);
            if before[i as int].upcoming() is Some {
                assert(chunk =~= first_of(before[i as int].upcoming().unwrap(), len as nat));
            }
        }
        let mut k: usize = 0;
        while k < count
            invariant
                k <= count <= len,
                len == buffer@.len(),
                len == old(buffer)@.len(),
                count <= self.input_buffer.len(),
                chunk == self.input_buffer@.take(count as int),
                self.add == old(self).adder(),
                forall|a: Sample, b: Sample| #[trigger] call_requires(self.add, (a, b)),
                forall|j: int|
                    0 <= j < k ==> call_ensures(
                        self.add,
                        (old(buffer)@[j], chunk[j]),
                        #[trigger] buffer@[j],
                    ),
                forall|j: int| k <= j < len ==> #[trigger] buffer@[j] == old(buffer)@[j],
            decreases count - k,
        {
            let in_sample: Sample = self.input_buffer[k];
            let out_sample: Sample = buffer[k];
            buffer[k] = (self.add)(out_sample, in_sample);
            k += 1;
        }
        proof {
            assert(self.adder() == old(self).adder());
        }
        count == len
    }
}

impl<S: Source, A: Fn(Sample, Sample) -> Sample> Source for Mixer<S, A> {
    open spec fn wf(&self) -> bool {
        &&& self.consistent()
        &&& forall|a: Sample, b: Sample| #[trigger] call_requires(self.adder(), (a, b))
    }

    open spec fn channels(&self) -> ChannelCount {
        self.spec_channels()
    }

    open spec fn rate(&self) -> SampleRate {
        self.spec_rate()
    }

    open spec fn emitted(&self) -> Seq<Sample> {
        self.history()
    }

    /// A mixer never ends: without sounds it plays silence.
    open spec fn ended(&self) -> bool {
        false
    }

    open spec fn empty(&self) -> bool {
        false
    }

    open spec fn calls(&self) -> Seq<Call> {
        self.spec_calls()
    }

    fn channel_count(&self) -> (c: ChannelCount) {
        self.channels
    }

    fn sample_rate(&self) -> (r: SampleRate) {
        self.sample_rate
    }

    /// Fills the whole buffer with the sums of what the sounds write.
    ///
    /// The sounds that have come through the handle since the last call,
    /// `last_arrived()`, are taken in first. Then the stop flag of each sound
    /// is read, which gives `last_stops()`, and each sound that is not
    /// stopped is pulled as [`Mixer::mix_sound`] says: these pulls are
    /// `last_mix()`. Sample `k` of the buffer is the sum, from silence, of
    /// the samples `k` of the chunks that reach that far, in the order of
    /// the pulls. The sounds that stay are those that filled their buffer,
    /// each with its own handle.
    fn write_samples(&mut self, buffer: &mut [Sample]) -> (n: usize)
        ensures
            n == old(buffer)@.len(),
            final(self).adder() == old(self).adder(),
            final(self).last_stops().len() == old(self).sounds().len() + final(self).last_arrived().len(),
            befores(final(self).last_mix()) == unstopped(
                old(self).sounds() + sources_of(final(self).last_arrived()),
                final(self).last_stops(),
            ),
            handles_in(final(self).last_mix()) == unstopped(
                old(self).handles() + handles_of(final(self).last_arrived()),
                final(self).last_stops(),
            ),
            final(self).sounds() == kept(final(self).last_mix(), old(buffer)@.len()),
            final(self).handles() == kept_handles(final(self).last_mix(), old(buffer)@.len()),
            forall|j: int|
                0 <= j < final(self).last_mix().len() ==> {
                    let pull = #[trigger] final(self).last_mix()[j];
                    &&& pull.after.calls() == pull.before.calls().push(
                        Call::Pull(old(buffer)@.len()),
                    )
                    &&& foreknown(pull.before, pull.after, old(buffer)@.len())
                    &&& pull.before.emitted().is_prefix_of(pull.after.emitted())
                    &&& pull.chunk().len() <= old(buffer)@.len()
                },
            forall|k: int|
                0 <= k < old(buffer)@.len() ==> sums(
                    old(self).adder(),
                    column(chunks_of(final(self).last_mix()), k),
                    #[trigger] final(buffer)@[k],
                ),
    {
        let len: usize = buffer.len();
        proof {
            assert(self.adder() == self.add);
        }
        let mut z: usize = 0;
        while z < len
            invariant
                z <= len == buffer@.len(),
                forall|k: int| 0 <= k < z ==> #[trigger] buffer@[k] == SILENCE,
            decreases len - z,
        {
            buffer[z] = SILENCE;
            z += 1;
        }

        // Check for new sources...
        let arrived: Vec<Sound<S>> = pending(&self.receiver);
        let ghost came = arrived@;
        self.take_in(arrived);

        let ghost all = self.sources@;
        let ghost all_handles = self.infos@;
        let ghost mut pulls: Seq<Mixed<S>> = Seq::empty();
        let ghost mut stops: Seq<bool> = Seq::empty();
        let ghost mut p: int = 0;
        proof {
            assert(chunks_of(pulls) =~= Seq::<Seq<Sample>>::empty());
            assert(self.sources@.take(0) =~= kept(pulls, len as nat));
            assert(befores(pulls) =~= unstopped(all.take(0), stops));
            assert(self.sources@.skip(0) =~= all.skip(0));
            assert(self.infos@.take(0) =~= kept_handles(pulls, len as nat));
            assert(handles_in(pulls) =~= unstopped(all_handles.take(0), stops));
            assert(self.infos@.skip(0) =~= all_handles.skip(0));
            assert(self.adder() == self.add);
        }
        let mut i: usize = 0;
        while i < self.sources.len()
            invariant
                self.wf(),
                self.add == old(self).add,
                self.channels == old(self).channels,
                self.sample_rate == old(self).sample_rate,
                self.log == old(self).log,
                self.trace == old(self).trace,
                i <= self.sources@.len(),
                len == buffer@.len(),
                len == old(buffer)@.len(),
                0 <= p <= all.len(),
                stops.len() == p,
                self.sources@.skip(i as int) == all.skip(p),
                self.sources@.take(i as int) == kept(pulls, len as nat),
                befores(pulls) == unstopped(all.take(p), stops),
                all_handles.len() == all.len(),
                self.infos@.skip(i as int) == all_handles.skip(p),
                self.infos@.take(i as int) == kept_handles(pulls, len as nat),
                handles_in(pulls) == unstopped(all_handles.take(p), stops),
                forall|j: int|
                    0 <= j < pulls.len() ==> {
                        let pull = #[trigger] pulls[j];
                        &&& pull.after.calls() == pull.before.calls().push(Call::Pull(len as nat))
                        &&& foreknown(pull.before, pull.after, len as nat)
                        &&& pull.before.emitted().is_prefix_of(pull.after.emitted())
                        &&& pull.chunk().len() <= len
                    },
                forall|k: int|
                    0 <= k < len ==> sums(
                        self.add,
                        column(chunks_of(pulls), k),
                        #[trigger] buffer@[k],
                    ),
            decreases self.sources@.len() - i,
        {
            let ghost listed = self.sources@;
            let ghost held = self.infos@;
            let ghost mixed = buffer@;
            let ghost sound = self.sources@[i as int];
            let ghost handle = self.infos@[i as int];
            proof {
                assert(self.sources@.skip(i as int).len() == all.skip(p).len());
                assert(p < all.len());
                assert(self.sources@.skip(i as int)[0] == all.skip(p)[0]);
                assert(sound == all[p]);
                assert(self.infos@.skip(i as int)[0] == all_handles.skip(p)[0]);
                assert(handle == all_handles[p]);
                assert(self.adder() == self.add);
            }
            let stop: bool = stop_requested(&self.infos[i]);
            let stay: bool = self.mix_sound(i, stop, buffer);
            set_running(&self.infos[i], stay);
            proof {
                assert(self.adder() == self.add);
                assert(self.sources@.take(i as int) =~= listed.take(i as int));
                assert(self.sources@.skip(i + 1) =~= listed.skip(i + 1));
                assert(listed.skip(i + 1) =~= listed.skip(i as int).skip(1));
                assert(all.skip(p + 1) =~= all.skip(p).skip(1));
                assert(listed.skip(i + 1) =~= all.skip(p + 1));
                assert(all.take(p + 1).drop_last() =~= all.take(p));
                assert(self.infos@ == held);
                assert(held.skip(i + 1) =~= held.skip(i as int).skip(1));
                assert(all_handles.skip(p + 1) =~= all_handles.skip(p).skip(1));
                assert(held.skip(i + 1) =~= all_handles.skip(p + 1));
                assert(all_handles.take(p + 1).drop_last() =~= all_handles.take(p));
                assert(stops.push(stop).drop_last() =~= stops);
                if !stop {
                    let pull = Mixed { before: sound, after: self.sources@[i as int], handle };
                    let chunk = pull.chunk();
                    let longer = pulls.push(pull);
                    assert(longer.drop_last() =~= pulls);
                    assert(chunks_of(longer) =~= chunks_of(pulls).push(chunk));
                    assert(chunks_of(longer).drop_last() =~= chunks_of(pulls));
                    assert(befores(longer) =~= befores(pulls).push(sound));
                    assert(handles_in(longer) =~= handles_in(pulls).push(handle));
                    if stay {
                        assert(self.sources@.take(i + 1) =~= self.sources@.take(i as int).push(
                            pull.after,
                        ));
                        assert(held.take(i + 1) =~= held.take(i as int).push(handle));
                    }
                    assert forall|k: int| 0 <= k < len implies sums(
                        self.add,
                        column(chunks_of(longer), k),
                        #[trigger] buffer@[k],
                    ) by {
                        if k < chunk.len() {
                            lemma_sums_one_more(
                                self.add,
                                column(chunks_of(pulls), k),
                                mixed[k],
                                chunk[k],
                                buffer@[k],
                            );
                        }
                    }
                    pulls = longer;
                }
                stops = stops.push(stop);
                p = p + 1;
            }
            if stay {
                i += 1;
            } else {
                let ghost pulled = self.sources@;
                let _gone = self.sources.remove(i);
                let _info = self.infos.remove(i);
                proof {
                    assert(self.sources@.take(i as int) =~= pulled.take(i as int));
                    assert(self.sources@.skip(i as int) =~= pulled.skip(i + 1));
                    assert(self.infos@.take(i as int) =~= held.take(i as int));
                    assert(self.infos@.skip(i as int) =~= held.skip(i + 1));
                    assert(self.adder() == self.add);
                }
            }
        }
        proof {
            assert(self.sources@.take(i as int) =~= self.sources@);
            assert(self.infos@.take(i as int) =~= self.infos@);
            assert(all.skip(p).len() == 0);
            assert(all.take(p) =~= all);
            assert(all_handles.take(p) =~= all_handles);
            self.pulls = Ghost(pulls);
            self.arrived = Ghost(came);
            self.stops = Ghost(stops);
            self.log = Ghost(self.log@ + buffer@.take(len as int));
            self.trace = Ghost(self.trace@.push(Call::Pull(len as nat)));
            assert(buffer@.skip(len as int) =~= old(buffer)@.skip(len as int));
            assert(self.adder() == old(self).adder());
        }
        len
    }

    /// Resets every sound that the mixer is playing.
    fn reset(&mut self)
        ensures
            final(self).adder() == old(self).adder(),
            final(self).sounds().len() == old(self).sounds().len(),
            final(self).handles() == old(self).handles(),
            forall|j: int|
                0 <= j < old(self).sounds().len() ==> (#[trigger] final(self).sounds()[j]).calls()
                    == old(self).sounds()[j].calls().push(Call::Reset),
    {
        let mut i: usize = 0;
        while i < self.sources.len()
            invariant
                self.add == old(self).add,
                self.channels == old(self).channels,
                self.sample_rate == old(self).sample_rate,
                self.log == old(self).log,
                self.trace == old(self).trace,
                self.sources@.len() == old(self).sources@.len(),
                self.infos == old(self).infos,
                i <= self.sources@.len(),
                self.consistent(),
                forall|j: int|
                    0 <= j < i ==> (#[trigger] self.sources@[j]).calls()
                        == old(self).sources@[j].calls().push(Call::Reset),
                forall|j: int|
                    i <= j < self.sources@.len() ==> #[trigger] self.sources@[j] == old(self).sources@[j],
            decreases self.sources@.len() - i,
        {
            self.sources[i].reset();
            i += 1;
        }
        proof {
            self.trace = Ghost(self.trace@.push(Call::Reset));
            assert(self.adder() == old(self).adder());
        }
    }
}

/// Mixing is linear: where the last mix pulled two sounds, each sample is
/// the second sound's sample added to the first sound's sample added to
/// silence, as far as both chunks reach.
pub proof fn lemma_mix_of_two<A: Fn(Sample, Sample) -> Sample>(
    add: A,
    first: Seq<Sample>,
    second: Seq<Sample>,
    k: int,
    mixed: Sample,
)
    requires
        0 <= k < first.len(),
        k < second.len(),
        sums(add, column(seq![first, second], k), mixed),
    ensures
        exists|partial: Sample|
            #![trigger call_ensures(add, (partial, second[k]), mixed)]
            call_ensures(add, (SILENCE, first[k]), partial) && call_ensures(
                add,
                (partial, second[k]),
                mixed,
            ),
{
    let both = seq![first, second];
    let one = seq![first];
    reveal_with_fuel(column, 3);
    reveal_with_fuel(sums, 3);
    assert(both.drop_last() =~= one);
    assert(one.drop_last() =~= Seq::<Seq<Sample>>::empty());
    let terms = column(both, k);
    assert(terms =~= seq![first[k], second[k]]);
    assert(terms.drop_last() =~= seq![first[k]]);
    assert(seq![first[k]].drop_last() =~= Seq::<Sample>::empty());
}

} // verus!
