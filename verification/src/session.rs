//! Sessions, devices and output streams.
//!
//! A [`Session`] stands for a native audio API, a [`Device`] for one of its
//! endpoints, and an [`OutputStream`] for a playback stream on a device. The
//! library itself holds the dummy API, which plays nothing. For the native
//! APIs it holds what their playback loops decide; the calls into them are
//! left to the caller.

use crate::error::Error;
use crate::source::{foreknown, Call, ChannelCount, Sample, SampleRate, Source, SILENCE};
use vstd::prelude::*;

pub mod alsa;
pub mod sio;
pub mod wasapi;

verus! {

/// Represents a native API to create [`Session`] instances in.
#[derive(Copy, Clone, Debug, Eq, PartialEq, Structural)]
pub enum Api {
    /// Dummy API (no sound is played)
    Dummy,
    /// andrewrk's libsoundio
    SoundIo,
    /// Windows Audio Session API (WASAPI)
    Wasapi,
    /// ALSA
    Alsa,
}

/// How a device wants its samples.
#[derive(Copy, Clone, Debug, Eq, PartialEq, Structural)]
pub enum SampleFormat {
    /// Signed 16-bit integer PCM
    I16,
    /// IEEE 754 32-bit float PCM
    F32,
}

/// Handle to an audio output device.
///
/// To acquire a [`Device`], request one from a [`Session`].
pub struct Device {
    channels: ChannelCount,
    rate: SampleRate,
}

/// Handle to an audio output stream.
pub struct OutputStream {
    device: Device,
}

/// Represents an audio session within a native API.
pub struct Session {
    api: Api,
}

impl Device {
    pub closed spec fn spec_channels(&self) -> ChannelCount {
        self.channels
    }

    pub closed spec fn spec_rate(&self) -> SampleRate {
        self.rate
    }

    /// The channel count of the device's mix format.
    pub fn channel_count(&self) -> (c: ChannelCount)
        ensures
            c == self.spec_channels(),
    {
        self.channels
    }

    /// The sample rate of the device's mix format.
    pub fn sample_rate(&self) -> (r: SampleRate)
        ensures
            r == self.spec_rate(),
    {
        self.rate
    }
}

impl Session {
    /// The API that the session was made in.
    pub closed spec fn api(&self) -> Api {
        self.api
    }

    /// Creates an audio `Session` within the given API: the dummy API is
    /// always there, and no other is.
    pub fn new(backend: Api) -> (r: Result<Self, Error>)
        ensures
            backend == Api::Dummy <==> r is Ok,
            r matches Ok(session) ==> session.api() == backend,
            r matches Err(e) ==> e == Error::ApiNotAvailable,
    {
        match backend {
            Api::Dummy => Ok(Session { api: backend }),
            _ => Err(Error::ApiNotAvailable),
        }
    }

    /// The device that plays by default: for the dummy API, a stereo device
    /// at 48 kHz.
    pub fn default_output_device(&self) -> (r: Result<Device, Error>)
        ensures
            r matches Ok(device) && device.spec_channels().value() == 2
                && device.spec_rate().value() == 48000,
    {
        let rate = SampleRate::new(crate::source::consts::SR_48000).unwrap();
        Ok(Device { channels: ChannelCount::stereo(), rate })
    }

    /// Opens a stream on the device.
    pub fn open_output_stream(&self, device: Device) -> (r: Result<OutputStream, Error>)
        ensures
            r matches Ok(stream) && stream.device() == device,
    {
        Ok(OutputStream { device })
    }
}

impl OutputStream {
    /// The device that the stream plays on.
    pub closed spec fn device(&self) -> Device {
        self.device
    }

    /// Plays the source to its end. The dummy API discards the source,
    /// without a call to it, and reports success at once.
    pub fn play<S: Source>(&self, source: S) -> (r: Result<(), Error>)
        ensures
            r is Ok,
    {
        let _discarded = source;
        Ok(())
    }
}

/// Pulls one buffer from the source and fills with silence what the source
/// left of it. The result is how many samples came from the source; where
/// the source knows what it will emit, they are the beginning of that.
pub fn write_source<S: Source>(source: &mut S, buffer: &mut [Sample]) -> (count: usize)
    requires
        old(source).wf(),
    ensures
        final(source).wf(),
        final(source).channels() == old(source).channels(),
        final(source).rate() == old(source).rate(),
        count <= old(buffer)@.len(),
        final(buffer)@.len() == old(buffer)@.len(),
        final(source).emitted() == old(source).emitted() + final(buffer)@.take(count as int),
        final(source).calls() == old(source).calls().push(Call::Pull(old(buffer)@.len())),
        foreknown(*old(source), *final(source), old(buffer)@.len()),
        forall|i: int| count <= i < final(buffer)@.len() ==> #[trigger] final(buffer)@[i] == SILENCE,
        old(source).ended() ==> count == 0,
        count < old(buffer)@.len() && old(buffer)@.len() % old(source).channels().value() == 0
            ==> final(source).ended(),
{
    let len: usize = buffer.len();
    let ghost before = *source;
    let count: usize = source.write_samples(buffer);
    let ghost pulled = buffer@;
    proof {
        if before.upcoming() is Some {
            let samples = before.upcoming().unwrap();
            assert(pulled.take(count as int) =~= crate::source::first_of(samples, len as nat));
        }
    }
    let mut i: usize = count;
    while i < len
        invariant
            count <= i <= len == buffer@.len(),
            buffer@.take(count as int) == pulled.take(count as int),
            forall|k: int| count <= k < i ==> #[trigger] buffer@[k] == SILENCE,
        decreases len - i,
    {
        let ghost before = buffer@;
        buffer[i] = SILENCE;
        proof {
            assert(buffer@.take(count as int) =~= before.take(count as int));
        }
        i += 1;
    }
    count
}

} // verus!
