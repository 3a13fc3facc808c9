//! What playback through the Windows Audio Session API decides.
//!
//! The calls into the API are not made here. This module reads the mix
//! format that a device reports, sorts the API's result codes into errors,
//! and holds the playback loop as a state machine: the caller performs each
//! action and hands back what came of it.

use crate::error::Error;
use crate::session::SampleFormat;
use crate::source::{ChannelCount, SampleRate};
use vstd::prelude::*;

verus! {

pub const ERROR_NOT_FOUND: u32 = 0x8007_0490;

pub const AUDCLNT_E_DEVICE_INVALIDATED: u32 = 0x8889_0004;

pub const AUDCLNT_E_UNSUPPORTED_FORMAT: u32 = 0x8889_0008;

pub const WAVE_FORMAT_PCM: u16 = 0x0001;

pub const WAVE_FORMAT_IEEE_FLOAT: u16 = 0x0003;

pub const WAVE_FORMAT_EXTENSIBLE: u16 = 0xFFFE;

#[allow(non_snake_case)]
#[derive(Clone, Copy, Debug)]
pub struct GUID {
    pub data1: u32,
    pub data2: u16,
    pub data3: u16,
    pub data4: [u8; 8],
}

#[allow(non_snake_case)]
#[derive(Clone, Copy, Debug)]
pub struct WAVEFORMATEX {
    pub wFormatTag: u16,
    pub nChannels: u16,
    pub nSamplesPerSec: u32,
    pub nAvgBytesPerSec: u32,
    pub nBlockAlign: u16,
    pub wBitsPerSample: u16,
    pub cbSize: u16,
}

#[allow(non_snake_case)]
#[derive(Clone, Copy, Debug)]
pub struct WAVEFORMATEXTENSIBLE {
    pub Format: WAVEFORMATEX,
    pub Samples: u16,
    pub dwChannelMask: u32,
    pub SubFormat: GUID,
}

/// Whether `guid` is the sub-format `tag-0000-0010-8000-00aa00389b71`.
pub open spec fn is_subtype(guid: GUID, tag: u32) -> bool {
    &&& guid.data1 == tag
    &&& guid.data2 == 0
    &&& guid.data3 == 16
    &&& guid.data4@ == seq![128u8, 0u8, 0u8, 170u8, 0u8, 56u8, 155u8, 113u8]
}

/// The sample format that a mix format stands for, if it is one that can be
/// played: 16-bit PCM or 32-bit IEEE float, tagged as such or as a sub-format
/// of the extensible format.
pub open spec fn format_of(format: WAVEFORMATEXTENSIBLE) -> Option<SampleFormat> {
    let tag = format.Format.wFormatTag;
    let bits = format.Format.wBitsPerSample;
    if tag == WAVE_FORMAT_PCM && bits == 16 {
        Some(SampleFormat::I16)
    } else if tag == WAVE_FORMAT_IEEE_FLOAT && bits == 32 {
        Some(SampleFormat::F32)
    } else if tag == WAVE_FORMAT_EXTENSIBLE && bits == 16 && is_subtype(format.SubFormat, 1) {
        Some(SampleFormat::I16)
    } else if tag == WAVE_FORMAT_EXTENSIBLE && bits == 32 && is_subtype(format.SubFormat, 3) {
        Some(SampleFormat::F32)
    } else {
        None
    }
}

fn subtype_matches(guid: &GUID, tag: u32) -> (r: bool)
    ensures
        r == is_subtype(*guid, tag),
{
    let r = guid.data1 == tag && guid.data2 == 0 && guid.data3 == 16 && guid.data4[0] == 128
        && guid.data4[1] == 0 && guid.data4[2] == 0 && guid.data4[3] == 170 && guid.data4[4] == 0
        && guid.data4[5] == 56 && guid.data4[6] == 155 && guid.data4[7] == 113;
    proof {
        if r {
            assert(guid.data4@ =~= seq![128u8, 0u8, 0u8, 170u8, 0u8, 56u8, 155u8, 113u8]);
        }
    }
    r
}

/// What a device that reports a mix format plays.
pub struct MixFormat {
    pub sample_format: SampleFormat,
    pub channels: ChannelCount,
    pub sample_rate: SampleRate,
}

/// Reads the mix format of a device. A format that cannot be played, or one
/// without channels or without a rate, makes the device unusable.
pub fn mix_format(format: &WAVEFORMATEXTENSIBLE) -> (r: Result<MixFormat, Error>)
    ensures
        r is Ok <==> format_of(*format) is Some && format.Format.nChannels != 0
            && format.Format.nSamplesPerSec != 0,
        r matches Ok(mix) ==> Some(mix.sample_format) == format_of(*format)
            && mix.channels.value() == format.Format.nChannels && mix.sample_rate.value()
            == format.Format.nSamplesPerSec,
        r matches Err(e) ==> e == Error::DeviceNotUsable,
{
    let tag: u16 = format.Format.wFormatTag;
    let bits: u16 = format.Format.wBitsPerSample;
    let sample_format = if tag == WAVE_FORMAT_PCM && bits == 16 {
        SampleFormat::I16
    } else if tag == WAVE_FORMAT_IEEE_FLOAT && bits == 32 {
        SampleFormat::F32
    } else if tag == WAVE_FORMAT_EXTENSIBLE && bits == 16 && subtype_matches(&format.SubFormat, 1) {
        SampleFormat::I16
    } else if tag == WAVE_FORMAT_EXTENSIBLE && bits == 32 && subtype_matches(&format.SubFormat, 3) {
        SampleFormat::F32
    } else {
        return Err(Error::DeviceNotUsable);
    };
    match (ChannelCount::new(format.Format.nChannels), SampleRate::new(format.Format.nSamplesPerSec)) {
        (Some(channels), Some(sample_rate)) => Ok(MixFormat { sample_format, channels, sample_rate }),
        _ => Err(Error::DeviceNotUsable),
    }
}

/// The error that a result code of the API stands for while a stream plays:
/// none for zero, a device that is gone for `AUDCLNT_E_DEVICE_INVALIDATED`,
/// and an unknown error for every other code.
pub fn read_hresult(code: u32) -> (r: Result<(), Error>)
    ensures
        code == 0 <==> r is Ok,
        r matches Err(e) ==> e == if code == AUDCLNT_E_DEVICE_INVALIDATED {
            Error::DeviceNotAvailable
        } else {
            Error::Unknown
        },
{
    if code == 0 {
        Ok(())
    } else if code == AUDCLNT_E_DEVICE_INVALIDATED {
        Err(Error::DeviceNotAvailable)
    } else {
        Err(Error::Unknown)
    }
}

/// The error that a result code stands for when the default endpoint is
/// asked for: no output device where none was found.
pub fn read_endpoint_hresult(code: u32) -> (r: Result<(), Error>)
    ensures
        code == 0 <==> r is Ok,
        r matches Err(e) ==> e == if code == ERROR_NOT_FOUND {
            Error::NoOutputDevice
        } else {
            Error::Unknown
        },
{
    if code == 0 {
        Ok(())
    } else if code == ERROR_NOT_FOUND {
        Err(Error::NoOutputDevice)
    } else {
        Err(Error::Unknown)
    }
}

/// The error that a result code stands for when the audio client is
/// initialised: an unusable device where the format is not supported.
pub fn read_initialize_hresult(code: u32) -> (r: Result<(), Error>)
    ensures
        code == 0 <==> r is Ok,
        r matches Err(e) ==> e == if code == AUDCLNT_E_DEVICE_INVALIDATED {
            Error::DeviceNotAvailable
        } else if code == AUDCLNT_E_UNSUPPORTED_FORMAT {
            Error::DeviceNotUsable
        } else {
            Error::Unknown
        },
{
    if code == 0 {
        Ok(())
    } else if code == AUDCLNT_E_DEVICE_INVALIDATED {
        Err(Error::DeviceNotAvailable)
    } else if code == AUDCLNT_E_UNSUPPORTED_FORMAT {
        Err(Error::DeviceNotUsable)
    } else {
        Err(Error::Unknown)
    }
}

/// Where a playback stands.
#[derive(Clone, Copy, Debug, PartialEq, Eq, Structural)]
pub enum Phase {
    /// Nothing has been done yet.
    Idle,
    /// The first buffer is being written.
    Priming,
    /// The device is being started, after `written` frames came from the source.
    Starting { written: u32 },
    /// The device plays; its next wake-up is awaited.
    Streaming,
    /// `frames` free frames are being written.
    Writing { frames: u32 },
    /// The source has ended; `silent` frames of silence are queued behind it,
    /// and the device's next wake-up is awaited.
    Draining { silent: u64 },
    /// Silence is being released, which brings the queued silence to `silent` frames.
    Silencing { silent: u64 },
    /// The device may be stopped: everything has played.
    Done,
}

/// What the caller has to do next.
#[derive(Clone, Copy, Debug, PartialEq, Eq, Structural)]
pub enum Action {
    /// Lock `frames` frames of the device's buffer, pull that many frames from
    /// the source, fill what it leaves with silence, and release them.
    Write { frames: u32 },
    /// Start the device.
    Start,
    /// Wait for the device's wake-up, then ask for its padding.
    Wait,
    /// Lock `frames` frames and release them as silence.
    Silence { frames: u32 },
    /// Stop and reset the device: the playback is over.
    Stop,
}

/// What came of the last action.
#[derive(Clone, Copy, Debug, PartialEq, Eq, Structural)]
pub enum Event {
    /// The playback begins.
    Begin,
    /// The frames were written; `samples` samples came from the source.
    Written { samples: usize },
    /// The device was started.
    Started,
    /// The device woke the caller up with `padding` frames still queued.
    Woken { padding: u32 },
    /// The silence was released.
    Released,
}

/// The playback loop of a stream, as a state machine.
#[derive(Clone, Copy, Debug)]
pub struct Playback {
    buffer_frame_count: u32,
    channels: ChannelCount,
    phase: Phase,
}

/// The frames that are free in a buffer of `buffer` frames of which
/// `padding` are queued.
pub open spec fn free_frames(buffer: u32, padding: u32) -> u32 {
    if padding <= buffer {
        (buffer - padding) as u32
    } else {
        0
    }
}

/// The phase and the action that follow when `silent` frames of silence are
/// queued: the device is stopped once a whole buffer of silence is.
pub open spec fn drain(buffer: u32, silent: u64) -> (Phase, Action) {
    if silent >= buffer {
        (Phase::Done, Action::Stop)
    } else {
        (Phase::Draining { silent }, Action::Wait)
    }
}

/// The phase and the action that follow `event` in `phase`, for a device
/// buffer of `buffer` frames of `channels` channels. An event that the phase
/// does not await ends the playback.
pub open spec fn transition(phase: Phase, buffer: u32, channels: nat, event: Event) -> (
    Phase,
    Action,
) {
    match (phase, event) {
        (Phase::Idle, Event::Begin) => (Phase::Priming, Action::Write { frames: buffer }),
        (Phase::Priming, Event::Written { samples }) => (
            Phase::Starting { written: frames_in(samples, channels, buffer) },
            Action::Start,
        ),
        (Phase::Starting { written }, Event::Started) => if written >= buffer {
            (Phase::Streaming, Action::Wait)
        } else {
            drain(buffer, (buffer - written) as u64)
        },
        (Phase::Streaming, Event::Woken { padding }) => if free_frames(buffer, padding) > 0 {
            (
                Phase::Writing { frames: free_frames(buffer, padding) },
                Action::Write { frames: free_frames(buffer, padding) },
            )
        } else {
            (Phase::Streaming, Action::Wait)
        },
        (Phase::Writing { frames }, Event::Written { samples }) => if frames_in(
            samples,
            channels,
            frames,
        ) < frames {
            drain(buffer, (frames - frames_in(samples, channels, frames)) as u64)
        } else {
            (Phase::Streaming, Action::Wait)
        },
        (Phase::Draining { silent }, Event::Woken { padding }) => (
            Phase::Silencing { silent: (silent + free_frames(buffer, padding)) as u64 },
            Action::Silence { frames: free_frames(buffer, padding) },
        ),
        (Phase::Silencing { silent }, Event::Released) => drain(buffer, silent),
        _ => (Phase::Done, Action::Stop),
    }
}

/// How many whole frames `samples` samples make, and no more than `asked`.
pub open spec fn frames_in(samples: usize, channels: nat, asked: u32) -> u32 {
    if samples as nat / channels >= asked {
        asked
    } else {
        (samples as nat / channels) as u32
    }
}

impl Playback {
    /// The number of frames in the device's buffer.
    pub closed spec fn buffer(&self) -> u32 {
        self.buffer_frame_count
    }

    /// The number of channels of the device.
    pub closed spec fn channels(&self) -> ChannelCount {
        self.channels
    }

    /// Where the playback stands.
    pub closed spec fn phase(&self) -> Phase {
        self.phase
    }

    /// The validity of the playback: no more silence is queued than two
    /// buffers hold.
    pub closed spec fn wf(&self) -> bool {
        match self.phase {
            Phase::Draining { silent } => silent < self.buffer_frame_count,
            Phase::Silencing { silent } => silent < 2 * self.buffer_frame_count,
            _ => true,
        }
    }

    /// A playback that has not begun, for a device buffer of
    /// `buffer_frame_count` frames.
    pub fn new(buffer_frame_count: u32, channels: ChannelCount) -> (p: Self)
        ensures
            p.wf(),
            p.buffer() == buffer_frame_count,
            p.channels() == channels,
            p.phase() == Phase::Idle,
    {
        Playback { buffer_frame_count, channels, phase: Phase::Idle }
    }

    /// Whether the playback is over.
    pub fn is_done(&self) -> (done: bool)
        ensures
            done <==> self.phase() == Phase::Done,
    {
        match self.phase {
            Phase::Done => true,
            _ => false,
        }
    }

    fn frames_written(&self, samples: usize, asked: u32) -> (frames: u32)
        ensures
            frames == frames_in(samples, self.channels.value(), asked),
    {
        let frames: usize = samples / (self.channels.get() as usize);
        if frames >= asked as usize {
            asked
        } else {
            frames as u32
        }
    }

    fn free(&self, padding: u32) -> (frames: u32)
        ensures
            frames == free_frames(self.buffer_frame_count, padding),
    {
        if padding <= self.buffer_frame_count {
            self.buffer_frame_count - padding
        } else {
            0
        }
    }

    fn drain(&mut self, silent: u64) -> (action: Action)
        ensures
            final(self).buffer() == old(self).buffer(),
            final(self).channels() == old(self).channels(),
            (final(self).phase(), action) == drain(old(self).buffer(), silent),
            silent < 2 * old(self).buffer() ==> final(self).wf(),
    {
        if silent >= self.buffer_frame_count as u64 {
            self.phase = Phase::Done;
            Action::Stop
        } else {
            self.phase = Phase::Draining { silent };
            Action::Wait
        }
    }

    /// Takes what came of the last action, moves to the next phase and says
    /// what to do next: the [`transition`] of the phase and the event.
    pub fn step(&mut self, event: Event) -> (action: Action)
        requires
            old(self).wf(),
        ensures
            final(self).wf(),
            final(self).buffer() == old(self).buffer(),
            final(self).channels() == old(self).channels(),
            (final(self).phase(), action) == transition(
                old(self).phase(),
                old(self).buffer(),
                old(self).channels().value(),
                event,
            ),
    {
        let buffer: u32 = self.buffer_frame_count;
        match (self.phase, event) {
            (Phase::Idle, Event::Begin) => {
                self.phase = Phase::Priming;
                Action::Write { frames: buffer }
            },
            (Phase::Priming, Event::Written { samples }) => {
                let written = self.frames_written(samples, buffer);
                self.phase = Phase::Starting { written };
                Action::Start
            },
            (Phase::Starting { written }, Event::Started) => {
                if written >= buffer {
                    self.phase = Phase::Streaming;
                    Action::Wait
                } else {
                    self.drain((buffer - written) as u64)
                }
            },
            (Phase::Streaming, Event::Woken { padding }) => {
                let frames = self.free(padding);
                if frames > 0 {
                    self.phase = Phase::Writing { frames };
                    Action::Write { frames }
                } else {
                    Action::Wait
                }
            },
            (Phase::Writing { frames }, Event::Written { samples }) => {
                let written = self.frames_written(samples, frames);
                if written < frames {
                    self.drain((frames - written) as u64)
                } else {
                    self.phase = Phase::Streaming;
                    Action::Wait
                }
            },
            (Phase::Draining { silent }, Event::Woken { padding }) => {
                let frames = self.free(padding);
                self.phase = Phase::Silencing { silent: silent + frames as u64 };
                Action::Silence { frames }
            },
            (Phase::Silencing { silent }, Event::Released) => self.drain(silent),
            _ => {
                self.phase = Phase::Done;
                Action::Stop
            },
        }
    }
}

/// A playback stops only behind a whole buffer of silence: from a phase in
/// which silence is queued, the device is stopped exactly when as many
/// frames of it are queued as the buffer holds.
pub proof fn lemma_stops_after_full_silence(buffer: u32, channels: nat, silent: u64)
    ensures
        transition(Phase::Silencing { silent }, buffer, channels, Event::Released).1 == Action::Stop
            <==> silent >= buffer,
{
}

} // verus!
