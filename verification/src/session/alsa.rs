//! What playback through ALSA decides.
//!
//! The calls into ALSA are not made here. This module holds the sizes that a
//! device is opened with, and keeps track of which part of the buffer the
//! blocking write has still to be given.

use vstd::prelude::*;

verus! {

/// The size of the device's buffer, in frames.
pub const BUFFER_FRAMES: usize = 256;

/// The size of one period, in frames: a quarter of the buffer.
pub const PERIOD_FRAMES: usize = 64;

/// The rate that is asked of the device.
pub const REQUESTED_RATE: u32 = 48000;

/// What the caller has to do after a write.
#[derive(Clone, Copy, Debug, PartialEq, Eq, Structural)]
pub enum WriteAction {
    /// The device took only a part: write what is pending now.
    Retry,
    /// The device took all of a full buffer: pull the next buffer from the source.
    Refill,
    /// The device took all of the last buffer: let it play out.
    Drain,
}

/// Which part of the buffer has still to be written to the device.
#[derive(Clone, Copy, Debug)]
pub struct WriteCursor {
    channels: usize,
    len: usize,
    start: usize,
    end: usize,
}

impl WriteCursor {
    /// The number of channels.
    pub closed spec fn channels(&self) -> nat {
        self.channels as nat
    }

    /// The length of the buffer, in samples.
    pub closed spec fn len(&self) -> nat {
        self.len as nat
    }

    /// The samples that are pending: from the first to the second, which is
    /// where the source's samples end.
    pub closed spec fn pending(&self) -> (nat, nat) {
        (self.start as nat, self.end as nat)
    }

    /// The validity of the cursor: what is pending lies in the buffer.
    pub closed spec fn wf(&self) -> bool {
        self.start <= self.end <= self.len
    }

    /// The cursor of a buffer of `len` samples of `channels` channels into
    /// which the source wrote `written` samples.
    pub fn new(channels: usize, len: usize, written: usize) -> (cursor: Self)
        requires
            written <= len,
        ensures
            cursor.wf(),
            cursor.channels() == channels,
            cursor.len() == len,
            cursor.pending() == (0nat, written as nat),
    {
        WriteCursor { channels, len, start: 0, end: written }
    }

    /// The range of the buffer to write next.
    pub fn range(&self) -> (r: (usize, usize))
        requires
            self.wf(),
        ensures
            (r.0 as nat, r.1 as nat) == self.pending(),
            r.0 <= r.1 <= self.len(),
    {
        (self.start, self.end)
    }

    /// Takes note of a buffer that the source has filled anew with `written` samples.
    pub fn refilled(&mut self, written: usize)
        requires
            old(self).wf(),
            written <= old(self).len(),
        ensures
            final(self).wf(),
            final(self).channels() == old(self).channels(),
            final(self).len() == old(self).len(),
            final(self).pending() == (0nat, written as nat),
    {
        self.start = 0;
        self.end = written;
    }

    /// Takes note of a write that took `frames` frames, and says what to do
    /// next.
    ///
    /// Where the device took all that was pending, the next buffer is due if
    /// this one was full, and the end of the playback if it was not. Where
    /// it took less, what is pending next begins behind the samples that it
    /// took, so that every sample reaches the device once and in order.
    pub fn written(&mut self, frames: usize) -> (action: WriteAction)
        requires
            old(self).wf(),
            frames * old(self).channels() <= old(self).pending().1 - old(self).pending().0,
        ensures
            final(self).wf(),
            final(self).channels() == old(self).channels(),
            final(self).len() == old(self).len(),
            action == if frames * old(self).channels() < old(self).pending().1 - old(self).pending().0 {
                WriteAction::Retry
            } else if old(self).pending().1 == old(self).len() {
                WriteAction::Refill
            } else {
                WriteAction::Drain
            },
            final(self).pending() == if action == WriteAction::Retry {
                (
                    (old(self).pending().0 + frames * old(self).channels()) as nat,
                    old(self).pending().1,
                )
            } else {
                old(self).pending()
            },
    {
        let taken: usize = frames * self.channels;
        if taken == self.end - self.start {
            if self.end != self.len {
                WriteAction::Drain
            } else {
                WriteAction::Refill
            }
        } else {
            // "The returned number of frames can be less only if a signal or underrun occurred." - alsa docs
            self.start = self.start + taken;
            WriteAction::Retry
        }
    }
}

} // verus!
