//! What playback through libsoundio decides.
//!
//! The calls into the library are not made here. This module picks, from
//! what a device offers, the channel layout, the sample rate and the sample
//! format to open it with, and lays out for the write callback what each
//! channel gets.

use crate::source::{Sample, SILENCE};
use vstd::prelude::*;

verus! {

/// The highest sample rate that is asked of a device.
pub const PREFERRED_RATE: i32 = 48000;

/// The number of the format of 32-bit little-endian floats.
pub const FORMAT_FLOAT32_LE: u32 = 15;

/// The number of the first format that is wider than 32 bits.
pub const FORMAT_FLOAT64_LE: u32 = 17;

/// Whether layout `j` is the one to open a device with, given the channel
/// counts of its layouts: the first stereo layout where there is one, else
/// the first of those with the most channels.
pub open spec fn is_preferred_layout(counts: Seq<i32>, j: int) -> bool {
    &&& 0 <= j < counts.len()
    &&& if counts[j] == 2 {
        forall|i: int| 0 <= i < j ==> counts[i] != 2
    } else {
        &&& forall|i: int| 0 <= i < counts.len() ==> counts[i] != 2 && counts[i] <= counts[j]
        &&& forall|i: int| 0 <= i < j ==> counts[i] < counts[j]
    }
}

/// Picks the channel layout to open a device with; none where the device
/// offers none.
pub fn choose_layout(counts: &[i32]) -> (r: Option<usize>)
    ensures
        r is None <==> counts@.len() == 0,
        r matches Some(j) ==> is_preferred_layout(counts@, j as int),
{
    let mut best: Option<usize> = None;
    let mut i: usize = 0;
    while i < counts.len()
        invariant
            i <= counts@.len(),
            best is None <==> i == 0,
            forall|k: int| 0 <= k < i ==> counts@[k] != 2,
            best matches Some(j) ==> j < i && (forall|k: int| 0 <= k < i ==> counts@[k] <= counts@[j as int])
                && (forall|k: int| 0 <= k < j ==> counts@[k] < counts@[j as int]),
        decreases counts@.len() - i,
    {
        if counts[i] == 2 {
            return Some(i);
        }
        match best {
            Some(j) => {
                if counts[j] < counts[i] {
                    best = Some(i);
                }
            },
            None => {
                best = Some(i);
            },
        }
        i += 1;
    }
    best
}

/// The rate that a range up to `max` allows, when no more than the preferred
/// rate is asked for.
pub open spec fn capped(max: i32) -> i32 {
    if max <= PREFERRED_RATE {
        max
    } else {
        PREFERRED_RATE
    }
}

/// Picks the sample rate to open a device with, given the upper ends of its
/// ranges of rates: the highest that a range allows, up to the preferred
/// rate; none where the device offers no range.
pub fn choose_sample_rate(maxima: &[i32]) -> (r: Option<i32>)
    ensures
        r is None <==> maxima@.len() == 0,
        r matches Some(rate) ==> (exists|j: int|
            0 <= j < maxima@.len() && rate == capped(#[trigger] maxima@[j])) && (forall|j: int|
            0 <= j < maxima@.len() ==> capped(#[trigger] maxima@[j]) <= rate),
{
    let mut best: Option<i32> = None;
    let mut i: usize = 0;
    while i < maxima.len()
        invariant
            i <= maxima@.len(),
            best is None <==> i == 0,
            best matches Some(rate) ==> (exists|j: int|
                0 <= j < i && rate == capped(#[trigger] maxima@[j])) && (forall|j: int|
                0 <= j < i ==> capped(#[trigger] maxima@[j]) <= rate),
        decreases maxima@.len() - i,
    {
        let max: i32 = maxima[i];
        let allowed: i32 = if max <= PREFERRED_RATE {
            max
        } else {
            PREFERRED_RATE
        };
        proof {
            assert(allowed == capped(maxima@[i as int]));
        }
        best = match best {
            Some(rate) => if rate >= allowed {
                Some(rate)
            } else {
                Some(allowed)
            },
            None => Some(allowed),
        };
        i += 1;
    }
    best
}

/// Whether `format` is the one to open a device with, given the numbers of
/// the formats it offers: the first of them where that is wider than 32
/// bits, else the highest of those that are not.
pub open spec fn is_preferred_format(formats: Seq<u32>, format: u32) -> bool {
    &&& formats.len() > 0
    &&& if formats[0] >= FORMAT_FLOAT64_LE {
        format == formats[0]
    } else {
        &&& format < FORMAT_FLOAT64_LE
        &&& exists|j: int| 0 <= j < formats.len() && format == #[trigger] formats[j]
        &&& forall|j: int|
            0 <= j < formats.len() && #[trigger] formats[j] < FORMAT_FLOAT64_LE ==> formats[j]
                <= format
    }
}

/// Picks the sample format to open a device with; none where the device
/// offers none.
pub fn choose_format(formats: &[u32]) -> (r: Option<u32>)
    ensures
        r is None <==> formats@.len() == 0,
        r matches Some(format) ==> is_preferred_format(formats@, format),
{
    if formats.len() == 0 {
        return None;
    }
    let mut best: u32 = formats[0];
    let mut i: usize = 1;
    while i < formats.len()
        invariant
            1 <= i <= formats@.len(),
            formats@[0] >= FORMAT_FLOAT64_LE ==> best == formats@[0],
            formats@[0] < FORMAT_FLOAT64_LE ==> best < FORMAT_FLOAT64_LE && (exists|j: int|
                0 <= j < i && best == #[trigger] formats@[j]) && (forall|j: int|
                0 <= j < i && #[trigger] formats@[j] < FORMAT_FLOAT64_LE ==> formats@[j] <= best),
        decreases formats@.len() - i,
    {
        let format: u32 = formats[i];
        if best < format && format < FORMAT_FLOAT64_LE {
            best = format;
        }
        i += 1;
    }
    Some(best)
}

/// What channel `channel` gets of a buffer of `frames` frames when `samples`
/// came from the source: its sample of every whole frame, then silence.
pub open spec fn channel_column(
    samples: Seq<Sample>,
    channels: nat,
    channel: nat,
    frames: nat,
) -> Seq<Sample> {
    Seq::new(
        frames,
        |i: int|
            if i < samples.len() / channels {
                samples[i * channels + channel]
            } else {
                SILENCE
            },
    )
}

/// Lays out what channel `channel` gets of a buffer of `frames` frames.
pub fn deinterleave(samples: &[Sample], channels: usize, channel: usize, frames: usize) -> (column:
    Vec<Sample>)
    requires
        channel < channels,
    ensures
        column@ == channel_column(samples@, channels as nat, channel as nat, frames as nat),
{
    let total: usize = samples.len();
    let whole: usize = total / channels;
    let ghost goal = channel_column(samples@, channels as nat, channel as nat, frames as nat);
    let mut column: Vec<Sample> = Vec::new();
    let mut i: usize = 0;
    while i < frames
        invariant
            i <= frames,
            channel < channels,
            total == samples@.len(),
            whole == samples@.len() / (channels as nat),
            goal == channel_column(samples@, channels as nat, channel as nat, frames as nat),
            column@ == goal.take(i as int),
        decreases frames - i,
    {
        let sample: Sample = if i < whole {
            proof {
                assert(0 <= i * channels && i * channels + channel < total) by (nonlinear_arith)
                    requires
                        0 <= i < whole,
                        whole == total / channels,
                        0 <= channel < channels,
                ;
            }
            samples[i * channels + channel]
        } else {
            SILENCE
        };
        column.push(sample);
        proof {
            assert(column@ =~= goal.take(i + 1));
        }
        i += 1;
    }
    proof {
        assert(goal.take(frames as int) =~= goal);
    }
    column
}

} // verus!
