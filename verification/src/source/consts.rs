//! Common channel counts and sample rates.
//!
//! Every constant here is nonzero, so [`ChannelCount::new`](super::ChannelCount::new)
//! and [`SampleRate::new`](super::SampleRate::new) accept it.

use vstd::prelude::*;

verus! {

/// One channel ("mono")
pub const CH_MONO: u16 = 1;

/// Two channels ("stereo")
pub const CH_STEREO: u16 = 2;

/// 8,000Hz
pub const SR_8000: u32 = 8000;

/// 11,025Hz
pub const SR_11025: u32 = 11025;

/// 16,000Hz
pub const SR_16000: u32 = 16000;

/// 22,050Hz
pub const SR_22050: u32 = 22050;

/// 32,000Hz
pub const SR_32000: u32 = 32000;

/// 37,800Hz
pub const SR_37800: u32 = 37800;

/// 44,056Hz
pub const SR_44056: u32 = 44056;

/// 44,100Hz
pub const SR_44100: u32 = 44100;

/// 47,250Hz
pub const SR_47250: u32 = 47250;

/// 48,000Hz
pub const SR_48000: u32 = 48000;

/// 50,000Hz
pub const SR_50000: u32 = 50000;

/// 50,400Hz
pub const SR_50400: u32 = 50400;

/// 88,200Hz
pub const SR_88200: u32 = 88200;

/// 96,000Hz
pub const SR_96000: u32 = 96000;

/// 176,400Hz
pub const SR_176400: u32 = 176400;

/// 192,000Hz
pub const SR_192000: u32 = 192000;

/// 352,800Hz
pub const SR_352800: u32 = 352800;

/// 2,822,400Hz
pub const SR_2822400: u32 = 2822400;

/// 5,644,800Hz
pub const SR_5644800: u32 = 5644800;

} // verus!
