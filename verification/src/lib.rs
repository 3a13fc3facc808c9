//! A pull-driven audio pipeline.
//!
//! A [`Source`] produces interleaved PCM samples on request; the other nodes of
//! this crate wrap sources and transform what they produce. Samples are carried
//! as opaque 32-bit words (see [`Sample`]): the library decides which words are
//! moved where and which operands each arithmetic step receives, while the
//! arithmetic itself is handed in by the caller as a function on sample words.

pub mod buffer;
pub mod cycle;
pub mod error;
pub mod mixer;
pub mod player;
pub mod rechanneler;
pub mod resampler;
pub mod session;
pub mod source;
pub mod wav;

pub use buffer::RingBuffer;
pub use cycle::Cycle;
pub use error::Error;
pub use mixer::Mixer;
pub use player::Player;
pub use rechanneler::Rechanneler;
pub use resampler::Resampler;
pub use source::{ChannelCount, Sample, SampleRate, Source};
pub use wav::WavPlayer;
