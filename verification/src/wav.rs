//! A source that decodes RIFF/WAVE files held in memory.
//!
//! The file is parsed once, when the player is built. Integer samples are
//! handed, each with the full-scale value of its format, to the `normalise`
//! function that the player was built with; samples stored as 32-bit IEEE 754
//! numbers are passed on as they are.

use crate::source::{Call, ChannelCount, Sample, SampleRate, Source};
use std::sync::Arc;
use vstd::prelude::*;

verus! {

/// The chunk name `"RIFF"`, read as a little-endian integer.
pub const RIFF: u32 = 0x4646_4952;

/// The form type `"WAVE"`, read as a little-endian integer.
pub const WAVE: u32 = 0x4556_4157;

/// The chunk name `"fmt "`, read as a little-endian integer.
pub const FMT: u32 = 0x2074_6d66;

/// The chunk name `"data"`, read as a little-endian integer.
pub const DATA: u32 = 0x6174_6164;

/// Where the first chunk starts.
pub const FIRST_CHUNK: usize = 12;

#[derive(Clone, Copy, Debug, PartialEq, Eq, Structural)]
pub enum Error {
    /// This does not appear to be a .wav file
    InvalidFile,
    /// The audio data in this file is malformed
    MalformedData,
    /// The audio data in this file is encoded in a way we don't support
    UnknownFormat,
}

/// How the samples of a file are stored.
#[derive(Clone, Copy, Debug, PartialEq, Eq, Structural)]
pub enum Format {
    /// Unsigned 8-bit integers, biased by 128
    U8,
    /// Signed 16-bit integers
    I16,
    /// Signed 24-bit integers
    I24,
    /// Signed 32-bit integers
    I32,
    /// 32-bit IEEE 754 numbers
    F32,
}

/// What a file's header says.
pub struct Header {
    pub format: Format,
    pub channels: u16,
    pub sample_rate: u32,
    /// Where the body of the `data` chunk starts.
    pub data_start: nat,
    /// The declared length of the `data` chunk, in bytes.
    pub data_len: nat,
}

/// The little-endian 16-bit integer at `at`.
pub open spec fn le16(bytes: Seq<u8>, at: int) -> int {
    bytes[at] as int + 0x100 * (bytes[at + 1] as int)
}

/// The little-endian 24-bit integer at `at`.
pub open spec fn le24(bytes: Seq<u8>, at: int) -> int {
    bytes[at] as int + 0x100 * (bytes[at + 1] as int) + 0x1_0000 * (bytes[at + 2] as int)
}

/// The little-endian 32-bit integer at `at`.
pub open spec fn le32(bytes: Seq<u8>, at: int) -> int {
    bytes[at] as int + 0x100 * (bytes[at + 1] as int) + 0x1_0000 * (bytes[at + 2] as int)
        + 0x100_0000 * (bytes[at + 3] as int)
}

/// Walks the chunks from `start` and gives the first one called `name`: where
/// its body starts and the length it declares. A chunk of another name is
/// skipped by its declared length.
pub open spec fn find_chunk(bytes: Seq<u8>, name: u32, start: int) -> Option<(int, int)>
    decreases
            (if start <= bytes.len() {
                bytes.len() - start
            } else {
                0
            }),
{
    if start < 0 || bytes.len() < start + 8 {
        None
    } else if le32(bytes, start) == name {
        Some((start + 8, le32(bytes, start + 4)))
    } else {
        find_chunk(bytes, name, start + 8 + le32(bytes, start + 4))
    }
}

/// The format that an audio format tag and a sample width stand for.
pub open spec fn format_of(tag: int, bits: int) -> Option<Format> {
    if tag == 1 && bits == 8 {
        Some(Format::U8)
    } else if tag == 1 && bits == 16 {
        Some(Format::I16)
    } else if tag == 1 && bits == 24 {
        Some(Format::I24)
    } else if tag == 1 && bits == 32 {
        Some(Format::I32)
    } else if tag == 3 && bits == 32 {
        Some(Format::F32)
    } else {
        None
    }
}

/// Whether the file starts as a RIFF/WAVE file does.
pub open spec fn has_magic(bytes: Seq<u8>) -> bool {
    bytes.len() >= 12 && le32(bytes, 0) == RIFF && le32(bytes, 8) == WAVE
}

/// What the bytes of a file are read as: its header, or the reason it is refused.
pub open spec fn parse(bytes: Seq<u8>) -> Result<Header, Error> {
    if !has_magic(bytes) {
        Err(Error::InvalidFile)
    } else {
        match find_chunk(bytes, FMT, FIRST_CHUNK as int) {
            None => Err(Error::InvalidFile),
            Some((fmt_start, fmt_len)) => {
                if fmt_len < 16 || fmt_start + fmt_len > bytes.len() {
                    Err(Error::InvalidFile)
                } else if le16(bytes, fmt_start + 2) == 0 || le32(bytes, fmt_start + 4) == 0 {
                    Err(Error::UnknownFormat)
                } else {
                    match find_chunk(bytes, DATA, FIRST_CHUNK as int) {
                        None => Err(Error::InvalidFile),
                        Some((data_start, data_len)) => {
                            if data_start + data_len > bytes.len() {
                                Err(Error::MalformedData)
                            } else {
                                match format_of(le16(bytes, fmt_start), le16(bytes, fmt_start + 14)) {
                                    None => Err(Error::UnknownFormat),
                                    Some(format) => Ok(
                                        Header {
                                            format,
                                            channels: le16(bytes, fmt_start + 2) as u16,
                                            sample_rate: le32(bytes, fmt_start + 4) as u32,
                                            data_start: data_start as nat,
                                            data_len: data_len as nat,
                                        },
                                    ),
                                }
                            }
                        },
                    }
                }
            },
        }
    }
}

impl Format {
    /// How many bytes one sample takes.
    pub open spec fn width(self) -> nat {
        match self {
            Format::U8 => 1,
            Format::I16 => 2,
            Format::I24 => 3,
            Format::I32 => 4,
            Format::F32 => 4,
        }
    }

    /// The value by which the integers of this format are divided.
    pub open spec fn full_scale(self) -> int {
        match self {
            Format::U8 => 0x7f,
            Format::I16 => 0x7fff,
            Format::I24 => 0x80_0000,
            Format::I32 => 0x7fff_ffff,
            Format::F32 => 1,
        }
    }

    /// The integer stored at byte `at` of `bytes`: an 8-bit sample less its
    /// bias of 128, and a 16-bit, 24-bit or 32-bit sample in two's
    /// complement.
    pub open spec fn stored_at(self, bytes: Seq<u8>, at: int) -> int {
        match self {
            Format::U8 => bytes[at] as int - 0x80,
            Format::I16 => {
                let u = le16(bytes, at);
                if u >= 0x8000 {
                    u - 0x1_0000
                } else {
                    u
                }
            },
            Format::I24 => {
                let u = le24(bytes, at);
                if u >= 0x80_0000 {
                    u - 0x100_0000
                } else {
                    u
                }
            },
            Format::I32 | Format::F32 => {
                let u = le32(bytes, at);
                if u >= 0x8000_0000 {
                    u - 0x1_0000_0000
                } else {
                    u
                }
            },
        }
    }

    /// The integer stored as sample `index` of the samples `data`.
    pub open spec fn stored(self, data: Seq<u8>, index: int) -> int {
        self.stored_at(data, self.width() * index)
    }

    /// The number of bytes that one sample takes.
    pub fn sample_bytes(self) -> (w: usize)
        ensures
            w == self.width(),
    {
        match self {
            Format::U8 => 1,
            Format::I16 => 2,
            Format::I24 => 3,
            Format::I32 => 4,
            Format::F32 => 4,
        }
    }

    /// The value by which the integers of this format are divided.
    pub fn divisor(self) -> (d: i32)
        ensures
            d == self.full_scale(),
    {
        match self {
            Format::U8 => 0x7f,
            Format::I16 => 0x7fff,
            Format::I24 => 0x80_0000,
            Format::I32 => 0x7fff_ffff,
            Format::F32 => 1,
        }
    }
}

/// Whether `sample` is what sample `index` of `data` decodes to: the stored
/// word itself where the file holds IEEE 754 numbers, else a result of
/// `normalise` on the stored integer and the format's full scale.
pub open spec fn decodes<N: Fn(i32, i32) -> Sample>(
    normalise: N,
    format: Format,
    data: Seq<u8>,
    index: int,
    sample: Sample,
) -> bool {
    match format {
        Format::F32 => sample == le32(data, format.width() * index),
        _ => call_ensures(
            normalise,
            (format.stored(data, index) as i32, format.full_scale() as i32),
            sample,
        ),
    }
}

proof fn lemma_sample_fits(index: int, count: int, width: int, bytes: int)
    by (nonlinear_arith)
    requires
        0 <= index < count,
        0 < width,
        0 <= bytes,
        count == bytes / width,
    ensures
        0 <= width * index,
        width * index + width <= bytes,
        index * width == width * index,
{
}

fn read_u16(bytes: &Vec<u8>, at: usize) -> (v: u16)
    requires
        at + 2 <= bytes.len(),
    ensures
        v == le16(bytes@, at as int),
{
    let low: u16 = bytes[at] as u16;
    let high: u16 = bytes[at + 1] as u16;
    low + 0x100 * high
}

fn read_u32(bytes: &Vec<u8>, at: usize) -> (v: u32)
    requires
        at + 4 <= bytes.len(),
    ensures
        v == le32(bytes@, at as int),
{
    let b0: u32 = bytes[at] as u32;
    let b1: u32 = bytes[at + 1] as u32;
    let b2: u32 = bytes[at + 2] as u32;
    let b3: u32 = bytes[at + 3] as u32;
    b0 + 0x100 * b1 + 0x1_0000 * b2 + 0x100_0000 * b3
}

fn find_section(bytes: &Vec<u8>, name: u32) -> (r: Option<(usize, u32)>)
    ensures
        match find_chunk(bytes@, name, FIRST_CHUNK as int) {
            Some((start, len)) => r matches Some((s, l)) && s == start && l == len && 8 <= start
                <= bytes@.len(),
            None => r is None,
        },
{
    let total: usize = bytes.len();
    let mut start: usize = FIRST_CHUNK;
    loop
        invariant
            total == bytes@.len(),
            find_chunk(bytes@, name, FIRST_CHUNK as int) == find_chunk(bytes@, name, start as int),
        decreases total - start,
    {
        proof {
            reveal_with_fuel(find_chunk, 2);
        }
        if total < 8 || start > total - 8 {
            return None;
        }
        let found: bool = read_u32(bytes, start) == name;
        let len: u32 = read_u32(bytes, start + 4);
        if found {
            return Some((start + 8, len));
        }
        if len as usize > total - 8 - start {
            // The next chunk would start past the end of the file.
            return None;
        }
        start = start + 8 + len as usize;
    }
}

fn fetch(format: Format, bytes: &Vec<u8>, at: usize) -> (v: i32)
    requires
        at + format.width() <= bytes.len(),
    ensures
        v == format.stored_at(bytes@, at as int),
{
    match format {
        Format::U8 => bytes[at] as i32 - 0x80,
        Format::I16 => {
            let u: u16 = read_u16(bytes, at);
            if u >= 0x8000 {
                u as i32 - 0x1_0000
            } else {
                u as i32
            }
        },
        Format::I24 => {
            let low: u16 = read_u16(bytes, at);
            let high: u8 = bytes[at + 2];
            let u: i32 = low as i32 + 0x1_0000 * (high as i32);
            if u >= 0x80_0000 {
                u - 0x100_0000
            } else {
                u
            }
        },
        Format::I32 | Format::F32 => {
            let u: u32 = read_u32(bytes, at);
            if u >= 0x8000_0000 {
                (u - 0x8000_0000) as i32 - 0x7fff_ffff - 1
            } else {
                u as i32
            }
        },
    }
}

fn classify(tag: u16, bits: u16) -> (f: Option<Format>)
    ensures
        f == format_of(tag as int, bits as int),
{
    if tag == 1 && bits == 8 {
        Some(Format::U8)
    } else if tag == 1 && bits == 16 {
        Some(Format::I16)
    } else if tag == 1 && bits == 24 {
        Some(Format::I24)
    } else if tag == 1 && bits == 32 {
        Some(Format::I32)
    } else if tag == 3 && bits == 32 {
        Some(Format::F32)
    } else {
        None
    }
}

/// A player in plain values, as they can be stored and read back.
#[derive(Clone, Debug)]
pub struct WavParts {
    /// The bytes of the file, up to the end of the `data` chunk.
    pub file: Vec<u8>,
    pub channels: u16,
    pub sample_rate: u32,
    /// How many bytes one sample takes.
    pub sample_bytes: usize,
    /// Where the `data` chunk starts in the file.
    pub data_start: usize,
    /// Where the next sample to play starts in the file.
    pub next_sample_offset: usize,
    pub format: Format,
    /// The total number of samples in the file.
    pub length: usize,
}

impl WavParts {
    /// Whether the parts fit together: there are channels and a rate, the
    /// width is that of the format, the `data` chunk starts in the file, the
    /// next sample starts at a sample of it, and the length is the number of
    /// whole samples in it.
    pub open spec fn valid(self) -> bool {
        &&& self.channels != 0
        &&& self.sample_rate != 0
        &&& self.sample_bytes == self.format.width()
        &&& self.data_start <= self.next_sample_offset <= self.file@.len()
        &&& (self.next_sample_offset - self.data_start) % (self.sample_bytes as int) == 0
        &&& self.length == (self.file@.len() - self.data_start) / (self.sample_bytes as int)
    }

    /// How many samples have been played.
    pub open spec fn played(self) -> nat {
        ((self.next_sample_offset - self.data_start) / (self.sample_bytes as int)) as nat
    }
}

proof fn lemma_last_sample_fits(count: int, width: int, bytes: int)
    by (nonlinear_arith)
    requires
        0 < width,
        0 <= bytes,
        count == bytes / width,
    ensures
        0 <= count * width <= bytes,
{
}

proof fn lemma_sample_index(index: int, width: int)
    requires
        0 <= index,
        0 < width,
    ensures
        (index * width) % width == 0,
        (index * width) / width == index,
{
    vstd::arithmetic::div_mod::lemma_fundamental_div_mod_converse(index * width, width, index, 0);
}

fn copy_bytes(bytes: &Vec<u8>) -> (copy: Vec<u8>)
    ensures
        copy@ == bytes@,
{
    let mut copy: Vec<u8> = Vec::with_capacity(bytes.len());
    let mut i: usize = 0;
    while i < bytes.len()
        invariant
            i <= bytes@.len(),
            copy@ == bytes@.take(i as int),
        decreases bytes@.len() - i,
    {
        copy.push(bytes[i]);
        proof {
            assert(copy@ =~= bytes@.take(i + 1));
        }
        i += 1;
    }
    proof {
        assert(bytes@.take(bytes@.len() as int) =~= bytes@);
    }
    copy
}

/// A [`Source`] that decodes and plays the samples of a .wav file.
///
/// The player takes the whole file as bytes and keeps them behind a reference
/// count, so a clone of a player shares them.
#[derive(Clone)]
pub struct WavPlayer<N> {
    file: Arc<Vec<u8>>,
    channels: ChannelCount,
    sample_rate: SampleRate,
    sample_bytes: usize,
    data_start: usize,
    played: usize,
    format: Format,
    length: usize,
    normalise: N,
    log: Ghost<Seq<Sample>>,
    trace: Ghost<Seq<Call>>,
}

impl<N: Fn(i32, i32) -> Sample> WavPlayer<N> {
    /// The bytes of the `data` chunk.
    pub closed spec fn data(&self) -> Seq<u8> {
        self.file@.skip(self.data_start as int)
    }

    /// How the samples are stored.
    pub closed spec fn format(&self) -> Format {
        self.format
    }

    /// How many samples have been played since the start or the last reset.
    pub closed spec fn played(&self) -> nat {
        self.played as nat
    }

    /// The total number of samples in the file.
    pub closed spec fn total(&self) -> nat {
        self.length as nat
    }

    /// The function that turns stored integers into samples.
    pub closed spec fn normaliser(&self) -> N {
        self.normalise
    }

    pub closed spec fn spec_channels(&self) -> ChannelCount {
        self.channels
    }

    pub closed spec fn spec_rate(&self) -> SampleRate {
        self.sample_rate
    }

    pub closed spec fn history(&self) -> Seq<Sample> {
        self.log@
    }

    pub closed spec fn spec_calls(&self) -> Seq<Call> {
        self.trace@
    }

    pub closed spec fn consistent(&self) -> bool {
        &&& self.sample_bytes == self.format.width()
        &&& self.data_start <= self.file@.len()
        &&& self.played <= self.length
        &&& self.length == (self.file@.len() - self.data_start) / (self.sample_bytes as int)
    }

    /// Reads a file. The result is the one that [`parse`] gives for its bytes:
    /// the player at the first sample of the `data` chunk, or the reason why
    /// the file is refused.
    pub fn new(file: Vec<u8>, normalise: N) -> (r: Result<Self, Error>)
        requires
            forall|value: i32, scale: i32| call_requires(normalise, (value, scale)),
        ensures
            match parse(file@) {
                Ok(header) => r matches Ok(p) && p.wf() && p.format() == header.format
                    && p.channels().value() == header.channels && p.rate().value()
                    == header.sample_rate && p.data() == file@.subrange(
                    header.data_start as int,
                    (header.data_start + header.data_len) as int,
                ) && p.total() == header.data_len / header.format.width() && p.played() == 0
                    && p.normaliser() == normalise && p.emitted() == Seq::<Sample>::empty()
                    && p.calls() == Seq::<Call>::empty(),
                Err(e) => r matches Err(f) && f == e,
            },
    {
        let mut file = file;
        let ghost bytes = file@;
        if file.len() < 12 || read_u32(&file, 0) != RIFF || read_u32(&file, 8) != WAVE {
            return Err(Error::InvalidFile);
        }
        let (fmt_start, fmt_len) = match find_section(&file, FMT) {
            Some(found) => found,
            None => {
                return Err(Error::InvalidFile);
            },
        };
        if fmt_len < 16 || fmt_len as usize > file.len() - fmt_start {
            return Err(Error::InvalidFile);
        }
        let audio_format: u16 = read_u16(&file, fmt_start);
        let channels: u16 = read_u16(&file, fmt_start + 2);
        let sample_rate: u32 = read_u32(&file, fmt_start + 4);
        let sample_bits: u16 = read_u16(&file, fmt_start + 14);

        let channels = match ChannelCount::new(channels) {
            Some(c) => c,
            None => {
                return Err(Error::UnknownFormat);
            },
        };
        let sample_rate = match SampleRate::new(sample_rate) {
            Some(r) => r,
            None => {
                return Err(Error::UnknownFormat);
            },
        };

        let (data_start, data_len) = match find_section(&file, DATA) {
            Some(found) => found,
            None => {
                return Err(Error::InvalidFile);
            },
        };
        if data_len as usize > file.len() - data_start {
            return Err(Error::MalformedData);
        }
        let format = match classify(audio_format, sample_bits) {
            Some(f) => f,
            None => {
                return Err(Error::UnknownFormat);
            },
        };
        file.truncate(data_start + data_len as usize);
        let sample_bytes: usize = format.sample_bytes();
        let length: usize = data_len as usize / sample_bytes;
        proof {
            assert(file@.skip(data_start as int) =~= bytes.subrange(
                data_start as int,
                data_start + data_len,
            ));
        }
        Ok(
            WavPlayer {
                file: Arc::new(file),
                channels,
                sample_rate,
                sample_bytes,
                data_start,
                played: 0,
                format,
                length,
                normalise,
                log: Ghost(Seq::empty()),
                trace: Ghost(Seq::empty()),
            },
        )
    }

    /// The bytes of the file up to the end of the `data` chunk.
    pub closed spec fn file_bytes(&self) -> Seq<u8> {
        self.file@
    }

    /// Where the `data` chunk starts in the file.
    pub closed spec fn data_offset(&self) -> nat {
        self.data_start as nat
    }

    /// The player in plain values, as they can be stored: the bytes of the
    /// file, what its header says, and how far it has been played.
    pub fn to_parts(&self) -> (parts: WavParts)
        requires
            self.wf(),
        ensures
            parts.valid(),
            parts.file@ == self.file_bytes(),
            parts.data_start == self.data_offset(),
            parts.file@.skip(parts.data_start as int) == self.data(),
            parts.channels == self.channels().value(),
            parts.sample_rate == self.rate().value(),
            parts.format == self.format(),
            parts.played() == self.played(),
            parts.length == self.total(),
    {
        let file: Vec<u8> = copy_bytes(&self.file);
        let total_bytes: usize = self.file.len();
        proof {
            if self.played < self.length {
                lemma_sample_fits(
                    self.played as int,
                    self.length as int,
                    self.sample_bytes as int,
                    self.file@.len() - self.data_start,
                );
            } else {
                lemma_last_sample_fits(
                    self.length as int,
                    self.sample_bytes as int,
                    self.file@.len() - self.data_start,
                );
            }
            lemma_sample_index(self.played as int, self.sample_bytes as int);
            assert(0 <= self.played * self.sample_bytes <= total_bytes - self.data_start);
        }
        let next_sample_offset: usize = self.data_start + self.played * self.sample_bytes;
        WavParts {
            file,
            channels: self.channels.get(),
            sample_rate: self.sample_rate.get(),
            sample_bytes: self.sample_bytes,
            data_start: self.data_start,
            next_sample_offset,
            format: self.format,
            length: self.length,
        }
    }

    /// The player that the parts describe, with nothing played by it yet:
    /// it stands where the parts say. None where the parts do not fit
    /// together.
    pub fn from_parts(parts: WavParts, normalise: N) -> (r: Option<Self>)
        requires
            forall|value: i32, scale: i32| #[trigger] call_requires(normalise, (value, scale)),
        ensures
            r is Some <==> parts.valid(),
            r matches Some(p) ==> {
                &&& p.wf()
                &&& p.file_bytes() == parts.file@
                &&& p.data_offset() == parts.data_start
                &&& p.data() == parts.file@.skip(parts.data_start as int)
                &&& p.channels().value() == parts.channels
                &&& p.rate().value() == parts.sample_rate
                &&& p.format() == parts.format
                &&& p.played() == parts.played()
                &&& p.total() == parts.length
                &&& p.normaliser() == normalise
                &&& p.emitted() == Seq::<Sample>::empty()
                &&& p.calls() == Seq::<Call>::empty()
            },
    {
        let channels = match ChannelCount::new(parts.channels) {
            Some(c) => c,
            None => {
                return None;
            },
        };
        let sample_rate = match SampleRate::new(parts.sample_rate) {
            Some(r) => r,
            None => {
                return None;
            },
        };
        let width: usize = parts.format.sample_bytes();
        if parts.sample_bytes != width || parts.data_start > parts.file.len()
            || parts.next_sample_offset < parts.data_start || parts.next_sample_offset
            > parts.file.len() {
            return None;
        }
        let behind: usize = parts.next_sample_offset - parts.data_start;
        if behind % width != 0 || parts.length != (parts.file.len() - parts.data_start) / width {
            return None;
        }
        let played: usize = behind / width;
        proof {
            vstd::arithmetic::div_mod::lemma_div_is_ordered(
                behind as int,
                parts.file@.len() - parts.data_start,
                width as int,
            );
        }
        Some(
            WavPlayer {
                file: Arc::new(parts.file),
                channels,
                sample_rate,
                sample_bytes: width,
                data_start: parts.data_start,
                played,
                format: parts.format,
                length: parts.length,
                normalise,
                log: Ghost(Seq::empty()),
                trace: Ghost(Seq::empty()),
            },
        )
    }

    /// Returns the total number of samples in this wav file
    pub fn length(&self) -> (n: usize)
        ensures
            n == self.total(),
    {
        self.length
    }
}

impl<N: Fn(i32, i32) -> Sample> Source for WavPlayer<N> {
    open spec fn wf(&self) -> bool {
        &&& self.consistent()
        &&& self.played() <= self.total()
        &&& forall|value: i32, scale: i32| #[trigger] call_requires(self.normaliser(), (value, scale))
    }

    open spec fn channels(&self) -> ChannelCount {
        self.spec_channels()
    }

    open spec fn rate(&self) -> SampleRate {
        self.spec_rate()
    }

    open spec fn emitted(&self) -> Seq<Sample> {
        self.history()
    }

    open spec fn ended(&self) -> bool {
        self.played() == self.total()
    }

    open spec fn empty(&self) -> bool {
        self.total() == 0
    }

    open spec fn calls(&self) -> Seq<Call> {
        self.spec_calls()
    }

    #[inline]
    fn channel_count(&self) -> (c: ChannelCount) {
        self.channels
    }

    #[inline]
    fn sample_rate(&self) -> (r: SampleRate) {
        self.sample_rate
    }

    /// Decodes the next `min(remaining, buffer.len())` samples: sample `i` of
    /// the output is what sample `played + i` of the data decodes to.
    fn write_samples(&mut self, buffer: &mut [Sample]) -> (n: usize)
        ensures
            final(self).data() == old(self).data(),
            final(self).format() == old(self).format(),
            final(self).total() == old(self).total(),
            final(self).normaliser() == old(self).normaliser(),
            final(self).played() == old(self).played() + n,
            n == if old(buffer)@.len() <= old(self).total() - old(self).played() {
                old(buffer)@.len() as int
            } else {
                old(self).total() - old(self).played()
            },
            forall|i: int|
                0 <= i < n ==> decodes(
                    old(self).normaliser(),
                    old(self).format(),
                    old(self).data(),
                    old(self).played() + i,
                    #[trigger] final(buffer)@[i],
                ),
    {
        assert(self.normaliser() == self.normalise);
        assert(forall|value: i32, scale: i32| #[trigger] call_requires(self.normalise, (value, scale)));
        let total_bytes: usize = self.file.len();
        let remaining: usize = self.length - self.played;
        let n: usize = if buffer.len() <= remaining {
            buffer.len()
        } else {
            remaining
        };
        let first: usize = self.played;
        let width: usize = self.sample_bytes;
        let format = self.format;
        let ghost data = self.data();
        let mut i: usize = 0;
        while i < n
            invariant
                *self == *old(self),
                self.wf(),
                forall|value: i32, scale: i32| #[trigger] call_requires(self.normalise, (value, scale)),
                total_bytes == self.file@.len(),
                first == self.played,
                width == self.sample_bytes,
                format == self.format,
                data == self.data(),
                first + n <= self.length,
                i <= n <= buffer@.len(),
                buffer@.len() == old(buffer)@.len(),
                buffer@.skip(i as int) == old(buffer)@.skip(i as int),
                forall|k: int|
                    0 <= k < i ==> decodes(
                        self.normalise,
                        format,
                        data,
                        first + k,
                        #[trigger] buffer@[k],
                    ),
            decreases n - i,
        {
            let ghost before = buffer@;
            proof {
                lemma_sample_fits(
                    first + i,
                    self.length as int,
                    width as int,
                    self.file@.len() - self.data_start,
                );
            }
            let at: usize = self.data_start + (first + i) * width;
            let sample: Sample = match format {
                Format::F32 => read_u32(&self.file, at),
                _ => (self.normalise)(fetch(format, &self.file, at), format.divisor()),
            };
            buffer[i] = sample;
            proof {
                assert(buffer@.skip(i + 1) =~= before.skip(i as int).skip(1));
                assert(format.stored_at(self.file@, at as int) == format.stored(
                    data,
                    (first + i) as int,
                ));
                assert(width == 4 ==> le32(self.file@, at as int) == le32(
                    data,
                    width * (first + i),
                ));
                assert(decodes(self.normalise, format, data, first + i, sample));
            }
            i += 1;
        }
        self.played = first + n;
        proof {
            self.log = Ghost(self.log@ + buffer@.take(n as int));
            self.trace = Ghost(self.trace@.push(Call::Pull(buffer@.len())));
        }
        n
    }

    /// Goes back to the first sample of the `data` chunk.
    fn reset(&mut self)
        ensures
            final(self).data() == old(self).data(),
            final(self).format() == old(self).format(),
            final(self).total() == old(self).total(),
            final(self).normaliser() == old(self).normaliser(),
            final(self).played() == 0,
    {
        self.played = 0;
        proof {
            self.trace = Ghost(self.trace@.push(Call::Reset));
            assert(self.normaliser() == old(self).normaliser());
        }
    }
}

} // verus!
