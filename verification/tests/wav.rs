use udon::source::Source;
use udon::wav::{Error, Format, WavPlayer};

fn normalise(value: i32, full_scale: i32) -> u32 {
    if full_scale == i32::MAX {
        ((f64::from(value) / f64::from(full_scale)) as f32).to_bits()
    } else {
        (value as f32 / full_scale as f32).to_bits()
    }
}

fn header(tag: u16, channels: u16, rate: u32, bits: u16) -> Vec<u8> {
    let mut file = Vec::new();
    file.extend_from_slice(b"RIFF");
    file.extend_from_slice(&0x24u32.to_le_bytes());
    file.extend_from_slice(b"WAVE");
    file.extend_from_slice(b"fmt ");
    file.extend_from_slice(&16u32.to_le_bytes());
    file.extend_from_slice(&tag.to_le_bytes());
    file.extend_from_slice(&channels.to_le_bytes());
    file.extend_from_slice(&rate.to_le_bytes());
    file.extend_from_slice(&(rate * u32::from(channels) * u32::from(bits / 8)).to_le_bytes());
    file.extend_from_slice(&(channels * (bits / 8)).to_le_bytes());
    file.extend_from_slice(&bits.to_le_bytes());
    file
}

fn wav(tag: u16, channels: u16, rate: u32, bits: u16, data: &[u8]) -> Vec<u8> {
    let mut file = header(tag, channels, rate, bits);
    file.extend_from_slice(b"data");
    file.extend_from_slice(&(data.len() as u32).to_le_bytes());
    file.extend_from_slice(data);
    file
}

fn decode(file: Vec<u8>, want: usize) -> Vec<f32> {
    let mut player = WavPlayer::new(file, normalise).unwrap();
    let mut out = vec![f32::NAN.to_bits(); want];
    let n = player.write_samples(&mut out);
    out[..n].iter().map(|b| f32::from_bits(*b)).collect()
}

fn error_of(file: Vec<u8>) -> Error {
    match WavPlayer::new(file, normalise) {
        Ok(_) => panic!("the file was accepted"),
        Err(e) => e,
    }
}

#[test]
fn wav_header() {
    let mut file: Vec<u8> = Vec::new();
    file.extend_from_slice(b"RIFF");
    file.extend_from_slice(&[0x24, 0x00, 0x00, 0x00]);
    file.extend_from_slice(b"WAVE");
    file.extend_from_slice(b"fmt ");
    file.extend_from_slice(&[0x10, 0x00, 0x00, 0x00]);
    file.extend_from_slice(&[1, 0, 2, 0, 0x44, 0xAC, 0, 0, 0x10, 0xB1, 0x02, 0, 4, 0, 16, 0]);
    file.extend_from_slice(b"data");
    file.extend_from_slice(&[0x04, 0x00, 0x00, 0x00]);
    file.extend_from_slice(&[0x00, 0x00, 0xFF, 0x7F]);
    let mut player = WavPlayer::new(file, normalise).unwrap();
    assert_eq!(player.channel_count().get(), 2);
    assert_eq!(player.sample_rate().get(), 44100);
    assert_eq!(player.length(), 2);
    let mut out = [0u32; 2];
    assert_eq!(player.write_samples(&mut out), 2);
    assert_eq!(f32::from_bits(out[0]), 0.0);
    assert_eq!(f32::from_bits(out[1]), 1.0);
    assert_eq!(Format::I16.sample_bytes(), 2);
}

#[test]
fn wav_round_trip_of_pcm16() {
    let mut data = Vec::new();
    for v in [-32767i16, 0, 32767] {
        data.extend_from_slice(&v.to_le_bytes());
    }
    let samples = decode(wav(1, 1, 8000, 16, &data), 3);
    assert_eq!(samples, vec![-1.0, 0.0, 1.0]);
}

#[test]
fn wav_decodes_unsigned_bytes_with_their_bias() {
    let samples = decode(wav(1, 1, 8000, 8, &[0x80, 0xFF, 0x01, 0x00]), 4);
    assert_eq!(samples, vec![0.0, 1.0, -1.0, -128.0 / 127.0]);
}

#[test]
fn wav_decodes_sixteen_bits() {
    let samples = decode(wav(1, 1, 8000, 16, &[0x00, 0x80, 0x01, 0x00, 0xFF, 0xFF]), 3);
    assert_eq!(samples, vec![-32768.0 / 32767.0, 1.0 / 32767.0, -1.0 / 32767.0]);
}

#[test]
fn wav_decodes_twenty_four_bits() {
    let samples = decode(
        wav(
            1,
            1,
            8000,
            24,
            &[
                0x00, 0x00, 0x40, 0x00, 0x00, 0x00, 0xFF, 0xFF, 0x7F, 0x00, 0x00, 0x80, 0xFF, 0xFF, 0xFF, 0x00,
                0x00, 0xC0,
            ],
        ),
        6,
    );
    assert_eq!(samples, vec![0.5, 0.0, 8388607.0 / 8388608.0, -1.0, -1.0 / 8388608.0, -0.5]);
}

#[test]
fn wav_reads_the_lowest_twenty_four_bit_sample_as_minus_one() {
    let mut file: Vec<u8> = Vec::new();
    file.extend_from_slice(b"RIFF");
    file.extend_from_slice(&[0x27, 0, 0, 0]);
    file.extend_from_slice(b"WAVE");
    file.extend_from_slice(b"fmt ");
    file.extend_from_slice(&[16, 0, 0, 0]);
    file.extend_from_slice(&[1, 0, 1, 0, 0x44, 0xAC, 0, 0, 0xCC, 0x04, 2, 0, 3, 0, 24, 0]);
    file.extend_from_slice(b"data");
    file.extend_from_slice(&[3, 0, 0, 0]);
    file.extend_from_slice(&[0x00, 0x00, 0x80]);
    let mut player = WavPlayer::new(file, normalise).unwrap();
    let mut out = [9.0f32.to_bits(); 1];
    assert_eq!(player.write_samples(&mut out), 1);
    assert_eq!(f32::from_bits(out[0]), -1.0);
}

#[test]
fn wav_decodes_thirty_two_bits() {
    let mut data = Vec::new();
    for v in [i32::MAX, 0, -i32::MAX, i32::MIN, 1 << 30] {
        data.extend_from_slice(&v.to_le_bytes());
    }
    let samples = decode(wav(1, 1, 8000, 32, &data), 5);
    assert_eq!(samples, vec![1.0, 0.0, -1.0, -1.0, 0.5]);
}

#[test]
fn wav_passes_floats_on_bit_for_bit() {
    let values = [0.25f32, -0.0, f32::MIN_POSITIVE, -1.5, f32::INFINITY];
    let mut data = Vec::new();
    for v in values {
        data.extend_from_slice(&v.to_le_bytes());
    }
    let mut player = WavPlayer::new(wav(3, 1, 8000, 32, &data), normalise).unwrap();
    let mut out = [0u32; 5];
    assert_eq!(player.write_samples(&mut out), 5);
    let expected: Vec<u32> = values.iter().map(|v| v.to_bits()).collect();
    assert_eq!(out.to_vec(), expected);
}

#[test]
fn wav_without_riff_is_invalid() {
    let mut file = wav(1, 1, 8000, 16, &[0, 0]);
    file[0] = b'X';
    assert!(matches!(error_of(file), Error::InvalidFile));
}

#[test]
fn wav_without_wave_is_invalid() {
    let mut file = wav(1, 1, 8000, 16, &[0, 0]);
    file[8] = b'w';
    assert!(matches!(error_of(file), Error::InvalidFile));
}

#[test]
fn wav_that_is_too_short_is_invalid() {
    assert!(matches!(error_of(Vec::new()), Error::InvalidFile));
    assert!(matches!(error_of(b"RIFF".to_vec()), Error::InvalidFile));
    assert!(matches!(error_of(b"RIFF\0\0\0\0WAV".to_vec()), Error::InvalidFile));
    assert!(matches!(error_of(b"RIFF\0\0\0\0WAVE".to_vec()), Error::InvalidFile));
}

#[test]
fn wav_without_fmt_chunk_is_invalid() {
    let mut file = b"RIFF\0\0\0\0WAVE".to_vec();
    file.extend_from_slice(b"data");
    file.extend_from_slice(&2u32.to_le_bytes());
    file.extend_from_slice(&[0, 0]);
    assert!(matches!(error_of(file), Error::InvalidFile));
}

#[test]
fn wav_with_short_fmt_chunk_is_invalid() {
    let mut file = b"RIFF\0\0\0\0WAVE".to_vec();
    file.extend_from_slice(b"fmt ");
    file.extend_from_slice(&14u32.to_le_bytes());
    file.extend_from_slice(&[1, 0, 1, 0, 0x40, 0x1F, 0, 0, 0, 0, 0, 0, 2, 0]);
    file.extend_from_slice(b"data");
    file.extend_from_slice(&0u32.to_le_bytes());
    assert!(matches!(error_of(file), Error::InvalidFile));
}

#[test]
fn wav_with_cut_fmt_chunk_is_invalid() {
    let mut file = b"RIFF\0\0\0\0WAVE".to_vec();
    file.extend_from_slice(b"fmt ");
    file.extend_from_slice(&16u32.to_le_bytes());
    file.extend_from_slice(&[1, 0, 1, 0, 0x40, 0x1F, 0, 0]);
    assert!(matches!(error_of(file), Error::InvalidFile));
}

#[test]
fn wav_without_data_chunk_is_invalid() {
    assert!(matches!(error_of(header(1, 1, 8000, 16)), Error::InvalidFile));
}

#[test]
fn wav_with_cut_data_is_malformed() {
    let mut file = wav(1, 1, 8000, 16, &[1, 0, 2, 0]);
    file.pop();
    assert!(matches!(error_of(file), Error::MalformedData));
}

#[test]
fn wav_of_unknown_format_is_refused() {
    assert!(matches!(error_of(wav(2, 1, 8000, 16, &[0, 0])), Error::UnknownFormat));
    assert!(matches!(error_of(wav(1, 1, 8000, 12, &[0, 0])), Error::UnknownFormat));
    assert!(matches!(error_of(wav(3, 1, 8000, 16, &[0, 0])), Error::UnknownFormat));
    assert!(matches!(error_of(wav(3, 1, 8000, 64, &[0; 8])), Error::UnknownFormat));
}

#[test]
fn wav_without_channels_or_rate_is_refused() {
    assert!(matches!(error_of(wav(1, 0, 8000, 16, &[0, 0])), Error::UnknownFormat));
    assert!(matches!(error_of(wav(1, 1, 0, 16, &[0, 0])), Error::UnknownFormat));
}

#[test]
fn wav_reports_cut_data_before_unknown_format() {
    let mut file = wav(2, 1, 8000, 16, &[1, 0, 2, 0]);
    file.pop();
    assert!(matches!(error_of(file), Error::MalformedData));
}

#[test]
fn wav_skips_other_chunks_by_their_length() {
    let mut file = header(1, 1, 8000, 16);
    file.extend_from_slice(b"LIST");
    file.extend_from_slice(&6u32.to_le_bytes());
    file.extend_from_slice(b"data\0\0");
    file.extend_from_slice(b"data");
    file.extend_from_slice(&2u32.to_le_bytes());
    file.extend_from_slice(&32767i16.to_le_bytes());
    assert_eq!(decode(file, 4), vec![1.0]);
}

#[test]
fn wav_ignores_what_follows_the_data() {
    let mut file = wav(1, 1, 8000, 16, &[0xFF, 0x7F]);
    file.extend_from_slice(&[0xFF, 0x7F, 0xFF, 0x7F]);
    let mut player = WavPlayer::new(file, normalise).unwrap();
    assert_eq!(player.length(), 1);
    let mut out = [0u32; 3];
    assert_eq!(player.write_samples(&mut out), 1);
    assert_eq!(player.write_samples(&mut out), 0);
}

#[test]
fn wav_leaves_a_cut_last_sample_out() {
    let mut player = WavPlayer::new(wav(1, 1, 8000, 16, &[0xFF, 0x7F, 0x01]), normalise).unwrap();
    assert_eq!(player.length(), 1);
    let mut out = [7u32; 2];
    assert_eq!(player.write_samples(&mut out), 1);
    assert_eq!(out, [1.0f32.to_bits(), 7]);
}

#[test]
fn wav_plays_in_pieces_and_starts_over_on_reset() {
    let mut data = Vec::new();
    for v in [32767i16, 0, -32767, 32767, 0] {
        data.extend_from_slice(&v.to_le_bytes());
    }
    let mut player = WavPlayer::new(wav(1, 1, 8000, 16, &data), normalise).unwrap();
    let mut out = [0u32; 2];
    assert_eq!(player.write_samples(&mut out), 2);
    assert_eq!(out, [1.0f32.to_bits(), 0.0f32.to_bits()]);
    assert_eq!(player.write_samples(&mut out), 2);
    assert_eq!(out, [(-1.0f32).to_bits(), 1.0f32.to_bits()]);
    assert_eq!(player.write_samples(&mut out), 1);
    assert_eq!(out[0], 0.0f32.to_bits());
    assert_eq!(player.write_samples(&mut out), 0);
    player.reset();
    assert_eq!(player.write_samples(&mut out), 2);
    assert_eq!(out, [1.0f32.to_bits(), 0.0f32.to_bits()]);
    assert_eq!(player.channel_count().get(), 1);
    assert_eq!(player.sample_rate().get(), 8000);
}

#[test]
fn wav_clone_plays_on_its_own() {
    let mut data = Vec::new();
    for v in [32767i16, -32767] {
        data.extend_from_slice(&v.to_le_bytes());
    }
    let mut first = WavPlayer::new(wav(1, 1, 8000, 16, &data), normalise).unwrap();
    let mut out = [0u32; 1];
    assert_eq!(first.write_samples(&mut out), 1);
    let mut second = first.clone();
    assert_eq!(first.write_samples(&mut out), 1);
    assert_eq!(first.write_samples(&mut out), 0);
    assert_eq!(second.write_samples(&mut out), 1);
    assert_eq!(out[0], (-1.0f32).to_bits());
}

#[test]
fn wav_formats_give_their_width_and_divisor() {
    assert_eq!((Format::U8.sample_bytes(), Format::U8.divisor()), (1, 127));
    assert_eq!((Format::I16.sample_bytes(), Format::I16.divisor()), (2, 32767));
    assert_eq!((Format::I24.sample_bytes(), Format::I24.divisor()), (3, 8388608));
    assert_eq!((Format::I32.sample_bytes(), Format::I32.divisor()), (4, i32::MAX));
    assert_eq!(Format::F32.sample_bytes(), 4);
}

#[test]
fn wav_player_goes_to_parts_and_back() {
    let mut data = Vec::new();
    for v in [32767i16, 0, -32767, 16384] {
        data.extend_from_slice(&v.to_le_bytes());
    }
    let mut file = wav(1, 2, 22050, 16, &data);
    file.extend_from_slice(&[1, 2, 3]);
    let mut player = WavPlayer::new(file, normalise).unwrap();
    let mut out = [0u32; 1];
    assert_eq!(player.write_samples(&mut out), 1);
    let parts = player.to_parts();
    assert_eq!(parts.file.len(), 44 + 8);
    assert_eq!((parts.channels, parts.sample_rate, parts.sample_bytes), (2, 22050, 2));
    assert_eq!((parts.data_start, parts.next_sample_offset, parts.length), (44, 46, 4));
    assert_eq!(parts.format, Format::I16);
    let mut back = WavPlayer::from_parts(parts, normalise).unwrap();
    assert_eq!(back.channel_count().get(), 2);
    assert_eq!(back.sample_rate().get(), 22050);
    assert_eq!(back.length(), 4);
    let mut rest = [0u32; 4];
    assert_eq!(back.write_samples(&mut rest), 3);
    assert_eq!(f32::from_bits(rest[0]), 0.0);
    assert_eq!(f32::from_bits(rest[1]), -1.0);
    let mut same = [0u32; 4];
    assert_eq!(player.write_samples(&mut same), 3);
    assert_eq!(same, rest);
    back.reset();
    assert_eq!(back.write_samples(&mut rest), 4);
    assert_eq!(f32::from_bits(rest[0]), 1.0);
}

#[test]
fn wav_parts_that_do_not_fit_together_are_refused() {
    let player = WavPlayer::new(wav(1, 1, 8000, 16, &[1, 0, 2, 0, 3, 0]), normalise).unwrap();
    let good = player.to_parts();
    assert!(WavPlayer::from_parts(good.clone(), normalise).is_some());
    let spoil: [fn(&mut udon::wav::WavParts); 9] = [
        |p| p.channels = 0,
        |p| p.sample_rate = 0,
        |p| p.sample_bytes = 1,
        |p| p.format = Format::I24,
        |p| p.data_start = 51,
        |p| p.next_sample_offset = 45,
        |p| p.next_sample_offset = 43,
        |p| p.next_sample_offset = 52,
        |p| p.length = 2,
    ];
    for change in spoil.iter() {
        let mut parts = good.clone();
        change(&mut parts);
        assert!(WavPlayer::from_parts(parts, normalise).is_none());
    }
    let mut at_the_end = good.clone();
    at_the_end.next_sample_offset = 50;
    let mut player = WavPlayer::from_parts(at_the_end, normalise).unwrap();
    assert_eq!(player.write_samples(&mut [0u32; 2]), 0);
}
