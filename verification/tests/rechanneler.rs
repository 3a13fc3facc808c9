use udon::player::Player;
use udon::rechanneler::Rechanneler;
use udon::source::{ChannelCount, Source};

fn bits(values: &[f32]) -> Vec<u32> {
    values.iter().map(|v| v.to_bits()).collect()
}

fn floats(values: &[u32]) -> Vec<f32> {
    values.iter().map(|v| f32::from_bits(*v)).collect()
}

fn add(a: u32, b: u32) -> u32 {
    (f32::from_bits(a) + f32::from_bits(b)).to_bits()
}

fn divide(sum: u32, count: u16) -> u32 {
    (f32::from_bits(sum) / f32::from(count)).to_bits()
}

fn channels(count: u16) -> ChannelCount {
    ChannelCount::new(count).unwrap()
}

#[test]
fn rechanneler_stereo_to_mono() {
    let upstream = Player::new(bits(&[1.0, 3.0, 5.0, 7.0]), channels(2));
    let mut mono = Rechanneler::new(upstream, channels(1), add, divide);
    let mut out = [0u32; 2];
    assert_eq!(mono.write_samples(&mut out), 2);
    assert_eq!(floats(&out), vec![2.0, 6.0]);
    assert_eq!(mono.write_samples(&mut out), 0);
}

#[test]
fn rechanneler_with_the_same_channels_is_the_identity() {
    let samples = bits(&[0.1, -0.0, f32::NAN, 1.0e-40, 5.0, f32::NEG_INFINITY]);
    let upstream = Player::new(samples.clone(), channels(2));
    let mut same = Rechanneler::new(upstream, channels(2), add, divide);
    let mut out = [7u32; 4];
    assert_eq!(same.write_samples(&mut out), 4);
    assert_eq!(out.to_vec(), samples[..4].to_vec());
    let mut out = [7u32; 4];
    assert_eq!(same.write_samples(&mut out), 2);
    assert_eq!(out.to_vec(), vec![samples[4], samples[5], 7, 7]);
    assert_eq!(same.write_samples(&mut out), 0);
}

#[test]
fn rechanneler_mono_to_stereo_doubles_each_sample() {
    let upstream = Player::new(bits(&[0.5, -0.25, 0.75]), channels(1));
    let mut stereo = Rechanneler::new(upstream, channels(2), add, divide);
    let mut out = [0u32; 4];
    assert_eq!(stereo.write_samples(&mut out), 4);
    assert_eq!(floats(&out), vec![0.5, 0.5, -0.25, -0.25]);
    let mut out = [9u32; 4];
    assert_eq!(stereo.write_samples(&mut out), 2);
    assert_eq!(floats(&out[..2]), vec![0.75, 0.75]);
    assert_eq!(out[2..], [9, 9]);
}

#[test]
fn rechanneler_three_to_two_takes_the_mean_of_three() {
    let upstream = Player::new(bits(&[1.0, 2.0, 6.0, 3.0, 3.0, 3.0, 9.0, 9.0]), channels(3));
    let mut two = Rechanneler::new(upstream, channels(2), add, divide);
    let mut out = [0u32; 6];
    assert_eq!(two.write_samples(&mut out), 4);
    assert_eq!(floats(&out[..4]), vec![3.0, 3.0, 3.0, 3.0]);
}

#[test]
fn rechanneler_reports_the_target_channels_and_the_source_rate() {
    let upstream = Player::new(bits(&[1.0, 3.0]), channels(2));
    let mut mono = Rechanneler::new(upstream, channels(1), add, divide);
    assert_eq!(mono.channel_count().get(), 1);
    assert_eq!(mono.sample_rate().get(), 48000);
    let mut out = [0u32; 4];
    mono.write_samples(&mut out);
    assert_eq!(mono.channel_count().get(), 1);
    assert_eq!(mono.sample_rate().get(), 48000);
}

#[test]
fn rechanneler_reset_rewinds_the_source() {
    let upstream = Player::new(bits(&[1.0, 3.0, 5.0, 7.0]), channels(2));
    let mut mono = Rechanneler::new(upstream, channels(1), add, divide);
    let mut out = [0u32; 1];
    assert_eq!(mono.write_samples(&mut out), 1);
    assert_eq!(mono.write_samples(&mut out), 1);
    assert_eq!(floats(&out), vec![6.0]);
    mono.reset();
    assert_eq!(mono.write_samples(&mut out), 1);
    assert_eq!(floats(&out), vec![2.0]);
}

#[test]
fn rechanneler_pulls_for_whole_output_frames_only() {
    let upstream = Player::new(bits(&[4.0, 8.0, 16.0]), channels(1));
    let mut stereo = Rechanneler::new(upstream, channels(2), add, divide);
    let mut out = [9u32; 3];
    assert_eq!(stereo.write_samples(&mut out), 2);
    assert_eq!(floats(&out[..2]), vec![4.0, 4.0]);
    assert_eq!(out[2], 9);
    let mut out = [9u32; 4];
    assert_eq!(stereo.write_samples(&mut out), 4);
    assert_eq!(floats(&out), vec![8.0, 8.0, 16.0, 16.0]);
}
