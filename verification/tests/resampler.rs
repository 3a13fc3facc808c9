use udon::cycle::Cycle;
use udon::player::Player;
use udon::resampler::{decompose, gcd, Ratio, Resampler};
use udon::source::{ChannelCount, SampleRate, Source};

fn bits(values: &[f32]) -> Vec<u32> {
    values.iter().map(|v| v.to_bits()).collect()
}

fn floats(values: &[u32]) -> Vec<f32> {
    values.iter().map(|v| f32::from_bits(*v)).collect()
}

fn mac(acc: u32, x: u32, h: u32) -> u32 {
    (f32::from_bits(acc) + f32::from_bits(x) * f32::from_bits(h)).to_bits()
}

fn rate(hz: u32) -> SampleRate {
    SampleRate::new(hz).unwrap()
}

fn sinc(x: f64) -> f64 {
    if x == 0.0 {
        1.0
    } else {
        let x_pi = x * std::f64::consts::PI;
        x_pi.sin() / x_pi
    }
}

fn bessel_i0(x: f64) -> f64 {
    let ax = x.abs();
    if ax < 3.75 {
        let y = (x / 3.75).powi(2);
        1.0 + y
            * (3.5156229
                + y * (3.0899424 + y * (1.2067492 + y * (0.2659732 + y * (0.0360768 + y * 0.0045813)))))
    } else {
        let y = 3.75 / ax;
        (ax.exp() / ax.sqrt())
            * (0.39894228
                + y * (0.01328592
                    + y * (0.00225319
                        + y * (-0.00157565
                            + y * (0.00916281
                                + y * (-0.02057706
                                    + y * (0.02635537 + y * (-0.01647633 + y * 0.00392377))))))))
    }
}

fn kaiser(k: f64) -> f64 {
    if !(-1.0..=1.0).contains(&k) {
        0.0
    } else {
        bessel_i0(6.20426 * (1.0 - k.powi(2)).sqrt()) / 81.0332923199
    }
}

/// The Kaiser-windowed lowpass prototype for a conversion between the two
/// rates, with the larger step of the ratio as its gain.
fn prototype(from: u32, to: u32) -> Vec<u32> {
    let ratio = Ratio::new(rate(from), rate(to));
    designed(from, to, f64::from(ratio.downscale_factor()))
}

/// The same prototype with another gain.
fn designed(from: u32, to: u32, gain: f64) -> Vec<u32> {
    let ratio = Ratio::new(rate(from), rate(to));
    let factor = f64::from(ratio.downscale_factor());
    let cutoff = 0.475 / factor;
    let transition_width = 0.05 / factor;
    let order = ((65.0 - 7.95) / (2.285 * 2.0 * std::f64::consts::PI * transition_width)).ceil() as usize;
    let count = order + 1;
    let left = (count / 2) as f64;
    (0..count)
        .map(|i| {
            let x = i as f64 - left;
            let tap = kaiser(x / left) * 2.0 * gain * cutoff * sinc(2.0 * cutoff * x);
            (tap as f32).to_bits()
        })
        .collect()
}

fn dc(hz: u32) -> Cycle<Player> {
    Cycle::new(Player::new(bits(&[1.0]), ChannelCount::mono()).with_sample_rate(rate(hz)))
}

#[test]
fn resampler_48000_to_24000() {
    // One phase holds every tap, so the prototype has unit gain when it is
    // scaled by the number of phases.
    let taps = designed(48000, 24000, 1.0);
    let mut resampler = Resampler::new(dc(48000), rate(24000), taps, mac).unwrap();
    assert_eq!(resampler.sample_rate().get(), 24000);
    assert_eq!(resampler.channel_count().get(), 1);
    let mut out = vec![0u32; 600];
    assert_eq!(resampler.write_samples(&mut out), 600);
    for sample in floats(&out[200..]) {
        assert!((sample - 1.0).abs() < 1e-3, "{}", sample);
    }
}

#[test]
fn resampler_gain_is_the_sum_of_the_taps_of_a_phase() {
    // With the larger step of the ratio as the gain of the prototype, halving
    // the rate doubles a constant.
    let mut resampler = Resampler::new(dc(48000), rate(24000), prototype(48000, 24000), mac).unwrap();
    let mut out = vec![0u32; 600];
    assert_eq!(resampler.write_samples(&mut out), 600);
    for sample in floats(&out[200..]) {
        assert!((sample - 2.0).abs() < 2e-3, "{}", sample);
    }
}

#[test]
fn resampler_keeps_a_constant_when_upsampling() {
    let mut resampler = Resampler::new(dc(22050), rate(48000), prototype(22050, 48000), mac).unwrap();
    let mut out = vec![0u32; 4000];
    assert_eq!(resampler.write_samples(&mut out), 4000);
    for sample in floats(&out[2000..]) {
        assert!((sample - 1.0).abs() < 1e-3, "{}", sample);
    }
}

#[test]
fn resampler_output_does_not_depend_on_the_size_of_the_pulls() {
    let samples: Vec<f32> = (0..3000).map(|i| ((i * 37 % 101) as f32 - 50.0) / 50.0).collect();
    let source = || Player::new(bits(&samples), ChannelCount::stereo()).with_sample_rate(rate(44100));
    let mut whole = Resampler::new(source(), rate(48000), prototype(44100, 48000), mac).unwrap();
    let mut expected = vec![0u32; 8000];
    let total = whole.write_samples(&mut expected);
    assert!(total < 8000);
    expected.truncate(total);
    assert_eq!(whole.write_samples(&mut [0u32; 8]), 0);

    let mut pieces = Resampler::new(source(), rate(48000), prototype(44100, 48000), mac).unwrap();
    let mut heard = Vec::new();
    loop {
        let mut out = [0u32; 14];
        let n = pieces.write_samples(&mut out);
        heard.extend_from_slice(&out[..n]);
        if n < 14 {
            break;
        }
    }
    assert_eq!(heard, expected);
}

#[test]
fn resampler_emits_no_more_than_the_ratio_allows() {
    for (from, to, frames) in [(48000u32, 24000u32, 1000usize), (44100, 48000, 777), (8000, 48000, 300)] {
        let source = Player::new(bits(&vec![0.5; frames]), ChannelCount::mono())
            .with_sample_rate(rate(from));
        let mut resampler = Resampler::new(source, rate(to), prototype(from, to), mac).unwrap();
        let mut out = vec![0u32; frames * 8];
        let n = resampler.write_samples(&mut out);
        assert!(n > 0);
        assert!(n <= frames * to as usize / from as usize + 1);
        assert_eq!(resampler.write_samples(&mut out), 0);
    }
}

#[test]
fn resampler_with_two_taps_pairs_taps_and_frames() {
    // From 1 Hz to 1 Hz with the prototype [h0, h1]: one phase, [h1, h0], whose
    // centre is at 1. Output frame f looks at the two frames before frame
    // f + 1; the first one, with a single frame before frame 1, looks at
    // frames 0 and 1 instead.
    let source = Player::new(bits(&[1.0, 10.0, 100.0, 1000.0, 10000.0, 100000.0]), ChannelCount::mono())
        .with_sample_rate(rate(1));
    let mut resampler = Resampler::new(source, rate(1), bits(&[2.0, 3.0]), mac).unwrap();
    let mut out = [0u32; 8];
    let n = resampler.write_samples(&mut out);
    assert_eq!(floats(&out[..n]), vec![23.0, 23.0, 230.0, 2300.0, 23000.0]);
}

#[test]
fn resampler_of_nothing_ends_at_once() {
    let source = Player::new(Vec::new(), ChannelCount::stereo());
    let mut resampler = Resampler::new(source, rate(44100), prototype(48000, 44100), mac).unwrap();
    let mut out = [7u32; 4];
    assert_eq!(resampler.write_samples(&mut out), 0);
    assert_eq!(out, [7u32; 4]);
    resampler.reset();
    assert_eq!(resampler.write_samples(&mut out), 0);
}

#[test]
fn resampler_reset_starts_over() {
    let samples: Vec<f32> = (0..500).map(|i| (i % 7) as f32).collect();
    let source = Player::new(bits(&samples), ChannelCount::mono()).with_sample_rate(rate(32000));
    let mut resampler = Resampler::new(source, rate(48000), prototype(32000, 48000), mac).unwrap();
    let mut first = [0u32; 64];
    assert_eq!(resampler.write_samples(&mut first), 64);
    let mut more = [0u32; 64];
    assert_eq!(resampler.write_samples(&mut more), 64);
    resampler.reset();
    let mut again = [0u32; 64];
    assert_eq!(resampler.write_samples(&mut again), 64);
    assert_eq!(first, again);
    assert_eq!(resampler.sample_rate().get(), 48000);
}

#[test]
fn resampler_needs_a_prototype_with_a_centre() {
    let source = || Player::new(bits(&[1.0, 2.0]), ChannelCount::mono());
    assert!(Resampler::new(source(), rate(48000), Vec::new(), mac).is_none());
    assert!(Resampler::new(source(), rate(48000), bits(&[1.0]), mac).is_none());
    assert!(Resampler::new(source(), rate(48000), bits(&[1.0, 1.0]), mac).is_some());
}

#[test]
fn gcd_is_the_greatest_common_divisor() {
    assert_eq!(gcd(48000, 44100), 300);
    assert_eq!(gcd(44100, 48000), 300);
    assert_eq!(gcd(7, 13), 1);
    assert_eq!(gcd(0, 5), 5);
    assert_eq!(gcd(5, 0), 5);
    assert_eq!(gcd(u32::MAX, u32::MAX), u32::MAX);
}

#[test]
fn ratio_is_in_lowest_terms() {
    let ratio = Ratio::new(rate(48000), rate(44100));
    assert_eq!((ratio.from, ratio.to), (160, 147));
    assert_eq!(ratio.downscale_factor(), 160);
    let ratio = Ratio::new(rate(24000), rate(48000));
    assert_eq!((ratio.from, ratio.to), (1, 2));
    assert_eq!(ratio.downscale_factor(), 2);
    let ratio = Ratio::new(rate(48000), rate(48000));
    assert_eq!((ratio.from, ratio.to), (1, 1));
}

#[test]
fn decompose_splits_the_prototype_into_reversed_phases() {
    let prototype: Vec<u32> = (0..8).collect();
    assert_eq!(decompose(&prototype, 3), vec![vec![6, 3, 0], vec![7, 4, 1], vec![5, 2]]);
    assert_eq!(decompose(&prototype, 1), vec![vec![7, 6, 5, 4, 3, 2, 1, 0]]);
    assert_eq!(decompose(&prototype[..2].to_vec(), 4), vec![vec![0], vec![1], vec![], vec![]]);
    assert_eq!(decompose(&Vec::new(), 2), vec![Vec::<u32>::new(), Vec::new()]);
}
