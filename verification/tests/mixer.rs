use udon::mixer::{Error, Mixer};
use udon::player::Player;
use udon::source::{ChannelCount, Sample, SampleRate, Source};

fn add(a: u32, b: u32) -> u32 {
    (f32::from_bits(a) + f32::from_bits(b)).to_bits()
}

fn floats(values: &[u32]) -> Vec<f32> {
    values.iter().map(|v| f32::from_bits(*v)).collect()
}

fn rate() -> SampleRate {
    SampleRate::new(48000).unwrap()
}

struct Constant(f32);

impl Source for Constant {
    fn channel_count(&self) -> ChannelCount {
        ChannelCount::mono()
    }

    fn sample_rate(&self) -> SampleRate {
        rate()
    }

    fn write_samples(&mut self, buffer: &mut [Sample]) -> usize {
        for sample in buffer.iter_mut() {
            *sample = self.0.to_bits();
        }
        buffer.len()
    }

    fn reset(&mut self) {}
}

fn player(values: &[f32]) -> Player {
    Player::new(values.iter().map(|v| v.to_bits()).collect(), ChannelCount::mono())
}

#[test]
fn mixer_sum() {
    let (mut mixer, handle) = Mixer::new(rate(), ChannelCount::mono(), add);
    let first = handle.add(Constant(0.1)).unwrap();
    let second = handle.add(Constant(0.2)).unwrap();
    let mut out = [f32::NAN.to_bits(); 4];
    assert_eq!(mixer.write_samples(&mut out), 4);
    for sample in floats(&out) {
        assert!((sample - 0.3).abs() < 1e-6);
        assert_eq!(sample, 0.0 + 0.1f32 + 0.2f32);
    }
    assert!(first.is_running());
    assert!(second.is_running());
}

#[test]
fn mixer_without_sounds_plays_silence() {
    let (mut mixer, _handle) = Mixer::<Player, _>::new(rate(), ChannelCount::stereo(), add);
    let mut out = [f32::NAN.to_bits(); 6];
    assert_eq!(mixer.write_samples(&mut out), 6);
    assert_eq!(out, [0u32; 6]);
    assert_eq!(mixer.channel_count().get(), 2);
    assert_eq!(mixer.sample_rate().get(), 48000);
}

#[test]
fn mixer_adds_sample_by_sample_while_both_play() {
    let (mut mixer, handle) = Mixer::<Player, _>::new(rate(), ChannelCount::mono(), add);
    handle.add(player(&[1.0, 2.0, 3.0, 4.0])).unwrap();
    handle.add(player(&[10.0, 20.0, 30.0, 40.0])).unwrap();
    let mut out = [0u32; 2];
    assert_eq!(mixer.write_samples(&mut out), 2);
    assert_eq!(floats(&out), vec![11.0, 22.0]);
    assert_eq!(mixer.write_samples(&mut out), 2);
    assert_eq!(floats(&out), vec![33.0, 44.0]);
}

#[test]
fn mixer_drops_a_sound_that_ends() {
    let (mut mixer, handle) = Mixer::<Player, _>::new(rate(), ChannelCount::mono(), add);
    let short = handle.add(player(&[1.0, 1.0, 1.0])).unwrap();
    let long = handle.add(player(&[2.0; 8])).unwrap();
    assert!(short.is_running());
    let mut out = [0u32; 4];
    assert_eq!(mixer.write_samples(&mut out), 4);
    assert_eq!(floats(&out), vec![3.0, 3.0, 3.0, 2.0]);
    assert!(!short.is_running());
    assert!(long.is_running());
    assert_eq!(mixer.write_samples(&mut out), 4);
    assert_eq!(floats(&out), vec![2.0, 2.0, 2.0, 2.0]);
    assert!(long.is_running());
    assert_eq!(mixer.write_samples(&mut out), 4);
    assert_eq!(floats(&out), vec![0.0, 0.0, 0.0, 0.0]);
    assert!(!long.is_running());
}

#[test]
fn mixer_drops_a_sound_that_was_stopped() {
    let (mut mixer, handle) = Mixer::new(rate(), ChannelCount::mono(), add);
    let mut first = handle.add(Constant(1.0)).unwrap();
    let second = handle.add(Constant(2.0)).unwrap();
    let mut out = [0u32; 2];
    mixer.write_samples(&mut out);
    assert_eq!(floats(&out), vec![3.0, 3.0]);
    first.stop();
    first.stop();
    assert!(first.is_running());
    mixer.write_samples(&mut out);
    assert_eq!(floats(&out), vec![2.0, 2.0]);
    assert!(!first.is_running());
    assert!(second.is_running());
}

#[test]
fn mixer_takes_additions_in_at_the_next_pull() {
    let (mut mixer, handle) = Mixer::new(rate(), ChannelCount::mono(), add);
    let mut out = [0u32; 1];
    mixer.write_samples(&mut out);
    assert_eq!(floats(&out), vec![0.0]);
    handle.add(Constant(0.5)).unwrap();
    let other = handle.duplicate();
    other.add(Constant(0.25)).unwrap();
    mixer.write_samples(&mut out);
    assert_eq!(floats(&out), vec![0.75]);
}

#[test]
fn mixer_handle_fails_once_the_mixer_is_gone() {
    let (mixer, handle) = Mixer::new(rate(), ChannelCount::mono(), add);
    drop(mixer);
    assert!(matches!(handle.add(Constant(0.5)), Err(Error::SendError)));
}

#[test]
fn mixer_reset_rewinds_its_sounds() {
    let (mut mixer, handle) = Mixer::<Player, _>::new(rate(), ChannelCount::mono(), add);
    handle.add(player(&[1.0, 2.0, 3.0, 4.0])).unwrap();
    let mut out = [0u32; 2];
    mixer.write_samples(&mut out);
    mixer.reset();
    mixer.write_samples(&mut out);
    assert_eq!(floats(&out), vec![1.0, 2.0]);
}

#[test]
fn mix_sound_adds_one_sound_to_what_the_buffer_holds() {
    let (mut mixer, handle) = Mixer::<Player, _>::new(rate(), ChannelCount::mono(), add);
    handle.add(player(&[1.0, 2.0, 3.0])).unwrap();
    mixer.write_samples(&mut [0u32; 0]);
    let mut out: Vec<u32> = [10.0f32, 20.0].iter().map(|v| v.to_bits()).collect();
    assert!(mixer.mix_sound(0, false, &mut out));
    assert_eq!(floats(&out), vec![11.0, 22.0]);
    assert!(!mixer.mix_sound(0, true, &mut out));
    assert_eq!(floats(&out), vec![11.0, 22.0]);
    assert!(!mixer.mix_sound(0, false, &mut out));
    assert_eq!(floats(&out), vec![14.0, 22.0]);
}

#[test]
fn outcome_is_the_handle_or_the_send_error() {
    let (_mixer, handle) = Mixer::new(rate(), ChannelCount::mono(), add);
    let first = handle.add(Constant(0.5)).unwrap();
    assert!(udon::mixer::outcome(true, first).is_ok());
    let second = handle.add(Constant(0.5)).unwrap();
    assert!(matches!(udon::mixer::outcome(false, second), Err(Error::SendError)));
}

#[test]
fn sound_and_its_handle_share_their_flags() {
    let (mut mixer, handle) = Mixer::<Player, _>::new(rate(), ChannelCount::mono(), add);
    handle.add(player(&[1.0, 2.0, 3.0, 4.0])).unwrap();
    mixer.write_samples(&mut [0u32; 0]);
    let (sound, mut caller) = udon::mixer::Sound::new(player(&[10.0, 20.0, 30.0]));
    assert!(caller.is_running());
    mixer.take_in(vec![sound]);
    let mut out = [0u32; 2];
    mixer.write_samples(&mut out);
    assert_eq!(floats(&out), vec![11.0, 22.0]);
    assert!(caller.is_running());
    mixer.write_samples(&mut out);
    assert_eq!(floats(&out), vec![33.0, 4.0]);
    assert!(!caller.is_running());
    let (sound, mut stopped) = udon::mixer::Sound::new(player(&[5.0, 5.0, 5.0, 5.0]));
    mixer.take_in(vec![sound]);
    stopped.stop();
    mixer.write_samples(&mut out);
    assert_eq!(floats(&out), vec![0.0, 0.0]);
    assert!(!stopped.is_running());
    caller.stop();
    assert!(!caller.is_running());
}
