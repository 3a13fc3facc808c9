use udon::error::Error;
use udon::player::Player;
use udon::session::alsa::{WriteAction, WriteCursor, BUFFER_FRAMES, PERIOD_FRAMES};
use udon::session::sio::{choose_format, choose_layout, choose_sample_rate, deinterleave};
use udon::session::wasapi::{
    mix_format, read_endpoint_hresult, read_hresult, read_initialize_hresult, Action, Event, Playback,
    AUDCLNT_E_DEVICE_INVALIDATED, AUDCLNT_E_UNSUPPORTED_FORMAT, ERROR_NOT_FOUND, GUID, WAVEFORMATEX,
    WAVEFORMATEXTENSIBLE,
};
use udon::session::{write_source, Api, SampleFormat, Session};
use udon::source::{ChannelCount, Source};

fn bits(values: &[f32]) -> Vec<u32> {
    values.iter().map(|v| v.to_bits()).collect()
}

fn subtype(tag: u32) -> GUID {
    GUID { data1: tag, data2: 0, data3: 16, data4: [128, 0, 0, 170, 0, 56, 155, 113] }
}

fn wave_format(tag: u16, channels: u16, rate: u32, bits: u16, sub: GUID) -> WAVEFORMATEXTENSIBLE {
    WAVEFORMATEXTENSIBLE {
        Format: WAVEFORMATEX {
            wFormatTag: tag,
            nChannels: channels,
            nSamplesPerSec: rate,
            nAvgBytesPerSec: rate * u32::from(channels) * u32::from(bits / 8),
            nBlockAlign: channels * (bits / 8),
            wBitsPerSample: bits,
            cbSize: 22,
        },
        Samples: bits,
        dwChannelMask: 3,
        SubFormat: sub,
    }
}

#[test]
fn dummy_session_plays_nothing_and_succeeds() {
    let session = Session::new(Api::Dummy).unwrap();
    let device = session.default_output_device().unwrap();
    assert_eq!(device.channel_count().get(), 2);
    assert_eq!(device.sample_rate().get(), 48000);
    let stream = session.open_output_stream(device).unwrap();
    let source = Player::new(bits(&[1.0, 2.0]), ChannelCount::stereo());
    assert!(stream.play(source).is_ok());
}

#[test]
fn other_apis_are_not_available() {
    for api in [Api::SoundIo, Api::Wasapi, Api::Alsa] {
        assert!(matches!(Session::new(api), Err(Error::ApiNotAvailable)));
    }
}

#[test]
fn write_source_pads_a_short_read_with_silence() {
    let mut source = Player::new(bits(&[1.0, 2.0, 3.0]), ChannelCount::mono());
    let mut out = [9u32; 2];
    assert_eq!(write_source(&mut source, &mut out), 2);
    assert_eq!(out.to_vec(), bits(&[1.0, 2.0]));
    let mut out = [9u32; 4];
    assert_eq!(write_source(&mut source, &mut out), 1);
    assert_eq!(out.to_vec(), bits(&[3.0, 0.0, 0.0, 0.0]));
    let mut out = [9u32; 2];
    assert_eq!(write_source(&mut source, &mut out), 0);
    assert_eq!(out, [0, 0]);
}

#[test]
fn mix_format_reads_plain_and_extensible_formats() {
    let plain = mix_format(&wave_format(1, 2, 44100, 16, subtype(0))).unwrap();
    assert_eq!(plain.sample_format, SampleFormat::I16);
    assert_eq!(plain.channels.get(), 2);
    assert_eq!(plain.sample_rate.get(), 44100);
    let float = mix_format(&wave_format(3, 6, 48000, 32, subtype(0))).unwrap();
    assert_eq!(float.sample_format, SampleFormat::F32);
    assert_eq!(float.channels.get(), 6);
    let extensible = mix_format(&wave_format(0xFFFE, 2, 48000, 32, subtype(3))).unwrap();
    assert_eq!(extensible.sample_format, SampleFormat::F32);
    let extensible = mix_format(&wave_format(0xFFFE, 2, 48000, 16, subtype(1))).unwrap();
    assert_eq!(extensible.sample_format, SampleFormat::I16);
}

#[test]
fn mix_format_refuses_what_cannot_be_played() {
    let refused = [
        wave_format(1, 2, 44100, 24, subtype(0)),
        wave_format(3, 2, 44100, 64, subtype(0)),
        wave_format(2, 2, 44100, 16, subtype(0)),
        wave_format(0xFFFE, 2, 48000, 32, subtype(1)),
        wave_format(0xFFFE, 2, 48000, 16, subtype(3)),
        wave_format(0xFFFE, 2, 48000, 24, subtype(1)),
        wave_format(1, 0, 44100, 16, subtype(0)),
        wave_format(1, 2, 0, 16, subtype(0)),
        wave_format(
            0xFFFE,
            2,
            48000,
            32,
            GUID { data1: 3, data2: 0, data3: 16, data4: [128, 0, 0, 170, 0, 56, 155, 114] },
        ),
        wave_format(
            0xFFFE,
            2,
            48000,
            32,
            GUID { data1: 3, data2: 1, data3: 16, data4: [128, 0, 0, 170, 0, 56, 155, 113] },
        ),
    ];
    for format in refused.iter() {
        assert!(matches!(mix_format(format), Err(Error::DeviceNotUsable)));
    }
}

#[test]
fn result_codes_are_sorted_into_errors() {
    assert!(read_hresult(0).is_ok());
    assert_eq!(read_hresult(AUDCLNT_E_DEVICE_INVALIDATED), Err(Error::DeviceNotAvailable));
    assert_eq!(read_hresult(AUDCLNT_E_UNSUPPORTED_FORMAT), Err(Error::Unknown));
    assert_eq!(read_hresult(1), Err(Error::Unknown));
    assert!(read_endpoint_hresult(0).is_ok());
    assert_eq!(read_endpoint_hresult(ERROR_NOT_FOUND), Err(Error::NoOutputDevice));
    assert_eq!(read_endpoint_hresult(AUDCLNT_E_DEVICE_INVALIDATED), Err(Error::Unknown));
    assert!(read_initialize_hresult(0).is_ok());
    assert_eq!(read_initialize_hresult(AUDCLNT_E_DEVICE_INVALIDATED), Err(Error::DeviceNotAvailable));
    assert_eq!(read_initialize_hresult(AUDCLNT_E_UNSUPPORTED_FORMAT), Err(Error::DeviceNotUsable));
    assert_eq!(read_initialize_hresult(ERROR_NOT_FOUND), Err(Error::Unknown));
}

#[test]
fn playback_streams_until_the_source_ends_and_then_drains() {
    let mut playback = Playback::new(100, ChannelCount::stereo());
    assert_eq!(playback.step(Event::Begin), Action::Write { frames: 100 });
    assert_eq!(playback.step(Event::Written { samples: 200 }), Action::Start);
    assert_eq!(playback.step(Event::Started), Action::Wait);
    assert_eq!(playback.step(Event::Woken { padding: 100 }), Action::Wait);
    assert_eq!(playback.step(Event::Woken { padding: 60 }), Action::Write { frames: 40 });
    assert_eq!(playback.step(Event::Written { samples: 80 }), Action::Wait);
    assert_eq!(playback.step(Event::Woken { padding: 70 }), Action::Write { frames: 30 });
    assert_eq!(playback.step(Event::Written { samples: 21 }), Action::Wait);
    assert_eq!(playback.step(Event::Woken { padding: 50 }), Action::Silence { frames: 50 });
    assert_eq!(playback.step(Event::Released), Action::Wait);
    assert!(!playback.is_done());
    assert_eq!(playback.step(Event::Woken { padding: 70 }), Action::Silence { frames: 30 });
    assert_eq!(playback.step(Event::Released), Action::Stop);
    assert!(playback.is_done());
}

#[test]
fn playback_of_a_short_source_drains_right_after_the_start() {
    let mut playback = Playback::new(100, ChannelCount::mono());
    assert_eq!(playback.step(Event::Begin), Action::Write { frames: 100 });
    assert_eq!(playback.step(Event::Written { samples: 0 }), Action::Start);
    assert_eq!(playback.step(Event::Started), Action::Stop);
    assert!(playback.is_done());
    let mut playback = Playback::new(100, ChannelCount::mono());
    playback.step(Event::Begin);
    playback.step(Event::Written { samples: 99 });
    assert_eq!(playback.step(Event::Started), Action::Wait);
    assert_eq!(playback.step(Event::Woken { padding: 0 }), Action::Silence { frames: 100 });
    assert_eq!(playback.step(Event::Released), Action::Stop);
}

#[test]
fn playback_ends_on_an_event_out_of_turn() {
    let mut playback = Playback::new(100, ChannelCount::mono());
    assert_eq!(playback.step(Event::Started), Action::Stop);
    assert!(playback.is_done());
    assert_eq!(playback.step(Event::Begin), Action::Stop);
    let mut playback = Playback::new(100, ChannelCount::mono());
    playback.step(Event::Begin);
    assert_eq!(playback.step(Event::Woken { padding: 1 }), Action::Stop);
}

#[test]
fn playback_takes_more_padding_than_the_buffer_as_no_free_frame() {
    let mut playback = Playback::new(10, ChannelCount::mono());
    playback.step(Event::Begin);
    playback.step(Event::Written { samples: 10 });
    playback.step(Event::Started);
    assert_eq!(playback.step(Event::Woken { padding: 11 }), Action::Wait);
}

#[test]
fn layout_is_the_first_stereo_one_or_else_the_widest() {
    assert_eq!(choose_layout(&[]), None);
    assert_eq!(choose_layout(&[8, 6, 2, 1, 2]), Some(2));
    assert_eq!(choose_layout(&[2]), Some(0));
    assert_eq!(choose_layout(&[1]), Some(0));
    assert_eq!(choose_layout(&[6, 8, 8, 4]), Some(1));
    assert_eq!(choose_layout(&[4, 4]), Some(0));
}

#[test]
fn sample_rate_is_the_highest_up_to_the_preferred_one() {
    assert_eq!(choose_sample_rate(&[]), None);
    assert_eq!(choose_sample_rate(&[44100]), Some(44100));
    assert_eq!(choose_sample_rate(&[8000, 44100, 22050]), Some(44100));
    assert_eq!(choose_sample_rate(&[44100, 96000]), Some(48000));
    assert_eq!(choose_sample_rate(&[192000]), Some(48000));
    assert_eq!(choose_sample_rate(&[48000, 44100]), Some(48000));
}

#[test]
fn format_is_the_highest_that_is_no_wider_than_32_bits() {
    assert_eq!(choose_format(&[]), None);
    assert_eq!(choose_format(&[3, 15, 11]), Some(15));
    assert_eq!(choose_format(&[3, 17, 16, 18]), Some(16));
    assert_eq!(choose_format(&[17, 3, 15]), Some(17));
    assert_eq!(choose_format(&[18]), Some(18));
    assert_eq!(choose_format(&[15, 15]), Some(15));
}

#[test]
fn deinterleave_gives_each_channel_its_samples_and_then_silence() {
    let samples = bits(&[1.0, 2.0, 3.0, 4.0, 5.0]);
    assert_eq!(deinterleave(&samples, 2, 0, 4), bits(&[1.0, 3.0, 0.0, 0.0]));
    assert_eq!(deinterleave(&samples, 2, 1, 4), bits(&[2.0, 4.0, 0.0, 0.0]));
    assert_eq!(deinterleave(&samples, 2, 1, 1), bits(&[2.0]));
    assert_eq!(deinterleave(&samples, 1, 0, 5), samples);
    assert_eq!(deinterleave(&[], 3, 2, 2), bits(&[0.0, 0.0]));
    assert_eq!(deinterleave(&samples, 2, 0, 0), Vec::<u32>::new());
}

#[test]
fn sources_keep_their_attributes_through_write_source() {
    let mut source = Player::new(bits(&[1.0, 2.0, 3.0]), ChannelCount::stereo());
    let mut out = [0u32; 8];
    write_source(&mut source, &mut out);
    assert_eq!(source.channel_count().get(), 2);
    assert_eq!(source.sample_rate().get(), 48000);
}

#[test]
fn write_cursor_goes_on_behind_what_the_device_took() {
    let mut cursor = WriteCursor::new(2, 512, 512);
    assert_eq!(cursor.range(), (0, 512));
    assert_eq!(cursor.written(100), WriteAction::Retry);
    assert_eq!(cursor.range(), (200, 512));
    assert_eq!(cursor.written(50), WriteAction::Retry);
    assert_eq!(cursor.range(), (300, 512));
    assert_eq!(cursor.written(0), WriteAction::Retry);
    assert_eq!(cursor.range(), (300, 512));
    assert_eq!(cursor.written(106), WriteAction::Refill);
    cursor.refilled(512);
    assert_eq!(cursor.range(), (0, 512));
    assert_eq!(cursor.written(256), WriteAction::Refill);
    cursor.refilled(40);
    assert_eq!(cursor.range(), (0, 40));
    assert_eq!(cursor.written(5), WriteAction::Retry);
    assert_eq!(cursor.range(), (10, 40));
    assert_eq!(cursor.written(15), WriteAction::Drain);
}

#[test]
fn write_cursor_drains_at_once_where_the_source_gave_nothing() {
    let mut cursor = WriteCursor::new(2, 512, 0);
    assert_eq!(cursor.range(), (0, 0));
    assert_eq!(cursor.written(0), WriteAction::Drain);
    assert_eq!((BUFFER_FRAMES, PERIOD_FRAMES), (256, 64));
}
