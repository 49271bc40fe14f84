use boop::convert::Converted;
use boop::source::wav::{Error, Format, WavPlayer};
use boop::Source;

fn header(audio_format: u16, channels: u16, sample_rate: u32, bits: u16) -> Vec<u8> {
    let mut file: Vec<u8> = Vec::new();
    file.extend_from_slice(b"RIFF");
    file.extend_from_slice(&0u32.to_le_bytes());
    file.extend_from_slice(b"WAVE");
    file.extend_from_slice(b"fmt ");
    file.extend_from_slice(&16u32.to_le_bytes());
    file.extend_from_slice(&audio_format.to_le_bytes());
    file.extend_from_slice(&channels.to_le_bytes());
    file.extend_from_slice(&sample_rate.to_le_bytes());
    let block_align: u16 = channels * (bits / 8);
    file.extend_from_slice(&(sample_rate * u32::from(block_align)).to_le_bytes());
    file.extend_from_slice(&block_align.to_le_bytes());
    file.extend_from_slice(&bits.to_le_bytes());
    file
}

fn chunk(mut file: Vec<u8>, tag: &[u8; 4], declared: u32, payload: &[u8]) -> Vec<u8> {
    file.extend_from_slice(tag);
    file.extend_from_slice(&declared.to_le_bytes());
    file.extend_from_slice(payload);
    file
}

fn with_data(file: Vec<u8>, data: &[u8]) -> Vec<u8> {
    chunk(file, b"data", data.len() as u32, data)
}

fn all_codes(player: &mut WavPlayer) -> Vec<i32> {
    let mut codes = vec![0i32; player.length()];
    let count = player.write_samples(&mut codes);
    codes.truncate(count);
    codes
}

/// The scaling that a player of float samples applies to a decoder's codes.
fn to_sample(format: Format, code: i32) -> f32 {
    match format.full_scale() {
        Some(scale) => match format {
            Format::I32 => (f64::from(code) / f64::from(scale)) as f32,
            _ => code as f32 / scale as f32,
        },
        None => f32::from_bits(code as u32),
    }
}

#[test]
fn decodes_two_channel_i16_frames_in_order() {
    let mut data: Vec<u8> = Vec::new();
    for value in [1i16, -1, 2, -2, 3, -3] {
        data.extend_from_slice(&value.to_le_bytes());
    }
    let mut player = WavPlayer::new(with_data(header(1, 2, 44100, 16), &data)).unwrap();
    assert_eq!(player.channel_count(), 2);
    assert_eq!(player.sample_rate(), 44100);
    assert_eq!(player.length(), 6);
    assert_eq!(player.format(), Format::I16);
    let mut codes = [0i32; 6];
    assert_eq!(player.write_samples(&mut codes), 6);
    assert_eq!(codes, [1, -1, 2, -2, 3, -3]);
    let samples: Vec<f32> = codes.iter().map(|code| to_sample(Format::I16, *code)).collect();
    let expected: Vec<f32> =
        [1.0f32, -1.0, 2.0, -2.0, 3.0, -3.0].iter().map(|v| v / 32767.0).collect();
    assert_eq!(samples, expected);
    assert_eq!(player.write_samples(&mut codes), 0);
}

#[test]
fn decodes_u8_around_the_midpoint() {
    let mut player =
        WavPlayer::new(with_data(header(1, 1, 8000, 8), &[0x80, 0xff, 0x00, 0x81, 0x7f])).unwrap();
    assert_eq!(player.format(), Format::U8);
    assert_eq!(player.length(), 5);
    assert_eq!(all_codes(&mut player), vec![0, 127, -128, 1, -1]);
    assert_eq!(to_sample(Format::U8, 127), 1.0);
    assert_eq!(to_sample(Format::U8, 0), 0.0);
    assert_eq!(to_sample(Format::U8, -128), -128.0 / 127.0);
}

#[test]
fn decodes_i24_with_its_sign() {
    let data = [
        0x01, 0x00, 0x00, // 1
        0xff, 0xff, 0xff, // -1
        0xff, 0xff, 0x7f, // 2^23 - 1
        0x00, 0x00, 0x80, // -2^23
        0x56, 0x34, 0x12, // 0x123456
    ];
    let mut player = WavPlayer::new(with_data(header(1, 1, 48000, 24), &data)).unwrap();
    assert_eq!(player.format(), Format::I24);
    assert_eq!(player.length(), 5);
    assert_eq!(all_codes(&mut player), vec![1, -1, 8388607, -8388608, 0x123456]);
    assert_eq!(to_sample(Format::I24, -8388608), -1.0);
    assert_eq!(to_sample(Format::I24, 4194304), 0.5);
}

#[test]
fn decodes_i32_over_its_whole_range() {
    let mut data: Vec<u8> = Vec::new();
    for value in [0i32, 1, -1, i32::MAX, i32::MIN, 0x01020304] {
        data.extend_from_slice(&value.to_le_bytes());
    }
    let mut player = WavPlayer::new(with_data(header(1, 2, 96000, 32), &data)).unwrap();
    assert_eq!(player.format(), Format::I32);
    assert_eq!(player.sample_rate(), 96000);
    assert_eq!(all_codes(&mut player), vec![0, 1, -1, i32::MAX, i32::MIN, 0x01020304]);
    assert_eq!(to_sample(Format::I32, i32::MAX), 1.0);
}

#[test]
fn hands_out_float_samples_bit_for_bit() {
    let signal = [0.0f32, 1.0, -1.0, 0.25, -0.333, 1.0e-20, f32::MAX];
    let mut data: Vec<u8> = Vec::new();
    for value in signal {
        data.extend_from_slice(&value.to_le_bytes());
    }
    let mut player = WavPlayer::new(with_data(header(3, 1, 44100, 32), &data)).unwrap();
    assert_eq!(player.format(), Format::F32);
    assert_eq!(player.format().full_scale(), None);
    let codes = all_codes(&mut player);
    let samples: Vec<f32> = codes.iter().map(|code| to_sample(Format::F32, *code)).collect();
    assert_eq!(samples, signal.to_vec());
}

#[test]
fn full_scale_of_each_format() {
    assert_eq!(Format::U8.full_scale(), Some(127));
    assert_eq!(Format::I16.full_scale(), Some(32767));
    assert_eq!(Format::I24.full_scale(), Some(8388608));
    assert_eq!(Format::I32.full_scale(), Some(2147483647));
    assert_eq!(Format::F32.full_scale(), None);
    assert_eq!(Format::U8.sample_bytes(), 1);
    assert_eq!(Format::I16.sample_bytes(), 2);
    assert_eq!(Format::I24.sample_bytes(), 3);
    assert_eq!(Format::I32.sample_bytes(), 4);
    assert_eq!(Format::F32.sample_bytes(), 4);
}

fn signal() -> Vec<f32> {
    (0..200).map(|i| (i as f32 * 0.37).sin() * 0.9).collect()
}

fn round_trip(format: Format, audio_format: u16, bits: u16, tolerance: f32) {
    let signal = signal();
    let mut data: Vec<u8> = Vec::new();
    for value in &signal {
        match format {
            Format::U8 => data.push(((value * 127.0).round() as i16 + 0x80) as u8),
            Format::I16 => {
                data.extend_from_slice(&((value * 32767.0).round() as i16).to_le_bytes())
            },
            Format::I24 => {
                let code = (f64::from(*value) * 8388608.0).round() as i32;
                data.extend_from_slice(&code.to_le_bytes()[0..3]);
            },
            Format::I32 => {
                let code = (f64::from(*value) * 2147483647.0).round() as i32;
                data.extend_from_slice(&code.to_le_bytes());
            },
            Format::F32 => data.extend_from_slice(&value.to_le_bytes()),
        }
    }
    let mut player = WavPlayer::new(with_data(header(audio_format, 1, 44100, bits), &data)).unwrap();
    assert_eq!(player.format(), format);
    let codes = all_codes(&mut player);
    assert_eq!(codes.len(), signal.len());
    for (code, value) in codes.iter().zip(signal.iter()) {
        let sample = to_sample(format, *code);
        assert!((sample - value).abs() <= tolerance);
    }
}

#[test]
fn round_trip_u8() {
    round_trip(Format::U8, 1, 8, 1.0 / 127.0);
}

#[test]
fn round_trip_i16() {
    round_trip(Format::I16, 1, 16, 1.0 / 32767.0);
}

#[test]
fn round_trip_i24() {
    round_trip(Format::I24, 1, 24, 1.0 / 8388608.0);
}

#[test]
fn round_trip_i32() {
    round_trip(Format::I32, 1, 32, 1.0 / 2147483648.0);
}

#[test]
fn round_trip_f32() {
    round_trip(Format::F32, 3, 32, 0.0);
}

#[test]
fn refuses_a_short_blob() {
    let file = header(1, 2, 44100, 16);
    assert_eq!(file.len(), 36);
    assert_eq!(WavPlayer::new(file[..35].to_vec()).err(), Some(Error::InvalidFile));
    assert_eq!(WavPlayer::new(Vec::new()).err(), Some(Error::InvalidFile));
}

#[test]
fn refuses_a_blob_without_riff_tag() {
    let mut file = with_data(header(1, 2, 44100, 16), &[0, 0]);
    file[0] = b'X';
    assert_eq!(WavPlayer::new(file).err(), Some(Error::InvalidFile));
}

#[test]
fn refuses_a_blob_without_wave_tag() {
    let mut file = with_data(header(1, 2, 44100, 16), &[0, 0]);
    file[11] = b'X';
    assert_eq!(WavPlayer::new(file).err(), Some(Error::InvalidFile));
}

#[test]
fn refuses_a_file_without_data_chunk() {
    assert_eq!(WavPlayer::new(header(1, 2, 44100, 16)).err(), Some(Error::InvalidFile));
    let file = chunk(header(1, 2, 44100, 16), b"LIST", 4, &[1, 2, 3, 4]);
    assert_eq!(WavPlayer::new(file).err(), Some(Error::InvalidFile));
    let mut file = header(1, 2, 44100, 16);
    file.extend_from_slice(b"data\x02\x00\x00");
    assert_eq!(WavPlayer::new(file).err(), Some(Error::InvalidFile));
}

#[test]
fn refuses_a_chunk_that_runs_past_the_end() {
    let file = chunk(header(1, 2, 44100, 16), b"LIST", 100, &[1, 2, 3, 4]);
    assert_eq!(WavPlayer::new(file).err(), Some(Error::InvalidFile));
    let file = chunk(header(1, 2, 44100, 16), b"LIST", u32::MAX, &[1, 2, 3, 4]);
    assert_eq!(WavPlayer::new(file).err(), Some(Error::InvalidFile));
}

#[test]
fn refuses_data_that_is_not_all_there() {
    let file = chunk(header(1, 2, 44100, 16), b"data", 8, &[1, 2, 3, 4]);
    assert_eq!(WavPlayer::new(file).err(), Some(Error::MalformedData));
}

#[test]
fn refuses_unknown_encodings() {
    for (audio_format, bits) in [(1u16, 12u16), (1, 0), (1, 64), (3, 16), (3, 64), (2, 16), (0, 8)] {
        let file = with_data(header(audio_format, 2, 44100, bits), &[0, 0, 0, 0]);
        assert_eq!(WavPlayer::new(file).err(), Some(Error::UnknownFormat));
    }
}

#[test]
fn reports_missing_data_before_an_unknown_encoding() {
    let file = chunk(header(7, 2, 44100, 16), b"data", 8, &[1, 2, 3, 4]);
    assert_eq!(WavPlayer::new(file).err(), Some(Error::MalformedData));
}

#[test]
fn steps_over_other_chunks() {
    let file = chunk(header(1, 1, 22050, 16), b"LIST", 3, &[9, 9, 9]);
    let file = chunk(file, b"fact", 0, &[]);
    let file = with_data(file, &[5, 0, 6, 0]);
    let mut player = WavPlayer::new(file).unwrap();
    assert_eq!(player.sample_rate(), 22050);
    assert_eq!(player.length(), 2);
    assert_eq!(all_codes(&mut player), vec![5, 6]);
}

#[test]
fn ignores_bytes_behind_the_data() {
    let mut file = with_data(header(1, 1, 44100, 16), &[5, 0, 6, 0]);
    file.extend_from_slice(&[7, 0, 8, 0, 9]);
    let mut player = WavPlayer::new(file).unwrap();
    assert_eq!(player.length(), 2);
    let mut codes = [0i32; 8];
    assert_eq!(player.write_samples(&mut codes), 2);
    assert_eq!(codes, [5, 6, 0, 0, 0, 0, 0, 0]);
}

#[test]
fn ignores_a_last_sample_that_is_cut_off() {
    let mut player = WavPlayer::new(with_data(header(1, 1, 44100, 16), &[5, 0, 6, 0, 7])).unwrap();
    assert_eq!(player.length(), 2);
    assert_eq!(all_codes(&mut player), vec![5, 6]);
    let mut codes = [0i32; 2];
    assert_eq!(player.write_samples(&mut codes), 0);
}

#[test]
fn empty_data_is_an_exhausted_source() {
    let mut player = WavPlayer::new(with_data(header(1, 2, 44100, 16), &[])).unwrap();
    assert_eq!(player.length(), 0);
    let mut codes = [3i32; 4];
    assert_eq!(player.write_samples(&mut codes), 0);
    assert_eq!(codes, [3, 3, 3, 3]);
}

#[test]
fn a_short_pull_is_final() {
    let mut data: Vec<u8> = Vec::new();
    for value in 0..10i16 {
        data.extend_from_slice(&value.to_le_bytes());
    }
    let mut player = WavPlayer::new(with_data(header(1, 2, 44100, 16), &data)).unwrap();
    let mut codes = [-1i32; 4];
    assert_eq!(player.write_samples(&mut codes), 4);
    assert_eq!(codes, [0, 1, 2, 3]);
    assert_eq!(player.write_samples(&mut codes), 4);
    assert_eq!(codes, [4, 5, 6, 7]);
    assert_eq!(player.write_samples(&mut codes), 2);
    assert_eq!(codes, [8, 9, 6, 7]);
    for _ in 0..3 {
        assert_eq!(player.write_samples(&mut codes), 0);
        assert_eq!(codes, [8, 9, 6, 7]);
    }
    assert_eq!(player.length(), 10);
}

#[test]
fn an_empty_buffer_takes_nothing() {
    let mut player = WavPlayer::new(with_data(header(1, 1, 44100, 8), &[1, 2, 3])).unwrap();
    let mut none: [i32; 0] = [];
    assert_eq!(player.write_samples(&mut none), 0);
    let mut codes = [0i32; 3];
    assert_eq!(player.write_samples(&mut codes), 3);
    assert_eq!(codes, [-127, -126, -125]);
}

#[test]
fn a_clone_plays_from_the_same_place() {
    let mut player = WavPlayer::new(with_data(header(1, 1, 44100, 8), &[128, 129, 130, 131])).unwrap();
    let mut codes = [0i32; 2];
    assert_eq!(player.write_samples(&mut codes), 2);
    let mut copy = player.clone();
    assert_eq!(copy.write_samples(&mut codes), 2);
    assert_eq!(codes, [2, 3]);
    assert_eq!(player.write_samples(&mut codes), 2);
    assert_eq!(codes, [2, 3]);
}

#[test]
fn a_decoder_plays_floats_through_a_conversion() {
    let mut data: Vec<u8> = Vec::new();
    for value in [16384i16, -16384, 32767, -32767, 0] {
        data.extend_from_slice(&value.to_le_bytes());
    }
    let player = WavPlayer::new(with_data(header(1, 1, 44100, 16), &data)).unwrap();
    let format = player.format();
    let mut source = Converted::new(player, 0, move |code: i32| to_sample(format, code));
    assert_eq!(source.channel_count(), 1);
    let mut buffer = [9.0f32; 4];
    assert_eq!(source.write_samples(&mut buffer), 4);
    assert_eq!(buffer, [16384.0 / 32767.0, -16384.0 / 32767.0, 1.0, -1.0]);
    assert_eq!(source.write_samples(&mut buffer), 1);
    assert_eq!(buffer, [0.0, -16384.0 / 32767.0, 1.0, -1.0]);
    assert_eq!(source.write_samples(&mut buffer), 0);
}

#[test]
fn a_file_without_channels_still_tells_its_channel_count() {
    let player = WavPlayer::new(with_data(header(1, 0, 44100, 16), &[1, 0, 2, 0])).unwrap();
    assert_eq!(player.channel_count(), 0);
    assert_eq!(player.length(), 2);
    assert_eq!(player.sample_rate(), 44100);
}
