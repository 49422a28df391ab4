use std::io::Cursor;

use voicetyper::audio::{
    can_resample, capture_i16, capture_u16, encode_wav_16k_mono, frames_of, len_at_16k, rms,
    sample_of_i16, sample_of_u16, to_16k_mono,
};

fn bits(samples: &[f32]) -> Vec<u32> {
    samples.iter().map(|s| s.to_bits()).collect()
}

fn floats(samples: &[u32]) -> Vec<f32> {
    samples.iter().map(|b| f32::from_bits(*b)).collect()
}

fn loudness(samples: &[f32]) -> f32 {
    f32::from_bits(rms(&bits(samples)))
}

fn mono16k(samples: &[f32], in_rate: u32, channels: u16) -> Vec<f32> {
    floats(&to_16k_mono(&bits(samples), in_rate, channels))
}

/// A small generator of repeatable values.
struct Values(u64);

impl Values {
    fn next(&mut self) -> u32 {
        self.0 = self.0.wrapping_mul(6364136223846793005).wrapping_add(1442695040888963407);
        (self.0 >> 32) as u32
    }

    fn sample(&mut self) -> f32 {
        (self.next() as f32 / u32::MAX as f32) * 2.0 - 1.0
    }
}

fn reference_rms(samples: &[f32]) -> f32 {
    if samples.is_empty() {
        return 0.0;
    }
    (samples.iter().map(|s| s * s).sum::<f32>() / samples.len() as f32).sqrt()
}

fn reference_16k(samples: &[f32], in_rate: u32, channels: u16) -> Vec<f32> {
    let ch = channels.max(1) as usize;
    let mono: Vec<f32> = if ch > 1 {
        samples.chunks(ch).map(|f| f.iter().sum::<f32>() / ch as f32).collect()
    } else {
        samples.to_vec()
    };
    if in_rate == 16_000 || mono.is_empty() {
        return mono;
    }
    let ratio = in_rate as f32 / 16_000.0;
    let out_len = (mono.len() as f32 / ratio) as usize;
    let mut out = Vec::new();
    for i in 0..out_len {
        let start = (i as f32 * ratio) as usize;
        let end = (((i + 1) as f32 * ratio) as usize).min(mono.len()).max(start + 1);
        let slice = &mono[start..end.min(mono.len())];
        out.push(slice.iter().sum::<f32>() / slice.len() as f32);
    }
    out
}

/// Equal as numbers, or both not a number.
fn same(a: f32, b: f32) -> bool {
    a == b || (a.is_nan() && b.is_nan())
}

fn all_same(a: &[f32], b: &[f32]) -> bool {
    a.len() == b.len() && a.iter().zip(b).all(|(x, y)| same(*x, *y))
}

#[test]
fn rms_of_empty_is_zero() {
    assert_eq!(loudness(&[]), 0.0);
}

#[test]
fn rms_of_silence_is_zero() {
    assert_eq!(loudness(&[0.0; 100]), 0.0);
}

#[test]
fn rms_of_square_wave_equals_amplitude() {
    assert!((loudness(&[0.5, -0.5, 0.5, -0.5]) - 0.5).abs() < 1e-6);
}

#[test]
fn to_16k_mono_passthrough_when_already_mono_16k() {
    let input = [0.1, 0.2, 0.3];
    assert_eq!(mono16k(&input, 16_000, 1), input);
}

#[test]
fn to_16k_mono_empty_input_is_empty() {
    assert!(mono16k(&[], 48_000, 2).is_empty());
}

#[test]
fn to_16k_mono_downmixes_stereo_pairs() {
    let stereo = [0.0, 1.0, 0.5, 0.5];
    assert_eq!(mono16k(&stereo, 16_000, 2), vec![0.5, 0.5]);
}

#[test]
fn to_16k_mono_resamples_48k_to_one_third_length() {
    let input = [0.0, 0.0, 0.0, 1.0, 1.0, 1.0];
    assert_eq!(mono16k(&input, 48_000, 1), vec![0.0, 1.0]);
}

#[test]
fn encode_wav_roundtrips_spec_and_samples() {
    let bytes = encode_wav_16k_mono(&bits(&[0.0, 0.5, -0.5, 1.0]));
    let reader = hound::WavReader::new(Cursor::new(bytes)).expect("valid wav");
    let spec = reader.spec();
    assert_eq!(spec.channels, 1);
    assert_eq!(spec.sample_rate, 16_000);
    assert_eq!(spec.bits_per_sample, 16);
    let samples: Vec<i16> = reader.into_samples::<i16>().map(|s| s.unwrap()).collect();
    assert_eq!(samples, vec![0, 16383, -16383, i16::MAX]);
}

#[test]
fn encode_wav_clamps_out_of_range_samples() {
    let bytes = encode_wav_16k_mono(&bits(&[2.0, -2.0]));
    let reader = hound::WavReader::new(Cursor::new(bytes)).unwrap();
    let samples: Vec<i16> = reader.into_samples::<i16>().map(|s| s.unwrap()).collect();
    assert_eq!(samples, vec![i16::MAX, -i16::MAX]);
}

#[test]
fn encode_wav_writes_these_bytes() {
    let bytes = encode_wav_16k_mono(&bits(&[1.0, -1.0, f32::NAN]));
    let mut expected: Vec<u8> = Vec::new();
    expected.extend_from_slice(b"RIFF");
    expected.extend_from_slice(&42u32.to_le_bytes());
    expected.extend_from_slice(b"WAVEfmt ");
    expected.extend_from_slice(&16u32.to_le_bytes());
    expected.extend_from_slice(&1u16.to_le_bytes());
    expected.extend_from_slice(&1u16.to_le_bytes());
    expected.extend_from_slice(&16_000u32.to_le_bytes());
    expected.extend_from_slice(&32_000u32.to_le_bytes());
    expected.extend_from_slice(&2u16.to_le_bytes());
    expected.extend_from_slice(&16u16.to_le_bytes());
    expected.extend_from_slice(b"data");
    expected.extend_from_slice(&6u32.to_le_bytes());
    expected.extend_from_slice(&[0xff, 0x7f, 0x01, 0x80, 0x00, 0x00]);
    assert_eq!(bytes, expected);
}

#[test]
fn encode_wav_levels_are_those_of_single_precision() {
    let mut values = Values(3);
    let mut samples: Vec<f32> = Vec::new();
    for _ in 0..20_000 {
        samples.push(values.sample());
        samples.push(f32::from_bits(values.next()));
    }
    let bytes = encode_wav_16k_mono(&bits(&samples));
    for (i, s) in samples.iter().enumerate() {
        let level = i16::from_le_bytes([bytes[44 + 2 * i], bytes[45 + 2 * i]]);
        assert_eq!(level, (s.clamp(-1.0, 1.0) * i16::MAX as f32) as i16, "sample {s}");
    }
}

#[test]
fn rms_is_that_of_single_precision() {
    let mut values = Values(11);
    for round in 0..300usize {
        let block: Vec<f32> = (0..round).map(|_| values.sample()).collect();
        assert!(same(loudness(&block), reference_rms(&block)));
        let quiet: Vec<f32> = block.iter().map(|s| s * 1e-21).collect();
        assert!(same(loudness(&quiet), reference_rms(&quiet)));
    }
    for _ in 0..3_000 {
        let n = (values.next() % 6) as usize;
        let block: Vec<f32> = (0..n).map(|_| f32::from_bits(values.next())).collect();
        assert!(same(loudness(&block), reference_rms(&block)), "{block:?}");
    }
}

#[test]
fn rms_of_infinite_and_undefined_samples() {
    assert_eq!(loudness(&[f32::NEG_INFINITY, 0.5]), f32::INFINITY);
    assert!(loudness(&[f32::NAN, 0.5]).is_nan());
    assert_eq!(loudness(&[3e38, 3e38]), f32::INFINITY);
}

#[test]
fn resampling_is_that_of_single_precision() {
    let mut values = Values(5);
    let rates = [1u32, 8_000, 11_025, 15_999, 16_001, 22_050, 32_000, 44_100, 48_000, 96_000];
    for rate in rates {
        for channels in [0u16, 1, 2, 3, 6] {
            let n = if rate == 1 { 3 } else { 500 + (values.next() % 500) as usize };
            let samples: Vec<f32> = (0..n).map(|_| values.sample()).collect();
            assert!(all_same(
                &mono16k(&samples, rate, channels),
                &reference_16k(&samples, rate, channels)
            ));
        }
    }
}

#[test]
fn means_of_any_samples_are_those_of_single_precision() {
    let mut values = Values(7);
    for _ in 0..500 {
        let samples: Vec<f32> = (0..24).map(|_| f32::from_bits(values.next())).collect();
        assert!(all_same(&mono16k(&samples, 16_000, 2), &reference_16k(&samples, 16_000, 2)));
        assert!(all_same(&mono16k(&samples, 48_000, 1), &reference_16k(&samples, 48_000, 1)));
    }
}

#[test]
fn a_last_frame_cut_short_counts_as_full() {
    assert_eq!(mono16k(&[1.0, 1.0, 1.0], 16_000, 2), vec![1.0, 0.5]);
}

#[test]
fn a_long_recording_at_44_100_resamples_as_in_single_precision() {
    let mut values = Values(9);
    let samples: Vec<f32> = (0..200_000).map(|_| values.sample()).collect();
    assert!(all_same(&mono16k(&samples, 44_100, 1), &reference_16k(&samples, 44_100, 1)));
}

#[test]
fn what_can_be_resampled() {
    assert!(can_resample(0, 0));
    assert!(!can_resample(1, 0));
    assert!(can_resample(usize::MAX, 16_000));
    assert!(can_resample(480_000, 48_000));
    assert!(can_resample(80_000, 8_000));
}

#[test]
fn microphone_formats_are_scaled() {
    for s in -i16::MAX..=i16::MAX {
        assert_eq!(f32::from_bits(sample_of_i16(s)), s as f32 / i16::MAX as f32);
    }
    assert_eq!(f32::from_bits(sample_of_i16(i16::MIN)), -1.0);
    for s in 0..=u16::MAX {
        assert_eq!(
            f32::from_bits(sample_of_u16(s)),
            (s as f32 / u16::MAX as f32) * 2.0 - 1.0
        );
    }
}

#[test]
fn captured_samples_follow_those_before() {
    let mut buffer = bits(&[0.5]);
    capture_i16(&mut buffer, &[i16::MAX, 0, i16::MIN]);
    assert_eq!(floats(&buffer), vec![0.5, 1.0, 0.0, -1.0]);
    capture_u16(&mut buffer, &[u16::MAX, 0]);
    assert_eq!(floats(&buffer)[4..], [1.0, -1.0]);
}

#[test]
fn recordings_within_bounds_can_be_resampled() {
    for rate in [8_000, 11_025, 44_100, 48_000, 96_000, 192_000] {
        assert!(can_resample(5_000_000, rate));
    }
    assert!(can_resample(0xff_ffff, 44_100));
    assert!(can_resample(0xff_ffff, 16_001));
}

#[test]
fn resampling_gives_no_more_samples_than_frames() {
    for rate in [16_000, 16_001, 22_050, 44_100, 48_000] {
        for frames in [1usize, 2, 1_000, 0xff_ffff] {
            assert!(len_at_16k(frames, rate) <= frames);
        }
    }
    assert_eq!(len_at_16k(48_000, 48_000), 16_000);
    assert_eq!(len_at_16k(10, 8_000), 20);
}

#[test]
fn frames_are_counted() {
    assert_eq!(frames_of(0, 2), 0);
    assert_eq!(frames_of(5, 2), 3);
    assert_eq!(frames_of(6, 3), 2);
    assert_eq!(frames_of(7, 0), 7);
    assert_eq!(frames_of(usize::MAX, 1), usize::MAX);
}

#[test]
fn levels_are_symmetric_and_bounded() {
    let mut values = Values(13);
    for _ in 0..2_000 {
        let s = values.sample() * 3.0;
        let bytes = encode_wav_16k_mono(&bits(&[s, -s]));
        let a = i16::from_le_bytes([bytes[44], bytes[45]]);
        let b = i16::from_le_bytes([bytes[46], bytes[47]]);
        assert_eq!(i32::from(a), -i32::from(b));
        assert!(a.abs() <= i16::MAX);
    }
}

#[test]
fn captured_samples_are_within_one() {
    let signed: Vec<i16> = (i16::MIN..=i16::MAX).collect();
    let unsigned: Vec<u16> = (0..=u16::MAX).collect();
    let mut buffer = Vec::new();
    capture_i16(&mut buffer, &signed);
    capture_u16(&mut buffer, &unsigned);
    assert_eq!(buffer.len(), 2 * 65_536);
    assert!(floats(&buffer).iter().all(|s| (-1.0..=1.0).contains(s)));
}

#[test]
fn samples_within_one_stay_there_and_no_window_is_empty() {
    let mut values = Values(17);
    for rate in [8_000, 11_025, 16_000, 16_001, 22_050, 44_100, 48_000, 192_000] {
        for channels in [1u16, 2, 5] {
            for n in [1usize, 7, 3_001, 20_000] {
                let samples: Vec<f32> = (0..n)
                    .map(|_| match values.next() % 4 {
                        0 => 1.0,
                        1 => -1.0,
                        _ => values.sample(),
                    })
                    .collect();
                let out = mono16k(&samples, rate, channels);
                assert!(out.iter().all(|s| (-1.0..=1.0).contains(s)));
            }
            let loud = mono16k(&[1.0; 3_000], rate, channels);
            assert!(loud.iter().all(|s| *s <= 1.0));
        }
    }
}

#[test]
fn a_larger_sample_never_gets_a_smaller_level() {
    let mut values = Values(19);
    let mut samples: Vec<f32> = (0..4_000).map(|_| values.sample() * 1.2).collect();
    samples.extend((0..4_000).map(|_| f32::from_bits(values.next())).filter(|s| !s.is_nan()));
    samples.extend([f32::INFINITY, f32::NEG_INFINITY, 0.0, -0.0, 1.0, -1.0]);
    samples.sort_by(|a, b| a.partial_cmp(b).unwrap());
    let bytes = encode_wav_16k_mono(&bits(&samples));
    let reader = hound::WavReader::new(Cursor::new(bytes)).unwrap();
    let levels: Vec<i16> = reader.into_samples::<i16>().map(|s| s.unwrap()).collect();
    assert!(levels.windows(2).all(|w| w[0] <= w[1]));
}

#[test]
fn opposite_samples_are_read_back_as_opposites() {
    let samples = [0.25, -0.7, 1.5, f32::INFINITY, 0.0];
    let opposites: Vec<f32> = samples.iter().map(|s| -s).collect();
    let read = |s: &[f32]| -> Vec<i16> {
        let reader = hound::WavReader::new(Cursor::new(encode_wav_16k_mono(&bits(s)))).unwrap();
        reader.into_samples::<i16>().map(|s| s.unwrap()).collect()
    };
    let negated: Vec<i16> = read(&samples).iter().map(|v| -v).collect();
    assert_eq!(read(&opposites), negated);
}

#[test]
fn downmixing_and_then_resampling_gives_the_same() {
    let mut values = Values(23);
    for rate in [8_000, 16_000, 44_100, 48_000] {
        for channels in [0u16, 1, 2, 3] {
            let samples: Vec<f32> = (0..4_001).map(|_| values.sample()).collect();
            let direct = mono16k(&samples, rate, channels);
            let mono = mono16k(&samples, 16_000, channels);
            assert!(all_same(&direct, &mono16k(&mono, rate, 1)));
            assert!(all_same(&direct, &mono16k(&direct, 16_000, 1)));
        }
        let samples: Vec<f32> = (0..4_001).map(|_| values.sample()).collect();
        assert!(all_same(&mono16k(&samples, rate, 0), &mono16k(&samples, rate, 1)));
    }
}
