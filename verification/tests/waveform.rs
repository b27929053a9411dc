use ctc_asr::binary32::ONE_BITS;
use ctc_asr::waveform::{
    amplitude_bits, check_format, normalize, FormatError, FULL_SCALE, SUPPORTED_BITS,
};

fn quotient(sample: i16) -> f32 {
    sample as f32 / i16::MAX as f32
}

fn amplitudes(bits: &[u32]) -> Vec<f32> {
    bits.iter().map(|&pattern| f32::from_bits(pattern)).collect()
}

#[test]
fn full_scale_is_the_largest_sample() {
    assert_eq!(FULL_SCALE, i16::MAX);
    assert_eq!(SUPPORTED_BITS, 16);
}

#[test]
fn half_scale_samples_normalize_to_one_half() {
    let sequence = normalize(&[16384, -16384, 0], 16, 1).unwrap();
    let values = amplitudes(sequence.bits());
    let expected = [0.5f32, -0.5, 0.0];
    assert_eq!(values.len(), expected.len());
    for (value, wanted) in values.iter().zip(expected.iter()) {
        assert!((value - wanted).abs() < 1.0e-4);
    }
    assert_eq!(sequence.bits(), &[0x3f00_0100, 0xbf00_0100, 0]);
}

#[test]
fn amplitudes_of_known_samples() {
    assert_eq!(amplitude_bits(0), 0);
    assert_eq!(amplitude_bits(i16::MAX), ONE_BITS);
    assert_eq!(amplitude_bits(-i16::MAX), 0xbf80_0000);
    assert_eq!(amplitude_bits(i16::MIN), 0xbf80_0100);
    assert_eq!(amplitude_bits(1), 0x3800_0100);
    assert_eq!(amplitude_bits(-1), 0xb800_0100);
    assert_eq!(amplitude_bits(2), 0x3880_0100);
    assert_eq!(amplitude_bits(3), 0x38c0_0180);
}

#[test]
fn every_amplitude_is_the_single_precision_quotient() {
    for sample in i16::MIN..=i16::MAX {
        assert_eq!(amplitude_bits(sample), quotient(sample).to_bits());
    }
}

#[test]
fn every_amplitude_but_the_lowest_is_within_unit_range() {
    for sample in i16::MIN..=i16::MAX {
        let value = f32::from_bits(amplitude_bits(sample));
        assert_eq!(-1.0 <= value && value <= 1.0, sample != i16::MIN);
    }
}

#[test]
fn lowest_sample_falls_just_below_minus_one() {
    let sequence = normalize(&[i16::MIN], 16, 1).unwrap();
    let value = amplitudes(sequence.bits())[0];
    assert!(value < -1.0);
    assert!(value > -1.0001);
}

#[test]
fn wider_samples_are_rejected() {
    assert_eq!(normalize(&[1, 2, 3], 24, 1), Err(FormatError::UnsupportedBitDepth(24)));
    assert_eq!(normalize(&[1, 2, 3], 32, 2), Err(FormatError::UnsupportedBitDepth(32)));
}

#[test]
fn narrower_samples_are_rejected() {
    assert_eq!(normalize(&[1, 2, 3], 8, 1), Err(FormatError::UnsupportedBitDepth(8)));
    assert_eq!(normalize(&[1, 2, 3], 0, 1), Err(FormatError::UnsupportedBitDepth(0)));
}

#[test]
fn container_without_channels_is_rejected() {
    assert_eq!(normalize(&[1, 2, 3], 16, 0), Err(FormatError::NoChannels));
}

#[test]
fn waveform_without_samples_is_rejected() {
    assert_eq!(normalize(&[], 16, 1), Err(FormatError::NoSamples));
    assert_eq!(normalize(&[], 16, 2), Err(FormatError::NoSamples));
}

#[test]
fn bit_depth_is_judged_first_then_channels_then_samples() {
    assert_eq!(normalize(&[], 24, 0), Err(FormatError::UnsupportedBitDepth(24)));
    assert_eq!(normalize(&[], 16, 0), Err(FormatError::NoChannels));
}

#[test]
fn declared_format_is_judged_alone() {
    assert_eq!(check_format(16, 1), Ok(()));
    assert_eq!(check_format(16, 6), Ok(()));
    assert_eq!(check_format(24, 1), Err(FormatError::UnsupportedBitDepth(24)));
    assert_eq!(check_format(24, 0), Err(FormatError::UnsupportedBitDepth(24)));
    assert_eq!(check_format(16, 0), Err(FormatError::NoChannels));
}

#[test]
fn mono_keeps_every_sample() {
    let samples: Vec<i16> = (0..1000).map(|i| (i * 37 % 2001 - 1000) as i16).collect();
    let sequence = normalize(&samples, 16, 1).unwrap();
    assert_eq!(sequence.len(), samples.len());
    let expected: Vec<f32> = samples.iter().map(|&sample| quotient(sample)).collect();
    assert_eq!(amplitudes(sequence.bits()), expected);
}

#[test]
fn stereo_keeps_the_first_channel() {
    let sequence = normalize(&[10, -10, 20, -20, 30, -30], 16, 2).unwrap();
    assert_eq!(sequence.len(), 3);
    assert_eq!(amplitudes(sequence.bits()), vec![quotient(10), quotient(20), quotient(30)]);
}

#[test]
fn started_frame_counts() {
    let sequence = normalize(&[1, 2, 3, 4, 5], 16, 2).unwrap();
    assert_eq!(amplitudes(sequence.bits()), vec![quotient(1), quotient(3), quotient(5)]);
    let sequence = normalize(&[1, 2, 3, 4, 5, 6, 7], 16, 3).unwrap();
    assert_eq!(amplitudes(sequence.bits()), vec![quotient(1), quotient(4), quotient(7)]);
}

#[test]
fn more_channels_than_samples_keep_the_first_sample() {
    let sequence = normalize(&[42, 43], 16, u16::MAX).unwrap();
    assert_eq!(amplitudes(sequence.bits()), vec![quotient(42)]);
}

#[test]
fn tensor_has_one_batch_and_one_channel() {
    let sequence = normalize(&[5, 6, 7, 8], 16, 1).unwrap();
    assert_eq!(sequence.tensor_shape(), (1, 1, 4));
    let sequence = normalize(&[5, 6, 7, 8], 16, 2).unwrap();
    assert_eq!(sequence.tensor_shape(), (1, 1, 2));
}
