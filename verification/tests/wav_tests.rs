use compression::audio;
use compression::common::WaveformMetadata;
use compression::wav::{
    check_bit_rate, compress_waveform, decode_compressed_data, decompress_waveform,
    encode_compressed_data, CompressedData, CorruptionError, FormatError,
};
use num_complex::Complex32;

fn convert_sample(sample: &[f32]) -> Vec<Complex32> {
    sample.iter().map(|x| Complex32::from(x.clone())).collect()
}

#[test]
fn high_cutoff_round_trip_is_exact_in_sixteen_bits() {
    // A cutoff at the sample rate keeps every bin, so only transform
    // rounding remains, which sixteen-bit samples absorb entirely.
    let waveform = [100f32, -200., 3000., 4., 5., -6., 7., 8.];
    let samples = convert_sample(&waveform);
    let record = compress_waveform(&samples, 8, 16, 8);
    assert_eq!(record.cutoff_zeros, 0);
    assert_eq!(record.frequencies.len(), 8);
    assert_eq!(record.original_size, 8);
    assert_eq!(record.sample_rate, 8);
    assert_eq!(record.bit_rate, 16);
    let restored = decompress_waveform(&record).unwrap();
    assert_eq!(restored.len(), 8);
    for i in 0..8 {
        assert!((restored[i].re - waveform[i]).abs() < 0.01);
        assert_eq!(restored[i].re.round() as i16, waveform[i] as i16);
    }
}

#[test]
fn zero_cutoff_is_silent() {
    let samples = convert_sample(&[1., 2., 3., 4.]);
    let record = compress_waveform(&samples, 4, 16, 0);
    assert_eq!(record.frequencies.len(), 0);
    assert_eq!(record.cutoff_zeros, 4);
    let restored = decompress_waveform(&record).unwrap();
    assert_eq!(restored.len(), 4);
    for c in restored {
        assert!(c.norm() < 1e-6);
    }
}

#[test]
fn cutoff_picks_the_documented_bin_count() {
    // highest_bin = ceil(cutoff * padded_len / rate), clamped to the length.
    let samples = convert_sample(&[1., 2., 3., 4., 5., 6., 7., 8.]);
    let record = compress_waveform(&samples, 8, 16, 2);
    assert_eq!(record.frequencies.len(), 2);
    assert_eq!(record.cutoff_zeros, 6);

    let record = compress_waveform(&samples, 8, 16, 3);
    assert_eq!(record.frequencies.len(), 3);

    // A cutoff above the rate clamps to the whole spectrum.
    let record = compress_waveform(&samples, 8, 16, 100);
    assert_eq!(record.frequencies.len(), 8);

    // A zero sample rate keeps the whole spectrum.
    let record = compress_waveform(&samples, 0, 16, 1);
    assert_eq!(record.frequencies.len(), 8);
}

#[test]
fn padding_happens_before_the_transform() {
    // Five samples are padded to eight before the cutoff bookkeeping.
    let samples = convert_sample(&[1., 2., 3., 4., 5.]);
    let record = compress_waveform(&samples, 8, 16, 8);
    assert_eq!(record.original_size, 5);
    assert_eq!(record.frequencies.len() + record.cutoff_zeros, 8);
    let restored = decompress_waveform(&record).unwrap();
    assert_eq!(restored.len(), 5);
    for i in 0..5 {
        assert!((restored[i].re - (i as f32 + 1.)).abs() < 0.01);
    }
}

#[test]
fn dc_only_waveform_stores_exact_bit_patterns() {
    // The transform of [1, 0, 0, 0] is exactly one in every bin, so the
    // stored bit patterns must be exactly those of 1.0 and 0.0.
    let samples = convert_sample(&[1., 0., 0., 0.]);
    let record = compress_waveform(&samples, 4, 16, 4);
    assert_eq!(record.frequencies.len(), 4);
    for &(re_bits, im_bits) in &record.frequencies {
        assert_eq!(re_bits, 1f32.to_bits());
        assert_eq!(im_bits, 0f32.to_bits());
    }
}

#[test]
fn non_power_of_two_spectrum_is_rejected() {
    let record = CompressedData {
        sample_rate: 8,
        original_size: 3,
        bit_rate: 16,
        frequencies: vec![(0, 0), (0, 0), (0, 0)],
        cutoff_zeros: 0,
    };
    assert_eq!(decompress_waveform(&record), Err(CorruptionError::InvalidSpectrum));
}

#[test]
fn oversized_sample_count_is_rejected() {
    let record = CompressedData {
        sample_rate: 8,
        original_size: 5,
        bit_rate: 16,
        frequencies: vec![(0, 0), (0, 0)],
        cutoff_zeros: 2,
    };
    assert_eq!(decompress_waveform(&record), Err(CorruptionError::InvalidSampleCount));
}

#[test]
fn record_bytes_have_the_documented_layout() {
    let record = CompressedData {
        sample_rate: 1,
        original_size: 2,
        bit_rate: 3,
        frequencies: vec![(5, 6)],
        cutoff_zeros: 4,
    };
    let bytes = encode_compressed_data(&record);
    let mut expected = Vec::new();
    expected.extend_from_slice(&1u64.to_le_bytes());
    expected.extend_from_slice(&2u64.to_le_bytes());
    expected.extend_from_slice(&3u64.to_le_bytes());
    expected.extend_from_slice(&4u64.to_le_bytes());
    expected.extend_from_slice(&1u64.to_le_bytes());
    expected.extend_from_slice(&5u32.to_le_bytes());
    expected.extend_from_slice(&6u32.to_le_bytes());
    assert_eq!(bytes, expected);
}

#[test]
fn record_encoding_round_trips() {
    let waveform = [10f32, 20., -30., 40.5];
    let record = compress_waveform(&convert_sample(&waveform), 4, 16, 4);
    let bytes = encode_compressed_data(&record);
    let decoded = decode_compressed_data(&bytes).unwrap();
    assert_eq!(decoded.sample_rate, record.sample_rate);
    assert_eq!(decoded.original_size, record.original_size);
    assert_eq!(decoded.bit_rate, record.bit_rate);
    assert_eq!(decoded.cutoff_zeros, record.cutoff_zeros);
    assert_eq!(decoded.frequencies, record.frequencies);

    // The decoded record still decompresses to the original waveform.
    let restored = decompress_waveform(&decoded).unwrap();
    for i in 0..waveform.len() {
        assert!((restored[i].re - waveform[i]).abs() < 0.01);
    }
}

#[test]
fn malformed_record_bytes_are_rejected() {
    assert!(decode_compressed_data(&vec![0u8; 39]).is_none());
    // Count field declares one bin but none follows.
    let mut bytes = vec![0u8; 40];
    bytes[32] = 1;
    assert!(decode_compressed_data(&bytes).is_none());
    // A trailing byte beyond the declared bins.
    let record = CompressedData {
        sample_rate: 1,
        original_size: 1,
        bit_rate: 8,
        frequencies: vec![],
        cutoff_zeros: 1,
    };
    let mut bytes = encode_compressed_data(&record);
    assert!(decode_compressed_data(&bytes).is_some());
    bytes.push(0);
    assert!(decode_compressed_data(&bytes).is_none());
}

#[test]
fn channel_and_bit_rate_checks() {
    assert_eq!(audio::check_channels(1), Ok(()));
    assert_eq!(audio::check_channels(2), Err(audio::FormatError::UnsupportedChannels));
    assert_eq!(audio::check_channels(0), Err(audio::FormatError::UnsupportedChannels));
    assert_eq!(
        audio::FormatError::UnsupportedChannels.message(),
        "multiple channels not supported - convert to mono"
    );
    assert_eq!(check_bit_rate(8), Ok(()));
    assert_eq!(check_bit_rate(16), Ok(()));
    assert_eq!(check_bit_rate(24), Ok(()));
    assert_eq!(check_bit_rate(32), Ok(()));
    assert_eq!(check_bit_rate(12), Err(FormatError::UnsupportedFormat));
    assert_eq!(FormatError::UnsupportedChannels.message(), "multiple channels not supported");
    assert_eq!(FormatError::UnsupportedFormat.message(), "unrecognized format not supported");
}

#[test]
fn flatten_silences_exactly_the_requested_bins() {
    let mut spectrum = convert_sample(&[1., 2., 3., 4.]);
    audio::flatten_freq_range(&mut spectrum, 1, 2);
    assert_eq!(spectrum[0], Complex32::new(1., 0.));
    assert_eq!(spectrum[1], Complex32::new(0., 0.));
    assert_eq!(spectrum[2], Complex32::new(0., 0.));
    assert_eq!(spectrum[3], Complex32::new(4., 0.));
}

#[test]
fn waveform_metadata_keeps_its_fields() {
    let metadata = WaveformMetadata::new("track", 1024, 44100, 16);
    assert_eq!(metadata.name, "track");
    assert_eq!(metadata.sample_size, 1024);
    assert_eq!(metadata.sample_rate, 44100);
    assert_eq!(metadata.bit_rate, 16);
}
