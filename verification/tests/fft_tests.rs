use compression::fft::{
    fft, fft_2d, fft_2d_horizontal, fft_2d_horizontal_inverse, fft_2d_inverse, fft_2d_vertical,
    fft_2d_vertical_inverse, fft_inverse, is_pow2_exec, padded_len_exec, round_sample_size_down,
    round_sample_size_up,
};
use num_complex::Complex32;
use rustfft::{algorithm::Dft, Fft, FftDirection};

fn convert_sample(sample: &[f32]) -> Vec<Complex32> {
    sample.iter().map(|x| Complex32::from(x.clone())).collect()
}

fn basefft(samples: &[Complex32]) -> Vec<Complex32> {
    // Computes a forward FFT with the reference implementation.
    let mut result = samples.to_vec();
    let fft = Dft::new(result.len(), FftDirection::Forward);
    fft.process(&mut result);
    result
}

#[test]
fn compare_builtin() {
    let sample = convert_sample(&[0., 1., 0., -1.]);
    let result = fft(&sample);
    let expected = basefft(&sample);
    let epsilon = 10f32.powi(-5);
    println!("result {:?}\nexpected {:?}", result, expected);
    for i in 0..expected.len() {
        let diff = result[i].l1_norm() - expected[i].l1_norm();
        assert!(f32::abs(diff) < epsilon);
    }
}

#[test]
fn inversion() {
    let sample = convert_sample(&[1., 2., 3., 4., 5., 6., 7., 8.]);
    let result = fft(&fft_inverse(&sample));
    let epsilon = 10f32.powi(-5);
    println!("result {:?}\nexpected {:?}", sample, result);
    for i in 0..result.len() {
        let diff = sample[i].l1_norm() - result[i].l1_norm();
        assert!(f32::abs(diff) < epsilon);
    }
}

#[test]
fn forward_then_inverse_reproduces_waveform() {
    let sample = convert_sample(&[1., 2., 3., 4., 5., 6., 7., 8.]);
    let result = fft_inverse(&fft(&sample));
    for i in 0..sample.len() {
        assert!((result[i] - sample[i]).norm() < 1e-5);
    }
}

#[test]
fn matches_dft_oracle_per_bin() {
    // The four-point transform of [0, 1, 0, -1] is [0, -2i, 0, 2i].
    let sample = convert_sample(&[0., 1., 0., -1.]);
    let result = fft(&sample);
    let expected = vec![
        Complex32::new(0., 0.),
        Complex32::new(0., -2.),
        Complex32::new(0., 0.),
        Complex32::new(0., 2.),
    ];
    for i in 0..expected.len() {
        assert!((result[i] - expected[i]).norm() < 1e-5, "bin {i}");
    }
}

#[test]
fn inverse_of_forward_within_aggregate_tolerance() {
    // An arbitrary power-of-two complex sequence survives a round trip
    // within 1e-5 aggregate magnitude error.
    let mut sample = Vec::new();
    for i in 0..16 {
        sample.push(Complex32::new((i as f32) * 0.25 - 2., (15 - i) as f32 * 0.125));
    }
    let result = fft_inverse(&fft(&sample));
    let mut aggregate = 0f32;
    for i in 0..sample.len() {
        aggregate += (result[i] - sample[i]).norm();
    }
    assert!(aggregate < 1e-5);
}

#[test]
fn round_up_pads_to_next_power_of_two() {
    let mut sample = vec![1f32, 2., 3.];
    round_sample_size_up(&mut sample, 0f32);
    assert_eq!(sample, vec![1., 2., 3., 0.]);

    let mut exact = vec![1f32, 2., 3., 4.];
    round_sample_size_up(&mut exact, 0f32);
    assert_eq!(exact, vec![1., 2., 3., 4.]);

    let mut empty: Vec<f32> = Vec::new();
    round_sample_size_up(&mut empty, 0f32);
    assert!(empty.is_empty());
}

#[test]
fn round_down_truncates_to_previous_power_of_two() {
    let mut sample = vec![1f32, 2., 3., 4., 5., 6.];
    round_sample_size_down(&mut sample);
    assert_eq!(sample, vec![1., 2., 3., 4.]);

    let mut empty: Vec<f32> = Vec::new();
    round_sample_size_down(&mut empty);
    assert!(empty.is_empty());
}

#[test]
fn round_up_then_truncate_is_exact_for_samples() {
    let original = vec![9f32, -3., 7.5, 0.25, 11.];
    let mut padded = original.clone();
    round_sample_size_up(&mut padded, 0f32);
    assert_eq!(padded.len(), 8);
    padded.truncate(original.len());
    assert_eq!(padded, original);
}

#[test]
fn power_of_two_predicate() {
    assert!(!is_pow2_exec(0));
    assert!(is_pow2_exec(1));
    assert!(is_pow2_exec(2));
    assert!(!is_pow2_exec(3));
    assert!(is_pow2_exec(1024));
    assert!(!is_pow2_exec(1023));
    assert_eq!(padded_len_exec(0), 0);
    assert_eq!(padded_len_exec(1), 1);
    assert_eq!(padded_len_exec(5), 8);
    assert_eq!(padded_len_exec(8), 8);
}

fn grid(values: &[&[f32]]) -> Vec<Vec<Complex32>> {
    values.iter().map(|row| convert_sample(row)).collect()
}

#[test]
fn two_dimensional_round_trip() {
    let samples = grid(&[
        &[1., 2., 3., 4.],
        &[5., 6., 7., 8.],
        &[9., 10., 11., 12.],
        &[13., 14., 15., 16.],
    ]);
    let restored = fft_2d_inverse(&fft_2d(&samples));
    for y in 0..4 {
        for x in 0..4 {
            assert!((restored[y][x] - samples[y][x]).norm() < 1e-3);
        }
    }
}

#[test]
fn two_dimensional_transform_is_rows_then_columns() {
    let samples = grid(&[&[1., -2.], &[0.5, 4.]]);
    let composed = fft_2d_vertical(&fft_2d_horizontal(&samples));
    let direct = fft_2d(&samples);
    assert_eq!(composed, direct);

    let inverse_composed = fft_2d_horizontal_inverse(&fft_2d_vertical_inverse(&samples));
    let inverse_direct = fft_2d_inverse(&samples);
    assert_eq!(inverse_composed, inverse_direct);
}

#[test]
fn horizontal_transform_leaves_row_count() {
    let samples = grid(&[&[1., 2.], &[3., 4.], &[5., 6.], &[7., 8.]]);
    let rows = fft_2d_horizontal(&samples);
    assert_eq!(rows.len(), 4);
    let back = fft_2d_horizontal_inverse(&rows);
    for y in 0..4 {
        for x in 0..2 {
            assert!((back[y][x] - samples[y][x]).norm() < 1e-5);
        }
    }
}

#[test]
fn vertical_transform_round_trip() {
    let samples = grid(&[&[1., 2.], &[3., 4.]]);
    let cols = fft_2d_vertical(&samples);
    let back = fft_2d_vertical_inverse(&cols);
    for y in 0..2 {
        for x in 0..2 {
            assert!((back[y][x] - samples[y][x]).norm() < 1e-5);
        }
    }
}
