use compression::bmp::{
    compress_image, decode_image_record, decompress_image, encode_image_record, shift_vector,
    ComplexImage, CompressedData, CorruptionError,
};
use num_complex::Complex32;

fn channel(values: &[&[f32]]) -> Vec<Vec<Complex32>> {
    values
        .iter()
        .map(|row| row.iter().map(|x| Complex32::from(x.clone())).collect())
        .collect()
}

fn uniform_channel(w: usize, h: usize, value: f32) -> Vec<Vec<Complex32>> {
    vec![vec![Complex32::from(value); w]; h]
}

fn uniform_image(w: usize, h: usize, value: f32) -> ComplexImage {
    ComplexImage::new(
        uniform_channel(w, h, value),
        uniform_channel(w, h, value),
        uniform_channel(w, h, value),
    )
}

#[test]
fn uniform_image_level_two_round_trip() {
    // A four-by-four uniform image at level two: the spectrum is pure DC,
    // which the corners keep, so decompression returns an exact-size grid of
    // nearly the original intensity.
    let image = uniform_image(4, 4, 100.);
    let record = compress_image(&image, 2, 2).unwrap();
    assert_eq!(record.transformed_size, (4, 4));
    assert_eq!(record.original_size, (4, 4));
    assert_eq!(record.height(), 2);
    assert_eq!(record.width(), 2);
    let restored = decompress_image(&record).unwrap();
    assert_eq!(restored.height(), 4);
    assert_eq!(restored.width(), 4);
    for y in 0..4 {
        for x in 0..4 {
            assert!((restored.red[y][x].norm() - 100.).abs() < 0.01);
            assert!((restored.green[y][x].norm() - 100.).abs() < 0.01);
            assert!((restored.blue[y][x].norm() - 100.).abs() < 0.01);
        }
    }
}

#[test]
fn round_trip_keeps_original_dimensions() {
    // A grid with neither dimension a power of two comes back size-exact,
    // even though the pixel values are lossy.
    let mut red = Vec::new();
    for y in 0..5 {
        let mut row = Vec::new();
        for x in 0..6 {
            row.push(Complex32::new((y * 6 + x) as f32, 0.));
        }
        red.push(row);
    }
    let image = ComplexImage::new(red.clone(), red.clone(), red);
    let record = compress_image(&image, 4, 4).unwrap();
    assert_eq!(record.transformed_size, (8, 8));
    assert_eq!(record.original_size, (6, 5));
    let restored = decompress_image(&record).unwrap();
    assert_eq!(restored.width(), 6);
    assert_eq!(restored.height(), 5);
}

#[test]
fn target_at_padded_size_is_refused() {
    let image = uniform_image(4, 4, 10.);
    assert_eq!(compress_image(&image, 4, 4).err(), Some(()));
    assert_eq!(compress_image(&image, 4, 2).err(), Some(()));
    assert_eq!(compress_image(&image, 2, 4).err(), Some(()));
    assert!(compress_image(&image, 3, 3).is_ok());
    assert!(compress_image(&image, 2, 2).is_ok());
}

#[test]
fn corners_keep_exactly_the_four_corners() {
    let values = channel(&[
        &[11., 12., 13., 14.],
        &[21., 22., 23., 24.],
        &[31., 32., 33., 34.],
        &[41., 42., 43., 44.],
    ]);
    let image = ComplexImage::new(values.clone(), values.clone(), values);
    let cut = image.corners(2, 2).unwrap();
    let expected = channel(&[&[11., 14.], &[41., 44.]]);
    assert_eq!(cut.red, expected);
    assert_eq!(cut.green, expected);
    assert_eq!(cut.blue, expected);
}

#[test]
fn odd_corner_target_drops_the_extra_line() {
    // An odd target size is halved by integer division: each side of each
    // axis keeps floor(target / 2) lines, so target three keeps one line per
    // corner and the extra line is dropped.
    let values = channel(&[
        &[11., 12., 13., 14.],
        &[21., 22., 23., 24.],
        &[31., 32., 33., 34.],
        &[41., 42., 43., 44.],
    ]);
    let image = ComplexImage::new(values.clone(), values.clone(), values);
    let cut = image.corners(3, 3).unwrap();
    let expected = channel(&[&[11., 14.], &[41., 44.]]);
    assert_eq!(cut.red, expected);
}

#[test]
fn corner_target_at_size_is_refused() {
    let image = uniform_image(4, 4, 1.);
    assert_eq!(image.corners(4, 2).err(), Some(()));
    assert_eq!(image.corners(2, 4).err(), Some(()));
    assert!(image.corners(3, 3).is_ok());
}

#[test]
fn fill_splices_a_zero_middle_band() {
    let stored = channel(&[&[1., 2.], &[3., 4.]]);
    let image = ComplexImage::new(stored.clone(), stored.clone(), stored);
    let filled = image.fill_from_corners((4, 4));
    let expected = channel(&[
        &[1., 0., 0., 2.],
        &[0., 0., 0., 0.],
        &[0., 0., 0., 0.],
        &[3., 0., 0., 4.],
    ]);
    assert_eq!(filled.red, expected);
}

#[test]
fn round_up_then_truncate_is_exact_for_images() {
    let values = channel(&[&[1., 2., 3.], &[4., 5., 6.], &[7., 8., 9.]]);
    let image = ComplexImage::new(values.clone(), values.clone(), values.clone());
    let padded = image.round_up();
    assert_eq!(padded.width(), 4);
    assert_eq!(padded.height(), 4);
    assert_eq!(padded.red[0][3], Complex32::new(0., 0.));
    assert_eq!(padded.red[3][0], Complex32::new(0., 0.));
    let restored = padded.truncate((3, 3));
    assert_eq!(restored.red, values);
    assert_eq!(restored.green, values);
    assert_eq!(restored.blue, values);
}

#[test]
fn image_accessors() {
    let image = uniform_image(3, 2, 5.);
    assert_eq!(image.width(), 3);
    assert_eq!(image.height(), 2);
    assert_eq!(image.size(), (3, 2));
    let [r, g, b] = image.channels();
    assert_eq!(r, &image.red);
    assert_eq!(g, &image.green);
    assert_eq!(b, &image.blue);
    let record = CompressedData::new(
        vec![vec![(1, 2), (3, 4)]],
        vec![vec![(0, 0), (0, 0)]],
        vec![vec![(0, 0), (0, 0)]],
        (4, 4),
        (3, 3),
    );
    assert_eq!(record.width(), 2);
    assert_eq!(record.height(), 1);
}

#[test]
fn shift_swaps_quadrants() {
    let mut grid = vec![
        vec![1u32, 2],
        vec![3, 4],
    ];
    shift_vector(&mut grid);
    assert_eq!(grid, vec![vec![4, 3], vec![2, 1]]);

    // With odd dimensions the middle row and column stay put.
    let mut odd = vec![
        vec![1u32, 2, 3],
        vec![4, 5, 6],
        vec![7, 8, 9],
    ];
    shift_vector(&mut odd);
    assert_eq!(odd, vec![vec![5, 4, 6], vec![2, 1, 3], vec![8, 7, 9]]);
}

#[test]
fn image_record_bytes_have_the_documented_layout() {
    let record = CompressedData::new(
        vec![vec![(1, 2)]],
        vec![vec![(3, 4)]],
        vec![vec![(5, 6)]],
        (4, 8),
        (3, 7),
    );
    let bytes = encode_image_record(&record);
    let mut expected = Vec::new();
    expected.extend_from_slice(&4u64.to_le_bytes());
    expected.extend_from_slice(&8u64.to_le_bytes());
    expected.extend_from_slice(&3u64.to_le_bytes());
    expected.extend_from_slice(&7u64.to_le_bytes());
    expected.extend_from_slice(&1u64.to_le_bytes());
    expected.extend_from_slice(&1u64.to_le_bytes());
    for word in [1u32, 2, 3, 4, 5, 6] {
        expected.extend_from_slice(&word.to_le_bytes());
    }
    assert_eq!(bytes, expected);
}

#[test]
fn image_record_encoding_round_trips() {
    let image = uniform_image(4, 4, 77.);
    let record = compress_image(&image, 2, 2).unwrap();
    let bytes = encode_image_record(&record);
    let decoded = decode_image_record(&bytes).unwrap();
    assert_eq!(decoded.red, record.red);
    assert_eq!(decoded.green, record.green);
    assert_eq!(decoded.blue, record.blue);
    assert_eq!(decoded.transformed_size, record.transformed_size);
    assert_eq!(decoded.original_size, record.original_size);
    let restored = decompress_image(&decoded).unwrap();
    assert_eq!(restored.size(), (4, 4));
    assert!((restored.red[1][2].norm() - 77.).abs() < 0.01);
}

#[test]
fn malformed_image_bytes_are_rejected() {
    assert!(decode_image_record(&vec![0u8; 47]).is_none());
    let record = CompressedData::new(vec![], vec![], vec![], (1, 1), (1, 1));
    let mut bytes = encode_image_record(&record);
    assert!(decode_image_record(&bytes).is_some());
    bytes.push(0);
    assert!(decode_image_record(&bytes).is_none());
}

#[test]
fn inconsistent_channels_are_rejected() {
    let record = CompressedData::new(
        vec![vec![(0, 0), (0, 0)]],
        vec![vec![(0, 0)]],
        vec![vec![(0, 0), (0, 0)]],
        (4, 4),
        (4, 4),
    );
    assert_eq!(decompress_image(&record).err(), Some(CorruptionError::InvalidChannels));
}

#[test]
fn inconsistent_dimensions_are_rejected() {
    // The transformed size must be a power of two on both axes.
    let stored = vec![vec![(0u32, 0u32), (0, 0)]];
    let record = CompressedData::new(stored.clone(), stored.clone(), stored.clone(), (3, 4), (3, 3));
    assert_eq!(decompress_image(&record).err(), Some(CorruptionError::InvalidDimensions));

    // The original size must fit inside the transformed size.
    let record = CompressedData::new(stored.clone(), stored.clone(), stored.clone(), (4, 4), (5, 4));
    assert_eq!(decompress_image(&record).err(), Some(CorruptionError::InvalidDimensions));

    // The stored corners must fit inside the transformed size.
    let record = CompressedData::new(stored.clone(), stored.clone(), stored, (1, 1), (1, 1));
    assert_eq!(decompress_image(&record).err(), Some(CorruptionError::InvalidDimensions));
}
