use katvisualizer::spectrogram::{agc_rows, draw_spectrogram_image, spectrogram_cell};

#[test]
fn cell_found_in_matching_row() {
    let lens = vec![4, 4, 4];
    let durs = vec![10, 10, 10];
    assert_eq!(spectrogram_cell(2, 1, 4, &lens, &durs), Some((2, 1)));
}

#[test]
fn cell_missing_beyond_rows() {
    let lens = vec![4, 4];
    let durs = vec![10, 10];
    assert_eq!(spectrogram_cell(0, 2, 4, &lens, &durs), None);
}

#[test]
fn cell_missing_for_other_resolution_or_duration() {
    let lens = vec![4, 8, 4];
    let durs = vec![10, 10, 20];
    assert_eq!(spectrogram_cell(1, 1, 4, &lens, &durs), None);
    assert_eq!(spectrogram_cell(1, 2, 4, &lens, &durs), None);
    assert_eq!(spectrogram_cell(1, 0, 4, &lens, &durs), Some((1, 0)));
}

#[test]
fn image_rows_stop_at_mismatch() {
    let mut pixels = vec![0u32; 3 * 4];
    let lens = vec![3, 3, 2, 3];
    let durs = vec![5, 5, 5, 5];
    let drawn = draw_spectrogram_image(&mut pixels, 3, 4, &lens, &durs, |y, x| (10 * y + x + 1) as u32);
    assert_eq!(drawn, 2);
    assert_eq!(pixels, vec![1, 2, 3, 11, 12, 13, 0, 0, 0, 0, 0, 0]);
}

#[test]
fn image_rows_stop_at_height_and_duration() {
    let mut pixels = vec![7u8; 2 * 2];
    let lens = vec![2, 2, 2];
    let durs = vec![5, 5, 5];
    let drawn = draw_spectrogram_image(&mut pixels, 2, 2, &lens, &durs, |_, _| 1u8);
    assert_eq!(drawn, 2);
    assert_eq!(pixels, vec![1, 1, 1, 1]);

    let mut pixels = vec![7u8; 2 * 3];
    let durs = vec![5, 6, 5];
    let drawn = draw_spectrogram_image(&mut pixels, 2, 3, &lens, &durs, |_, _| 1u8);
    assert_eq!(drawn, 1);
    assert_eq!(pixels, vec![1, 1, 7, 7, 7, 7]);
}

#[test]
fn agc_window_counts_leading_rows() {
    assert_eq!(agc_rows(&vec![3, 3, 3, 3], 7), 2);
    assert_eq!(agc_rows(&vec![3, 3, 3, 3], 6), 2);
    assert_eq!(agc_rows(&vec![3, 3, 3, 3], 100), 4);
    assert_eq!(agc_rows(&vec![8, 1, 1], 7), 0);
    assert_eq!(agc_rows(&vec![], 7), 0);
    assert_eq!(agc_rows(&vec![u64::MAX, u64::MAX], u64::MAX), 1);
}
