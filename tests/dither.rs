use atkinson_rs::{clamp_u8, diffusion_targets, dither, div8_round, lut_index_5bit, DitherError};

const BLACK_WHITE: [u8; 6] = [0, 0, 0, 255, 255, 255];

/// A table sending every colour whose red channel is at least 128 to white
/// (index 1) and every other colour to black (index 0).
fn red_threshold_lut() -> Vec<u8> {
    (0..32768usize).map(|k| if (k >> 10) >= 16 { 1 } else { 0 }).collect()
}

fn grey(value: u8, pixels: usize) -> Vec<u8> {
    vec![value; pixels * 3]
}

#[test]
fn single_black_pixel_maps_to_black() {
    let lut = red_threshold_lut();
    let out = dither(&[0, 0, 0], 1, 1, &lut, &BLACK_WHITE, false).unwrap();
    assert_eq!(out, vec![0]);
}

#[test]
fn single_white_pixel_maps_to_white() {
    let lut = red_threshold_lut();
    let out = dither(&[255, 255, 255], 1, 1, &lut, &BLACK_WHITE, true).unwrap();
    assert_eq!(out, vec![1]);
}

#[test]
fn flat_grey_with_constant_table_keeps_one_index() {
    let lut = vec![1u8; 32768];
    for serpentine in [false, true] {
        let out = dither(&grey(128, 12), 4, 3, &lut, &BLACK_WHITE, serpentine).unwrap();
        assert_eq!(out, vec![1; 12]);
    }
}

#[test]
fn flat_grey_with_threshold_table_diffuses() {
    let lut = red_threshold_lut();
    let out = dither(&grey(128, 12), 4, 3, &lut, &BLACK_WHITE, false).unwrap();
    assert_eq!(out, vec![1, 0, 0, 1, 0, 1, 1, 0, 0, 1, 1, 0]);
    let out = dither(&grey(128, 12), 4, 3, &lut, &BLACK_WHITE, true).unwrap();
    assert_eq!(out, vec![1, 0, 0, 1, 0, 0, 1, 1, 1, 1, 0, 0]);
}

#[test]
fn serpentine_reverses_second_row() {
    let lut = red_threshold_lut();
    let image = grey(100, 6);
    let plain = dither(&image, 3, 2, &lut, &BLACK_WHITE, false).unwrap();
    let serp = dither(&image, 3, 2, &lut, &BLACK_WHITE, true).unwrap();
    assert_eq!(plain, vec![0, 0, 0, 0, 1, 1]);
    assert_eq!(serp, vec![0, 0, 0, 0, 0, 1]);
    // the bright pixel of the second row sits at its right end in both
    // modes; left to right it also spreads to the middle, right to left the
    // accumulated error is spent on the first visited (rightmost) pixel
    assert_ne!(plain[3..], serp[3..]);
}

#[test]
fn serpentine_on_mixed_image() {
    let lut = red_threshold_lut();
    let image = vec![200, 200, 200, 90, 90, 90, 100, 100, 100, 120, 120, 120, 120, 120, 120, 120, 120, 120];
    assert_eq!(dither(&image, 3, 2, &lut, &BLACK_WHITE, false).unwrap(), vec![1, 0, 0, 0, 1, 1]);
    assert_eq!(dither(&image, 3, 2, &lut, &BLACK_WHITE, true).unwrap(), vec![1, 0, 0, 0, 0, 1]);
}

#[test]
fn diffusion_targets_follow_scan_direction() {
    // pixel (1, 1) of a 3x3 canvas
    assert_eq!(diffusion_targets(3, 3, false, 1, 1), vec![5, 6, 7, 8]);
    assert_eq!(diffusion_targets(3, 3, true, 1, 1), vec![3, 6, 7, 8]);
    // even rows run left to right in both modes
    assert_eq!(diffusion_targets(3, 3, true, 0, 0), vec![1, 2, 3, 4, 6]);
    assert_eq!(diffusion_targets(3, 4, false, 1, 1), vec![5, 6, 7, 8, 10]);
    // the last pixel has no one left to feed
    assert_eq!(diffusion_targets(3, 3, false, 2, 2), Vec::<usize>::new());
    assert_eq!(diffusion_targets(1, 1, false, 0, 0), Vec::<usize>::new());
}

#[test]
fn rounding_halves_away_from_zero() {
    assert_eq!(div8_round(4), 1);
    assert_eq!(div8_round(-4), -1);
    assert_eq!(div8_round(3), 0);
    assert_eq!(div8_round(-3), 0);
    assert_eq!(div8_round(12), 2);
    assert_eq!(div8_round(-12), -2);
    assert_eq!(div8_round(255), 32);
    assert_eq!(div8_round(-255), -32);
    assert_eq!(div8_round(0), 0);
}

#[test]
fn clamping_and_keys() {
    assert_eq!(clamp_u8(-5), 0);
    assert_eq!(clamp_u8(300), 255);
    assert_eq!(clamp_u8(77), 77);
    assert_eq!(lut_index_5bit(0, 0, 0), 0);
    assert_eq!(lut_index_5bit(255, 255, 255), 32767);
    assert_eq!(lut_index_5bit(8, 16, 24), (1 << 10) | (2 << 5) | 3);
}

#[test]
fn out_of_bounds_table_entry_fails() {
    let mut lut = vec![0u8; 32768];
    // the second pixel, white, looks up a colour the palette lacks
    lut[32767] = 2;
    let image = vec![0, 0, 0, 255, 255, 255];
    assert_eq!(dither(&image, 2, 1, &lut, &BLACK_WHITE, false), Err(DitherError::LutIndexOutOfBounds));
}

#[test]
fn invalid_image_length() {
    let lut = red_threshold_lut();
    assert_eq!(dither(&[0, 0, 0, 0], 1, 1, &lut, &BLACK_WHITE, false), Err(DitherError::InvalidImageLength));
    assert_eq!(
        dither(&[0, 0, 0], usize::MAX, 2, &lut, &BLACK_WHITE, false),
        Err(DitherError::InvalidImageLength)
    );
}

#[test]
fn invalid_lut_length() {
    let lut = vec![0u8; 100];
    assert_eq!(dither(&[0, 0, 0], 1, 1, &lut, &BLACK_WHITE, false), Err(DitherError::InvalidLutLength));
}

#[test]
fn invalid_palette_length() {
    let lut = red_threshold_lut();
    assert_eq!(dither(&[0, 0, 0], 1, 1, &lut, &[], false), Err(DitherError::InvalidPaletteLength));
    assert_eq!(dither(&[0, 0, 0], 1, 1, &lut, &[0, 0, 0, 1], false), Err(DitherError::InvalidPaletteLength));
}

#[test]
fn validation_order() {
    // every check fails: the image length is reported
    assert_eq!(dither(&[0], 1, 1, &[], &[], false), Err(DitherError::InvalidImageLength));
    assert_eq!(dither(&[0, 0, 0], 1, 1, &[], &[], false), Err(DitherError::InvalidLutLength));
}

#[test]
fn empty_image() {
    let lut = red_threshold_lut();
    assert_eq!(dither(&[], 0, 5, &lut, &BLACK_WHITE, true), Ok(vec![]));
    assert_eq!(dither(&[], 4, 0, &lut, &BLACK_WHITE, false), Ok(vec![]));
}

#[test]
fn repeated_calls_agree_and_fit_palette() {
    let lut: Vec<u8> = (0..32768usize).map(|k| (k % 3) as u8).collect();
    let palette = [0, 0, 0, 128, 128, 128, 255, 255, 255];
    let image: Vec<u8> = (0..5 * 4 * 3).map(|i| ((i * 37) % 256) as u8).collect();
    let first = dither(&image, 5, 4, &lut, &palette, true).unwrap();
    let second = dither(&image, 5, 4, &lut, &palette, true).unwrap();
    assert_eq!(first, second);
    assert_eq!(first.len(), 20);
    assert!(first.iter().all(|&i| i < 3));
}

#[test]
fn constant_table_gives_constant_map_on_any_image() {
    let lut = vec![2u8; 32768];
    let palette = [0, 0, 0, 128, 128, 128, 255, 255, 255];
    let image: Vec<u8> = (0..3 * 2 * 3).map(|i| ((i * 53) % 256) as u8).collect();
    assert_eq!(dither(&image, 3, 2, &lut, &palette, true), Ok(vec![2; 6]));
}

#[test]
fn first_pixel_outside_palette_fails() {
    let mut lut = red_threshold_lut();
    lut[0] = 7;
    assert_eq!(dither(&grey(0, 4), 2, 2, &lut, &BLACK_WHITE, false), Err(DitherError::LutIndexOutOfBounds));
}
