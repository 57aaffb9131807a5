use mandelbrot::raster::{buffer_fits, intensity, pixel_index, render, ITERATION_LIMIT};

#[test]
fn intensity_inverts_the_escape_count() {
    assert_eq!(intensity(None), 0);
    assert_eq!(intensity(Some(0)), 255);
    assert_eq!(intensity(Some(1)), 254);
    assert_eq!(intensity(Some(ITERATION_LIMIT - 1)), 1);
}

#[test]
fn buffer_fits_exactly_width_times_height() {
    assert!(buffer_fits(6, (3, 2)));
    assert!(!buffer_fits(5, (3, 2)));
    assert!(!buffer_fits(7, (3, 2)));
    assert!(buffer_fits(0, (0, 4)));
    assert!(!buffer_fits(usize::MAX, (usize::MAX, 2)));
}

#[test]
fn pixel_index_is_row_major() {
    assert_eq!(pixel_index((100, 200), (25, 175)), 17525);
    assert_eq!(pixel_index((3, 2), (0, 0)), 0);
    assert_eq!(pixel_index((3, 2), (2, 1)), 5);
}

#[test]
fn render_writes_every_index() {
    let sentinel: u8 = 0xAA;
    let mut pixels = vec![sentinel; 12];
    render(&mut pixels, (4, 3), |column: usize, row: usize| Some(column + 10 * row));
    let expected: Vec<u8> = vec![255, 254, 253, 252, 245, 244, 243, 242, 235, 234, 233, 232];
    assert_eq!(pixels, expected);
}

#[test]
fn render_writes_black_for_points_that_stay() {
    let mut pixels = vec![7u8; 6];
    render(&mut pixels, (2, 3), |_column: usize, _row: usize| None);
    assert_eq!(pixels, vec![0u8; 6]);
}

#[test]
fn render_mixes_escaped_and_stayed_pixels() {
    let mut pixels = vec![1u8; 4];
    render(&mut pixels, (2, 2), |column: usize, row: usize| {
        if column == row {
            None
        } else {
            Some(column)
        }
    });
    assert_eq!(pixels, vec![0, 254, 255, 0]);
}

#[test]
fn render_on_an_empty_image_writes_nothing() {
    let mut pixels: Vec<u8> = Vec::new();
    render(&mut pixels, (0, 5), |_column: usize, _row: usize| None);
    assert!(pixels.is_empty());
}
