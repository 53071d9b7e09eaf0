use extract_tables::{
    binarize, horizontal_dilate, horizontal_erode, horizontal_open, or_masks, vertical_dilate,
    vertical_erode, vertical_open, GrayImage,
};

fn gray(rows: &[&[u8]]) -> GrayImage {
    let height = rows.len() as u32;
    let width = if rows.is_empty() { 0 } else { rows[0].len() as u32 };
    GrayImage { width, height, rows: rows.iter().map(|r| r.to_vec()).collect() }
}

fn transpose(img: &GrayImage) -> GrayImage {
    let mut rows = vec![Vec::new(); img.width as usize];
    for row in &img.rows {
        for (x, v) in row.iter().enumerate() {
            rows[x].push(*v);
        }
    }
    GrayImage { width: img.height, height: img.width, rows }
}

const F: u8 = 255;

#[test]
fn erode_keeps_only_pixels_with_full_window() {
    // length 3: half-width 1.
    let img = gray(&[&[F, F, F, 0, F, F, 0, F]]);
    let out = horizontal_erode(&img, 3);
    // Windows are clipped at the image border.
    assert_eq!(out.rows[0], vec![F, F, 0, 0, 0, 0, 0, 0]);
}

#[test]
fn dilate_grows_foreground_by_half_width() {
    let img = gray(&[&[0, 0, 0, F, 0, 0, 0, 0]]);
    let out = horizontal_dilate(&img, 5);
    assert_eq!(out.rows[0], vec![0, F, F, F, F, F, 0, 0]);
}

#[test]
fn zero_length_element_acts_like_one_pixel() {
    let img = gray(&[&[F, 0, F, 7]]);
    assert_eq!(horizontal_erode(&img, 0).rows[0], vec![F, 0, F, 0]);
    assert_eq!(horizontal_dilate(&img, 0).rows[0], vec![F, 0, F, 0]);
    assert_eq!(horizontal_erode(&img, 1).rows[0], vec![F, 0, F, 0]);
}

#[test]
fn open_removes_short_runs_and_restores_long_ones() {
    let img = gray(&[&[0, F, F, 0, F, F, F, F, F, 0]]);
    let out = horizontal_open(&img, 5);
    assert_eq!(out.rows[0], vec![0, 0, 0, 0, F, F, F, F, F, 0]);
}

#[test]
fn open_never_adds_foreground() {
    let img = gray(&[
        &[F, F, F, F, 0, F],
        &[0, F, 0, F, F, F],
        &[F, F, F, F, F, F],
    ]);
    for length in 0..8 {
        let h = horizontal_open(&img, length);
        let v = vertical_open(&img, length);
        for y in 0..3 {
            for x in 0..6 {
                if h.rows[y][x] == F || v.rows[y][x] == F {
                    assert_eq!(img.rows[y][x], F);
                }
            }
        }
    }
}

#[test]
fn erode_within_and_dilate_covers_input() {
    let img = gray(&[&[F, 0, F, F, 0, 0, F, F, F]]);
    let e = horizontal_erode(&img, 3);
    let d = horizontal_dilate(&img, 3);
    for x in 0..9 {
        if e.rows[0][x] == F {
            assert_eq!(img.rows[0][x], F);
        }
        if img.rows[0][x] == F {
            assert_eq!(d.rows[0][x], F);
        }
    }
}

#[test]
fn vertical_ops_match_horizontal_ops_on_transpose() {
    let img = gray(&[
        &[F, 0, F],
        &[F, F, F],
        &[F, F, 0],
        &[0, F, F],
        &[F, F, F],
    ]);
    let t = transpose(&img);
    assert_eq!(vertical_erode(&img, 3).rows, transpose(&horizontal_erode(&t, 3)).rows);
    assert_eq!(vertical_dilate(&img, 3).rows, transpose(&horizontal_dilate(&t, 3)).rows);
    assert_eq!(vertical_open(&img, 3).rows, transpose(&horizontal_open(&t, 3)).rows);
}

#[test]
fn vertical_erode_exact_values() {
    let img = gray(&[&[F, F], &[F, 0], &[F, F], &[0, F]]);
    let out = vertical_erode(&img, 3);
    assert_eq!(out.rows, vec![vec![F, 0], vec![F, 0], vec![0, 0], vec![0, F]]);
}

#[test]
fn or_masks_takes_pixelwise_maximum() {
    let a = gray(&[&[0, F, 3], &[9, 0, 0]]);
    let b = gray(&[&[F, 0, 4], &[2, 0, F]]);
    let out = or_masks(&a, &b);
    assert_eq!(out.rows, vec![vec![F, F, 4], vec![9, 0, F]]);
    assert_eq!((out.width, out.height), (3, 2));
}

#[test]
fn binarize_two_level_image_marks_dark_pixels() {
    // Otsu's level for an image of two grey values is the darker value, so
    // the dark pixels become foreground.
    let img = gray(&[&[10, 200, 200], &[200, 10, 200]]);
    let out = binarize(&img);
    assert_eq!(out.rows, vec![vec![F, 0, 0], vec![0, F, 0]]);
}

#[test]
fn binarize_uniform_image() {
    // With a single grey value Otsu's level stays 0, so every pixel lies
    // above it and becomes background.
    let img = gray(&[&[77, 77], &[77, 77]]);
    let out = binarize(&img);
    assert_eq!(out.rows, vec![vec![0, 0], vec![0, 0]]);
}

#[test]
fn binarize_empty_image() {
    let img = GrayImage { width: 0, height: 3, rows: vec![Vec::new(); 3] };
    let out = binarize(&img);
    assert_eq!((out.width, out.height), (0, 3));
    assert_eq!(out.rows, vec![Vec::<u8>::new(); 3]);
}
