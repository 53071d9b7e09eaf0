use extract_tables::{fits_otsu_sums, GrayImage};

fn filled(width: u32, height: u32, value: u8) -> GrayImage {
    GrayImage { width, height, rows: vec![vec![value; width as usize]; height as usize] }
}

#[test]
fn small_images_fit_otsu_sums() {
    assert!(fits_otsu_sums(&filled(40, 30, 255)));
    assert!(fits_otsu_sums(&filled(0, 0, 0)));
}

#[test]
fn large_dark_image_fits_but_large_white_one_does_not() {
    // 4200 * 4011 pixels: more than u32::MAX / 255 of them.
    assert!(fits_otsu_sums(&filled(4200, 4011, 0)));
    assert!(!fits_otsu_sums(&filled(4200, 4011, 255)));
}

#[test]
fn mostly_white_large_page_fits() {
    // 4200 by 4200, about 90% white: 255 times the white count stays in u32.
    let mut img = filled(4200, 4200, 255);
    for row in img.rows.iter_mut().take(420) {
        for v in row.iter_mut() {
            *v = 0;
        }
    }
    assert!(fits_otsu_sums(&img));
    // Whiter still, the product overflows.
    for row in img.rows.iter_mut().take(419) {
        for v in row.iter_mut() {
            *v = 255;
        }
    }
    assert!(!fits_otsu_sums(&img));
}
