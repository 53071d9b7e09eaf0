use extract_tables::{check_page_index, BBox, Error, GrayImage, Raster};

#[test]
fn bbox_new_keeps_edges() {
    let b = BBox::new(1, 2, 30, 40);
    assert_eq!((b.x1, b.y1, b.x2, b.y2), (1, 2, 30, 40));
}

#[test]
fn bbox_width_height_area() {
    let b = BBox::new(120, 340, 1880, 1620);
    assert_eq!(b.width(), 1760);
    assert_eq!(b.height(), 1280);
    assert_eq!(b.area(), 1760 * 1280);
    assert!(!b.is_empty());
}

#[test]
fn bbox_inverted_edges_saturate_to_zero() {
    let b = BBox::new(10, 10, 5, 20);
    assert_eq!(b.width(), 0);
    assert_eq!(b.height(), 10);
    assert_eq!(b.area(), 0);
    assert!(b.is_empty());
}

#[test]
fn bbox_zero_height_is_empty() {
    let b = BBox::new(0, 7, 9, 7);
    assert_eq!(b.height(), 0);
    assert!(b.is_empty());
    assert_eq!(b.area(), 0);
}

#[test]
fn bbox_full_range_area_fits_u64() {
    let b = BBox::new(0, 0, u32::MAX, u32::MAX);
    assert_eq!(b.area(), (u32::MAX as u64) * (u32::MAX as u64));
}

#[test]
fn bbox_empty_exactly_when_area_zero() {
    for &(x1, y1, x2, y2) in &[(0, 0, 0, 5), (0, 0, 5, 0), (3, 3, 4, 4), (9, 1, 2, 8), (0, 0, 2, 3)] {
        let b = BBox::new(x1, y1, x2, y2);
        assert_eq!(b.is_empty(), b.area() == 0);
    }
}

#[test]
fn page_index_in_range_is_accepted() {
    assert_eq!(check_page_index(0, 3), Ok(()));
    assert_eq!(check_page_index(2, 3), Ok(()));
}

#[test]
fn page_index_out_of_range_is_refused() {
    assert_eq!(check_page_index(3, 3), Err(Error::PageOutOfRange { requested: 3, total: 3 }));
    assert_eq!(check_page_index(-1, 3), Err(Error::PageOutOfRange { requested: -1, total: 3 }));
    assert_eq!(check_page_index(0, 0), Err(Error::PageOutOfRange { requested: 0, total: 0 }));
}

#[test]
fn raster_from_rows_checks_shape() {
    let ok: Option<GrayImage> = Raster::from_rows(2, 2, vec![vec![0, 1], vec![2, 3]]);
    let img = ok.unwrap();
    assert_eq!((img.width, img.height), (2, 2));
    assert_eq!(img.rows[1][0], 2);
    assert!(Raster::<u8>::from_rows(2, 2, vec![vec![0, 1], vec![2]]).is_none());
    assert!(Raster::<u8>::from_rows(2, 3, vec![vec![0, 1], vec![2, 3]]).is_none());
}
