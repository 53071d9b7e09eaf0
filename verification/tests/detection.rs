use extract_tables::{detect_tables, BBox, Cell, DetectParams, Error, GrayImage};

/// A white 40 by 30 page with a black 2 by 2 table: horizontal lines at
/// y = 5, 15, 25 and vertical lines at x = 5, 20, 35.
fn page() -> GrayImage {
    let mut rows = vec![vec![240u8; 40]; 30];
    for &y in &[5usize, 15, 25] {
        for x in 5..=35 {
            rows[y][x] = 20;
        }
    }
    for &x in &[5usize, 20, 35] {
        for y in 5..=25 {
            rows[y][x] = 20;
        }
    }
    GrayImage { width: 40, height: 30, rows }
}

fn params() -> DetectParams {
    DetectParams {
        h_kernel: 10,
        v_kernel: 10,
        min_area: 40,
        min_grid_lines: 2,
        min_line_counts: (0..41u32).map(|s| s / 2).collect(),
    }
}

fn cell(row: u32, col: u32, row_span: u32, col_span: u32, b: (u32, u32, u32, u32)) -> Cell {
    Cell { row, col, row_span, col_span, bbox: BBox::new(b.0, b.1, b.2, b.3) }
}

#[test]
fn detects_single_table() {
    let d = detect_tables(&page(), &params()).unwrap();
    assert_eq!(d.image_width, 40);
    assert_eq!(d.image_height, 30);
    assert_eq!(d.coordinate_space, "image_pixels");
    assert_eq!(d.tables.len(), 1);
    let t = &d.tables[0];
    assert_eq!(t.bbox, BBox::new(5, 5, 36, 26));
    assert_eq!(t.rows, vec![BBox::new(5, 5, 36, 15), BBox::new(5, 15, 36, 25)]);
    assert_eq!(t.cols, vec![BBox::new(5, 5, 20, 26), BBox::new(20, 5, 35, 26)]);
    assert_eq!(
        t.cells,
        vec![
            cell(0, 0, 1, 1, (5, 5, 20, 15)),
            cell(0, 1, 1, 1, (20, 5, 35, 15)),
            cell(1, 0, 1, 1, (5, 15, 20, 25)),
            cell(1, 1, 1, 1, (20, 15, 35, 25)),
        ]
    );
}

#[test]
fn merged_cell_across_missing_border() {
    let mut img = page();
    for y in 6..15 {
        img.rows[y][20] = 240;
    }
    let d = detect_tables(&img, &params()).unwrap();
    assert_eq!(d.tables.len(), 1);
    assert_eq!(
        d.tables[0].cells,
        vec![
            cell(0, 0, 1, 2, (5, 5, 35, 15)),
            cell(1, 0, 1, 1, (5, 15, 20, 25)),
            cell(1, 1, 1, 1, (20, 15, 35, 25)),
        ]
    );
}

#[test]
fn two_disconnected_tables_are_reported_separately() {
    // Two 1 by 1 tables side by side: boxes x 2..=12 and x 20..=30, y 2..=12.
    let mut rows = vec![vec![255u8; 40]; 16];
    for &(x1, x2) in &[(2usize, 12usize), (20, 30)] {
        for &y in &[2usize, 12] {
            for x in x1..=x2 {
                rows[y][x] = 0;
            }
        }
        for &x in &[x1, x2] {
            for y in 2..=12 {
                rows[y][x] = 0;
            }
        }
    }
    let img = GrayImage { width: 40, height: 16, rows };
    let p = DetectParams {
        h_kernel: 5,
        v_kernel: 5,
        min_area: 0,
        min_grid_lines: 1,
        min_line_counts: (0..41u32).map(|s| s / 2).collect(),
    };
    let d = detect_tables(&img, &p).unwrap();
    assert_eq!(d.tables.len(), 2);
    assert_eq!(d.tables[0].bbox, BBox::new(2, 2, 13, 13));
    assert_eq!(d.tables[1].bbox, BBox::new(20, 2, 31, 13));
    for t in &d.tables {
        assert_eq!(t.rows.len(), 1);
        assert_eq!(t.cols.len(), 1);
        assert_eq!(t.cells.len(), 1);
    }
}

#[test]
fn bridged_tables_are_reported_as_one() {
    // The two tables above, joined by a stroke at y = 7 from x = 12 to 20:
    // their skeletons touch, so they form one region and one table.
    let mut rows = vec![vec![255u8; 40]; 16];
    for &(x1, x2) in &[(2usize, 12usize), (20, 30)] {
        for &y in &[2usize, 12] {
            for x in x1..=x2 {
                rows[y][x] = 0;
            }
        }
        for &x in &[x1, x2] {
            for y in 2..=12 {
                rows[y][x] = 0;
            }
        }
    }
    for x in 12..=20 {
        rows[7][x] = 0;
    }
    let img = GrayImage { width: 40, height: 16, rows };
    let p = DetectParams {
        h_kernel: 5,
        v_kernel: 5,
        min_area: 0,
        min_grid_lines: 1,
        min_line_counts: (0..41u32).map(|s| s / 2).collect(),
    };
    let d = detect_tables(&img, &p).unwrap();
    assert_eq!(d.tables.len(), 1);
    assert_eq!(d.tables[0].bbox, BBox::new(2, 2, 31, 13));
    assert_eq!(d.tables[0].rows.len(), 1);
    assert_eq!(d.tables[0].cols.len(), 3);
}

#[test]
fn small_tables_are_dropped() {
    let mut p = params();
    p.min_area = 1000;
    let d = detect_tables(&page(), &p).unwrap();
    assert!(d.tables.is_empty());
}

#[test]
fn too_few_grid_lines_drop_the_table() {
    let mut p = params();
    p.min_grid_lines = 3;
    let d = detect_tables(&page(), &p).unwrap();
    assert!(d.tables.is_empty());
}

#[test]
fn blank_page_has_no_tables() {
    let img = GrayImage { width: 12, height: 9, rows: vec![vec![255u8; 12]; 9] };
    let d = detect_tables(&img, &params()).unwrap();
    assert!(d.tables.is_empty());
    assert_eq!((d.image_width, d.image_height), (12, 9));
}

#[test]
fn empty_image_is_an_error() {
    let img = GrayImage { width: 0, height: 5, rows: vec![Vec::new(); 5] };
    assert_eq!(detect_tables(&img, &params()), Err(Error::EmptyImage));
    let img = GrayImage { width: 7, height: 0, rows: Vec::new() };
    assert_eq!(detect_tables(&img, &params()), Err(Error::EmptyImage));
}

#[test]
fn detected_tables_are_well_formed() {
    let d = detect_tables(&page(), &params()).unwrap();
    for t in &d.tables {
        assert!(t.bbox.x2 <= d.image_width && t.bbox.y2 <= d.image_height);
        for w in t.rows.windows(2) {
            assert_eq!(w[0].y2, w[1].y1);
        }
        for w in t.cols.windows(2) {
            assert_eq!(w[0].x2, w[1].x1);
        }
        for c in &t.cells {
            assert!(c.bbox.x1 >= t.bbox.x1 && c.bbox.x2 <= t.bbox.x2);
            assert!(c.bbox.y1 >= t.bbox.y1 && c.bbox.y2 <= t.bbox.y2);
        }
    }
}

#[test]
fn single_light_pixel_has_no_tables() {
    let img = GrayImage { width: 1, height: 1, rows: vec![vec![200]] };
    let d = detect_tables(&img, &params()).unwrap();
    assert!(d.tables.is_empty());
    assert_eq!((d.image_width, d.image_height), (1, 1));
}
