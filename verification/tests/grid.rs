use extract_tables::{
    build_cells, build_table, component_bboxes, horizontal_line_centers, line_present_horizontal,
    line_present_vertical, vertical_line_centers, BBox, Cell, DetectParams, GrayImage, LabelImage,
};

const F: u8 = 255;

fn blank(width: u32, height: u32) -> GrayImage {
    GrayImage { width, height, rows: vec![vec![0; width as usize]; height as usize] }
}

fn hline(img: &mut GrayImage, y: u32, x1: u32, x2: u32) {
    for x in x1..=x2 {
        img.rows[y as usize][x as usize] = F;
    }
}

fn vline(img: &mut GrayImage, x: u32, y1: u32, y2: u32) {
    for y in y1..=y2 {
        img.rows[y as usize][x as usize] = F;
    }
}

/// Half of every span, rounded down.
fn half_counts(n: usize) -> Vec<u32> {
    (0..n as u32).map(|s| s / 2).collect()
}

#[test]
fn component_boxes_in_label_order() {
    let labels = LabelImage {
        width: 5,
        height: 3,
        rows: vec![vec![2, 2, 0, 0, 1], vec![0, 2, 0, 1, 1], vec![3, 0, 0, 0, 1]],
    };
    let boxes = component_bboxes(&labels);
    assert_eq!(
        boxes,
        vec![BBox::new(3, 0, 5, 3), BBox::new(0, 0, 2, 2), BBox::new(0, 2, 1, 3)]
    );
}

#[test]
fn component_boxes_skip_missing_labels_and_background() {
    let labels = LabelImage { width: 3, height: 2, rows: vec![vec![0, 7, 0], vec![0, 0, 4]] };
    assert_eq!(component_bboxes(&labels), vec![BBox::new(2, 1, 3, 2), BBox::new(1, 0, 2, 1)]);
    let empty = LabelImage { width: 2, height: 2, rows: vec![vec![0, 0], vec![0, 0]] };
    assert!(component_bboxes(&empty).is_empty());
}

#[test]
fn line_centers_are_run_midpoints() {
    let mut mask = blank(10, 10);
    hline(&mut mask, 2, 0, 9);
    hline(&mut mask, 3, 0, 9);
    hline(&mut mask, 7, 0, 9);
    hline(&mut mask, 9, 0, 9);
    let counts = half_counts(11);
    let bbox = BBox::new(0, 0, 10, 10);
    // Runs [2, 4), [7, 8) and [9, 10) (closed by the box edge).
    assert_eq!(horizontal_line_centers(&mask, bbox, &counts), vec![3, 7, 9]);
    assert!(vertical_line_centers(&mask, bbox, &counts).is_empty());
}

#[test]
fn line_centers_need_enough_coverage() {
    let mut mask = blank(10, 4);
    hline(&mut mask, 1, 0, 3);
    hline(&mut mask, 2, 0, 6);
    let counts = half_counts(11);
    // A row needs 5 of its 10 pixels.
    assert_eq!(horizontal_line_centers(&mask, BBox::new(0, 0, 10, 4), &counts), vec![2]);
    // Inside a narrower box the short row counts too: run [1, 3).
    assert_eq!(horizontal_line_centers(&mask, BBox::new(0, 0, 4, 4), &counts), vec![2]);
}

#[test]
fn line_centers_of_empty_box() {
    let mask = blank(4, 4);
    let counts = vec![0; 5];
    assert!(horizontal_line_centers(&mask, BBox::new(2, 0, 2, 4), &counts).is_empty());
    assert!(vertical_line_centers(&mask, BBox::new(0, 3, 4, 3), &counts).is_empty());
    // A zero threshold makes every row of a non-empty box a line: one run.
    assert_eq!(horizontal_line_centers(&mask, BBox::new(0, 0, 4, 4), &counts), vec![2]);
}

#[test]
fn vertical_line_centers_exact() {
    let mut mask = blank(8, 6);
    vline(&mut mask, 1, 0, 5);
    vline(&mut mask, 5, 0, 5);
    vline(&mut mask, 6, 0, 5);
    let counts = half_counts(9);
    // Runs [1, 2) and [5, 7).
    assert_eq!(vertical_line_centers(&mask, BBox::new(0, 0, 8, 6), &counts), vec![1, 6]);
}

#[test]
fn line_presence_tests() {
    let mut mask = blank(6, 3);
    hline(&mut mask, 1, 0, 3);
    let counts = half_counts(10);
    assert!(line_present_horizontal(&mask, 1, 0, 6, &counts));
    assert!(!line_present_horizontal(&mask, 0, 0, 6, &counts));
    // Empty or reversed span.
    assert!(!line_present_horizontal(&mask, 1, 3, 3, &counts));
    assert!(!line_present_horizontal(&mask, 1, 4, 2, &counts));
    // Row outside the mask.
    assert!(!line_present_horizontal(&mask, 5, 0, 6, &counts));
    // Only the part of the span inside the mask is counted: 4 of 9 needed 4.
    assert!(line_present_horizontal(&mask, 1, 0, 9, &counts));
    let mut v = blank(3, 6);
    vline(&mut v, 2, 0, 2);
    assert!(line_present_vertical(&v, 2, 0, 6, &counts));
    assert!(!line_present_vertical(&v, 2, 3, 6, &counts));
    assert!(!line_present_vertical(&v, 3, 0, 6, &counts));
    assert!(!line_present_vertical(&v, 2, 4, 4, &counts));
}

/// A 3 by 3 line grid over a 40 by 30 mask: lines at y = 5, 15, 25 and
/// x = 5, 20, 35.
fn grid_masks() -> (GrayImage, GrayImage) {
    let mut h = blank(40, 30);
    let mut v = blank(40, 30);
    for &y in &[5, 15, 25] {
        hline(&mut h, y, 5, 35);
    }
    for &x in &[5, 20, 35] {
        vline(&mut v, x, 5, 25);
    }
    (h, v)
}

#[test]
fn cells_of_full_grid() {
    let (h, v) = grid_masks();
    let counts = half_counts(41);
    let cells = build_cells(&vec![5, 15, 25], &vec![5, 20, 35], &h, &v, &counts);
    assert_eq!(
        cells,
        vec![
            Cell { row: 0, col: 0, row_span: 1, col_span: 1, bbox: BBox::new(5, 5, 20, 15) },
            Cell { row: 0, col: 1, row_span: 1, col_span: 1, bbox: BBox::new(20, 5, 35, 15) },
            Cell { row: 1, col: 0, row_span: 1, col_span: 1, bbox: BBox::new(5, 15, 20, 25) },
            Cell { row: 1, col: 1, row_span: 1, col_span: 1, bbox: BBox::new(20, 15, 35, 25) },
        ]
    );
}

#[test]
fn cells_merge_across_missing_border() {
    let (h, mut v) = grid_masks();
    for y in 5..15 {
        v.rows[y][20] = 0;
    }
    let counts = half_counts(41);
    let cells = build_cells(&vec![5, 15, 25], &vec![5, 20, 35], &h, &v, &counts);
    assert_eq!(
        cells,
        vec![
            Cell { row: 0, col: 0, row_span: 1, col_span: 2, bbox: BBox::new(5, 5, 35, 15) },
            Cell { row: 1, col: 0, row_span: 1, col_span: 1, bbox: BBox::new(5, 15, 20, 25) },
            Cell { row: 1, col: 1, row_span: 1, col_span: 1, bbox: BBox::new(20, 15, 35, 25) },
        ]
    );
}

#[test]
fn cells_merge_l_shaped_region_to_its_bounding_span() {
    let (mut h, mut v) = grid_masks();
    // Remove the border between (0, 0) and (0, 1) and between (0, 0) and (1, 0).
    for y in 5..15 {
        v.rows[y][20] = 0;
    }
    for x in 5..20 {
        h.rows[15][x] = 0;
    }
    let counts = half_counts(41);
    let cells = build_cells(&vec![5, 15, 25], &vec![5, 20, 35], &h, &v, &counts);
    assert_eq!(
        cells,
        vec![
            Cell { row: 0, col: 0, row_span: 2, col_span: 2, bbox: BBox::new(5, 5, 35, 25) },
            Cell { row: 1, col: 1, row_span: 1, col_span: 1, bbox: BBox::new(20, 15, 35, 25) },
        ]
    );
}

#[test]
fn cells_of_single_line_grid_are_empty() {
    let (h, v) = grid_masks();
    let counts = half_counts(41);
    assert!(build_cells(&vec![5], &vec![5, 20], &h, &v, &counts).is_empty());
}

#[test]
fn cells_are_row_major_with_positive_spans() {
    let (mut h, mut v) = grid_masks();
    for x in 20..35 {
        h.rows[15][x] = 0;
    }
    for y in 15..25 {
        v.rows[y][20] = 0;
    }
    let counts = half_counts(41);
    let cells = build_cells(&vec![5, 15, 25], &vec![5, 20, 35], &h, &v, &counts);
    for w in cells.windows(2) {
        assert!((w[0].row, w[0].col) <= (w[1].row, w[1].col));
    }
    for c in &cells {
        assert!(c.row_span >= 1 && c.col_span >= 1);
    }
    assert_eq!(cells.len(), 2);
}

fn params(min_grid_lines: u32) -> DetectParams {
    DetectParams {
        h_kernel: 10,
        v_kernel: 10,
        min_area: 0,
        min_grid_lines,
        min_line_counts: half_counts(41),
    }
}

#[test]
fn table_from_component_box() {
    let (h, v) = grid_masks();
    let table = build_table(BBox::new(5, 5, 36, 26), &h, &v, &params(2)).unwrap();
    assert_eq!(table.bbox, BBox::new(5, 5, 36, 26));
    assert_eq!(table.rows, vec![BBox::new(5, 5, 36, 15), BBox::new(5, 15, 36, 25)]);
    assert_eq!(table.cols, vec![BBox::new(5, 5, 20, 26), BBox::new(20, 5, 35, 26)]);
    assert_eq!(table.cells.len(), 4);
}

#[test]
fn table_needs_enough_grid_lines() {
    let (h, v) = grid_masks();
    assert!(build_table(BBox::new(5, 5, 36, 26), &h, &v, &params(3)).is_none());
    let empty = blank(40, 30);
    assert!(build_table(BBox::new(5, 5, 36, 26), &empty, &v, &params(0)).is_none());
}

#[test]
fn chain_of_missing_borders_merges_transitively() {
    // One row of three cells between x = 5, 15, 25, 35; both inner borders
    // are missing, so all three positions form one cell.
    let mut h = blank(40, 20);
    let mut v = blank(40, 20);
    for &y in &[5, 15] {
        hline(&mut h, y, 5, 35);
    }
    for &x in &[5, 35] {
        vline(&mut v, x, 5, 15);
    }
    let counts = half_counts(41);
    let cells = build_cells(&vec![5, 15], &vec![5, 15, 25, 35], &h, &v, &counts);
    assert_eq!(
        cells,
        vec![Cell { row: 0, col: 0, row_span: 1, col_span: 3, bbox: BBox::new(5, 5, 35, 15) }]
    );
}

#[test]
fn every_grid_position_lies_in_one_listed_cell() {
    let (mut h, mut v) = grid_masks();
    for x in 20..35 {
        h.rows[15][x] = 0;
    }
    for y in 5..15 {
        v.rows[y][20] = 0;
    }
    let counts = half_counts(41);
    let cells = build_cells(&vec![5, 15, 25], &vec![5, 20, 35], &h, &v, &counts);
    for r in 0..2u32 {
        for c in 0..2u32 {
            assert!(cells.iter().any(|cell| cell.row <= r
                && r < cell.row + cell.row_span
                && cell.col <= c
                && c < cell.col + cell.col_span));
        }
    }
}

#[test]
fn line_centers_increase_inside_the_box() {
    let mut mask = blank(12, 12);
    for &y in &[1, 2, 5, 8, 9, 10] {
        hline(&mut mask, y, 0, 11);
    }
    let counts = half_counts(13);
    let bbox = BBox::new(0, 1, 12, 11);
    let centers = horizontal_line_centers(&mask, bbox, &counts);
    assert_eq!(centers, vec![2, 5, 9]);
    for w in centers.windows(2) {
        assert!(w[0] < w[1]);
    }
    assert!(centers.iter().all(|&c| bbox.y1 <= c && c < bbox.y2));
}
