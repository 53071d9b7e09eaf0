use vstd::prelude::*;

verus! {

/// Axis-aligned bounding box in image pixels.
///
/// Top-left inclusive, bottom-right exclusive: `width = x2 - x1`,
/// `height = y2 - y1`. Origin is the top-left of the image.
#[derive(Debug, Clone, Copy, PartialEq, Eq, Structural)]
pub struct BBox {
    /// Left edge, inclusive.
    pub x1: u32,
    /// Top edge, inclusive.
    pub y1: u32,
    /// Right edge, exclusive.
    pub x2: u32,
    /// Bottom edge, exclusive.
    pub y2: u32,
}

impl BBox {
    /// Width in pixels, zero when the right edge lies left of the left edge.
    pub open spec fn spec_width(self) -> nat {
        if self.x2 >= self.x1 { (self.x2 - self.x1) as nat } else { 0 }
    }

    /// Height in pixels, zero when the bottom edge lies above the top edge.
    pub open spec fn spec_height(self) -> nat {
        if self.y2 >= self.y1 { (self.y2 - self.y1) as nat } else { 0 }
    }

    /// Pixel area.
    pub open spec fn spec_area(self) -> nat {
        self.spec_width() * self.spec_height()
    }

    /// Construct a new bounding box. Caller must ensure `x2 >= x1`, `y2 >= y1`.
    pub fn new(x1: u32, y1: u32, x2: u32, y2: u32) -> (b: Self)
        ensures
            b == (BBox { x1, y1, x2, y2 }),
    {
        BBox { x1, y1, x2, y2 }
    }

    /// Width in pixels.
    pub fn width(&self) -> (w: u32)
        ensures
            w == self.spec_width(),
    {
        self.x2.saturating_sub(self.x1)
    }

    /// Height in pixels.
    pub fn height(&self) -> (h: u32)
        ensures
            h == self.spec_height(),
    {
        self.y2.saturating_sub(self.y1)
    }

    /// Pixel area.
    pub fn area(&self) -> (a: u64)
        ensures
            a == self.spec_area(),
    {
        let w = self.width() as u64;
        let h = self.height() as u64;
        assert(w * h <= u32::MAX * u32::MAX) by (nonlinear_arith)
            requires
                w <= u32::MAX,
                h <= u32::MAX,
        ;
        w * h
    }

    /// True if width or height is zero.
    pub fn is_empty(&self) -> (e: bool)
        ensures
            e == (self.spec_width() == 0 || self.spec_height() == 0),
    {
        self.width() == 0 || self.height() == 0
    }
}

/// A box is empty (zero width or height) exactly when its area is zero.
pub proof fn lemma_empty_iff_zero_area(b: BBox)
    ensures
        (b.spec_width() == 0 || b.spec_height() == 0) <==> b.spec_area() == 0,
{
    let w = b.spec_width();
    let h = b.spec_height();
    assert((w == 0 || h == 0) <==> w * h == 0) by (nonlinear_arith);
}

/// A cell in a detected table.
///
/// `row_span` and `col_span` are always at least one. Values greater than one
/// mean the cell was merged across multiple grid positions.
#[derive(Debug, Clone, Copy, PartialEq, Eq, Structural)]
pub struct Cell {
    /// Row index of the cell's top-left grid position (zero-based).
    pub row: u32,
    /// Column index of the cell's top-left grid position (zero-based).
    pub col: u32,
    /// Number of grid rows the cell spans.
    pub row_span: u32,
    /// Number of grid columns the cell spans.
    pub col_span: u32,
    /// Pixel bounding box.
    pub bbox: BBox,
}

/// A detected table: outer bbox plus its row, column, and cell grid.
#[derive(Debug, Clone, PartialEq, Eq)]
pub struct Table {
    /// Outer bounding box.
    pub bbox: BBox,
    /// Row strips, top to bottom.
    pub rows: Vec<BBox>,
    /// Column strips, left to right.
    pub cols: Vec<BBox>,
    /// Cells in row-major order.
    pub cells: Vec<Cell>,
}

/// The contents of a [`Table`] as mathematical sequences.
pub struct TableModel {
    pub bbox: BBox,
    pub rows: Seq<BBox>,
    pub cols: Seq<BBox>,
    pub cells: Seq<Cell>,
}

impl TableModel {
    /// Row strips run top to bottom without gaps and span the table's width;
    /// column strips run left to right without gaps and span its height;
    /// every cell spans at least one row and column of the grid, its box runs
    /// from the strips where it starts to those where it ends, cells come in
    /// row-major order, and every grid position lies in some cell.
    pub open spec fn well_formed(self) -> bool {
        let b = self.bbox;
        let rows = self.rows;
        let cols = self.cols;
        &&& forall|i: int|
            0 <= i < rows.len() ==> (#[trigger] rows[i]).x1 == b.x1 && rows[i].x2 == b.x2 && b.y1
                <= rows[i].y1 < rows[i].y2 <= b.y2
        &&& forall|i: int| 0 <= i < rows.len() - 1 ==> (#[trigger] rows[i]).y2 == rows[i + 1].y1
        &&& forall|i: int|
            0 <= i < cols.len() ==> (#[trigger] cols[i]).y1 == b.y1 && cols[i].y2 == b.y2 && b.x1
                <= cols[i].x1 < cols[i].x2 <= b.x2
        &&& forall|i: int| 0 <= i < cols.len() - 1 ==> (#[trigger] cols[i]).x2 == cols[i + 1].x1
        &&& forall|m: int|
            0 <= m < self.cells.len() ==> {
                let c = #[trigger] self.cells[m];
                &&& c.row_span >= 1
                &&& c.col_span >= 1
                &&& c.row + c.row_span <= rows.len()
                &&& c.col + c.col_span <= cols.len()
                &&& c.bbox == (BBox {
                    x1: cols[c.col as int].x1,
                    y1: rows[c.row as int].y1,
                    x2: cols[c.col + c.col_span - 1].x2,
                    y2: rows[c.row + c.row_span - 1].y2,
                })
            }
        &&& forall|i: int, j: int|
            0 <= i < j < self.cells.len() ==> (#[trigger] self.cells[i]).row < (
            #[trigger] self.cells[j]).row || (self.cells[i].row == self.cells[j].row
                && self.cells[i].col <= self.cells[j].col)
        &&& forall|r: int, c: int|
            0 <= r < rows.len() && 0 <= c < cols.len() ==> #[trigger] covered(self.cells, r, c)
    }
}

/// Some cell of `cells` spans grid position `(r, c)`.
pub open spec fn covered(cells: Seq<Cell>, r: int, c: int) -> bool {
    exists|m: int| 0 <= m < cells.len() && #[trigger] cells[m].spans(r, c)
}

impl Cell {
    /// The cell spans grid position `(r, c)`.
    pub open spec fn spans(self, r: int, c: int) -> bool {
        self.row <= r < self.row + self.row_span && self.col <= c < self.col + self.col_span
    }
}

impl View for Table {
    type V = TableModel;

    open spec fn view(&self) -> TableModel {
        TableModel { bbox: self.bbox, rows: self.rows@, cols: self.cols@, cells: self.cells@ }
    }
}

/// Result of running detection on a single image.
#[derive(Debug, Clone, PartialEq, Eq)]
pub struct Detection {
    /// Source image width.
    pub image_width: u32,
    /// Source image height.
    pub image_height: u32,
    /// Always `"image_pixels"`. Kept explicit so JSON consumers don't have
    /// to guess at the unit.
    pub coordinate_space: &'static str,
    /// Detected tables, in the order of the labels of their line skeletons.
    pub tables: Vec<Table>,
}

/// Detection thresholds resolved to pixels for one image.
///
/// The user-facing options are ratios of the image size; these are the
/// whole-pixel quantities they come to for a given image.
#[derive(Debug, Clone, PartialEq, Eq)]
pub struct DetectParams {
    /// Length of the horizontal structuring element, in pixels.
    pub h_kernel: u32,
    /// Length of the vertical structuring element, in pixels.
    pub v_kernel: u32,
    /// Tables whose bounding box covers fewer pixels are dropped.
    pub min_area: u64,
    /// Tables with fewer rows or columns than this are dropped.
    pub min_grid_lines: u32,
    /// `min_line_counts[s]`: how many line pixels a span of `s` pixels needs
    /// to count as a drawn border.
    pub min_line_counts: Vec<u32>,
}

} // verus!
