use vstd::prelude::*;

verus! {

/// A two-dimensional grid of samples stored row by row: `rows[y][x]` is the
/// sample at column `x` of row `y`.
#[derive(Debug, Clone)]
pub struct Raster<T> {
    /// Number of columns.
    pub width: u32,
    /// Number of rows.
    pub height: u32,
    /// The samples, `height` rows of `width` samples each.
    pub rows: Vec<Vec<T>>,
}

/// A single-channel 8-bit image. Masks use 255 for foreground and 0 for
/// background.
pub type GrayImage = Raster<u8>;

/// An image of component labels, 0 for background.
pub type LabelImage = Raster<u32>;

/// The samples of a vector of rows.
pub open spec fn rows_view<T>(rows: Seq<Vec<T>>) -> Seq<Seq<T>> {
    rows.map_values(|r: Vec<T>| r@)
}

impl<T> View for Raster<T> {
    type V = Seq<Seq<T>>;

    open spec fn view(&self) -> Seq<Seq<T>> {
        rows_view(self.rows@)
    }
}

/// `px` holds `height` rows of `width` samples each.
pub open spec fn shaped<T>(px: Seq<Seq<T>>, width: int, height: int) -> bool {
    &&& px.len() == height
    &&& forall|y: int| 0 <= y < height ==> #[trigger] px[y].len() == width
}

impl<T> Raster<T> {
    /// The rows hold exactly `height` rows of `width` samples.
    pub open spec fn wf(&self) -> bool {
        shaped(self@, self.width as int, self.height as int)
    }

    /// Build a raster from its rows; `None` when the rows do not have the
    /// given shape.
    pub fn from_rows(width: u32, height: u32, rows: Vec<Vec<T>>) -> (r: Option<Self>)
        ensures
            r is Some <==> shaped(rows_view(rows@), width as int, height as int),
            r matches Some(img) ==> img.width == width && img.height == height && img.rows@ == rows@,
    {
        if rows.len() != height as usize {
            return None;
        }
        let mut y: usize = 0;
        while y < rows.len()
            invariant
                0 <= y <= rows.len(),
                rows.len() == height,
                forall|j: int| 0 <= j < y ==> #[trigger] rows@[j].len() == width,
            decreases rows.len() - y,
        {
            if rows[y].len() != width as usize {
                assert(!shaped(rows_view(rows@), width as int, height as int)) by {
                    assert(rows_view(rows@)[y as int].len() == rows@[y as int].len());
                }
                return None;
            }
            y += 1;
        }
        assert(shaped(rows_view(rows@), width as int, height as int)) by {
            assert forall|j: int| 0 <= j < height implies #[trigger] rows_view(rows@)[j].len() == width by {
                assert(rows@[j].len() == width);
            }
        }
        Some(Raster { width, height, rows })
    }
}

} // verus!
