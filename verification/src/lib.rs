//! Detect table, row, column, and cell bounding boxes in rasterized images of
//! bordered tables. Classical computer vision: no ML, no OCR.
//!
//! Built for clean digital tables with visible borderlines. Multiple tables
//! per image are supported as long as their line skeletons stay disconnected.
//!
//! Pipeline: Otsu binarization, horizontal and vertical morphological
//! opening to extract the line skeleton, connected components to separate
//! tables, projection profiles per table to recover row and column lines, and
//! a disjoint-set forest over the grid to merge cells whose inner border is
//! missing.

mod cells;
mod components;
mod detect;
mod error;
mod imaging;
mod lines;
mod morphology;
mod ordering;
mod page;
mod raster;
mod types;
mod unionfind;

pub use cells::build_cells;
pub use components::component_bboxes;
pub use detect::{build_table, detect_tables};
pub use error::Error;
pub use imaging::{binarize, fits_otsu_sums};
pub use lines::{
    horizontal_line_centers, line_present_horizontal, line_present_vertical, vertical_line_centers,
};
pub use morphology::{
    horizontal_dilate, horizontal_erode, horizontal_open, or_masks, vertical_dilate, vertical_erode,
    vertical_open,
};
pub use page::check_page_index;
pub use raster::{GrayImage, LabelImage, Raster};
pub use types::{BBox, Cell, DetectParams, Detection, Table};
