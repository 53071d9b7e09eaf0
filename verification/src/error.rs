use vstd::prelude::*;

verus! {

/// Errors returned by this crate.
#[derive(Debug, Clone, Copy, PartialEq, Eq)]
pub enum Error {
    /// Input image had zero width or height.
    EmptyImage,
    /// An option was outside its valid range.
    InvalidOptions(&'static str),
    /// Page index passed to the rasterizer doesn't exist in the PDF.
    PageOutOfRange {
        /// Page index that was requested (zero-based).
        requested: i32,
        /// Number of pages in the document.
        total: i32,
    },
}

} // verus!
