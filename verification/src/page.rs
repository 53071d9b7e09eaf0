//! Page selection for rasterizing one page of a PDF document.
use vstd::prelude::*;

use crate::error::Error;

verus! {

/// Check that `page_index` names a page of a document with `total` pages
/// (zero-based).
pub fn check_page_index(page_index: i32, total: i32) -> (r: Result<(), Error>)
    ensures
        r is Ok <==> 0 <= page_index < total,
        r matches Err(e) ==> e == (Error::PageOutOfRange { requested: page_index, total }),
{
    if page_index < 0 || page_index >= total {
        return Err(Error::PageOutOfRange { requested: page_index, total });
    }
    Ok(())
}

} // verus!
