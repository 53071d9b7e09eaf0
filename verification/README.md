# extract_tables

Detects table, row, column, and cell bounding boxes in rasterized images of
bordered tables, with classical computer vision: Otsu binarization,
horizontal and vertical morphological opening, connected components of the
line skeleton, projection profiles for the row and column lines, and a
disjoint-set forest that merges grid cells whose inner border is missing.

## Layout

- `src/` is the library, written in Verus. Every function carries a
  `requires`/`ensures` contract. Verus proves all of them except those of
  the three imageproc wrappers in `imaging.rs`, which are trusted as
  stated there.
  - `raster.rs`: the image type (`Raster`, `GrayImage`, `LabelImage`).
  - `imaging.rs`: Otsu's threshold, inverted thresholding and connected
    components, called in `imageproc` behind trusted wrappers.
  - `morphology.rs`: erosion, dilation and opening with line elements, and
    their laws (opening never adds foreground, keeps runs long enough for
    the element, and is idempotent; vertical opening is horizontal opening
    of the transpose).
  - `components.rs`: bounding boxes of labelled components, in label order.
  - `lines.rs`: row and column line positions of a table (run midpoints of
    the projection profile) and the border-presence tests.
  - `unionfind.rs`, `cells.rs`: the merged-cell grid; the partition the
    forest computes is proved equal to connectivity across missing borders.
  - `detect.rs`: `build_table` and `detect_tables`, specified end to end:
    each table found is the bounding box of its own eight-connected region
    of the line skeleton, so tables whose skeletons do not touch stay
    apart; raising the minimum area or grid-line count only filters the
    tables found.
  - `page.rs`: page-index validation for rasterizing a PDF page.
- `app/` is ordinary Rust around the library: the user-facing
  `DetectOptions` with floating-point ratios and their conversion into the
  library's whole-pixel `DetectParams`, conversion from `image::DynamicImage`,
  serde-ready copies of the result types, the error type with I/O and pdfium
  variants, and PDF rasterization through `pdfium-render`.
- `tests/` exercises the library on concrete images.

Coordinates are image pixels with the origin at the top-left; `x2` and `y2`
are exclusive.
