//! Calls into imageproc: Otsu's threshold, inverted binary thresholding and
//! connected-component labelling, on the library's own raster types.
use vstd::prelude::*;

use crate::raster::{GrayImage, LabelImage};

verus! {

/// The grey level that Otsu's method picks for an image of the given size
/// and samples (imageproc's `otsu_level`).
pub uninterp spec fn otsu_level_of(width: u32, height: u32, pixels: Seq<Seq<u8>>) -> u8;

/// The labels that imageproc's `connected_components` gives the pixels of a
/// mask, with eight-way connectivity and 0 as the background value.
pub uninterp spec fn component_labels_of(width: u32, height: u32, pixels: Seq<Seq<u8>>) -> Seq<Seq<u32>>;

/// Number of samples equal to `v` in the first `n` samples of `row`.
pub open spec fn row_value_count(row: Seq<u8>, v: u8, n: int) -> nat
    decreases n,
{
    if n <= 0 {
        0
    } else {
        row_value_count(row, v, n - 1) + if row[n - 1] == v { 1nat } else { 0nat }
    }
}

/// Number of samples equal to `v` in the first `k` rows of `px`.
pub open spec fn grid_value_count(px: Seq<Seq<u8>>, v: u8, k: int) -> nat
    decreases k,
{
    if k <= 0 {
        0
    } else {
        grid_value_count(px, v, k - 1) + row_value_count(px[k - 1], v, px[k - 1].len() as int)
    }
}

/// Number of pixels of grey level `v`.
pub open spec fn value_count(px: Seq<Seq<u8>>, v: u8) -> nat {
    grid_value_count(px, v, px.len() as int)
}

/// imageproc's Otsu computation stays within `u32` arithmetic: the pixel
/// count fits, and so does every product of a grey level and its count.
pub open spec fn otsu_sums_fit(width: u32, height: u32, px: Seq<Seq<u8>>) -> bool {
    &&& width * height <= u32::MAX
    &&& forall|v: u8| #[trigger] (v * value_count(px, v)) <= u32::MAX
}

/// imageproc's `contrast::otsu_level`: the threshold of Otsu's method,
/// named `otsu_level_of` since it depends on the pixels alone. Its sums are
/// `u32`: the pixel count and each product of a grey level and its count
/// must fit, else it overflows, and such images are left out. As its source
/// shows, the level only moves from 0 to a grey level that some pixel
/// exceeds.
#[verifier::external_body]
fn otsu_level(img: &GrayImage) -> (level: u8)
    requires
        img.wf(),
        otsu_sums_fit(img.width, img.height, img@),
    ensures
        level == otsu_level_of(img.width, img.height, img@),
        level == 0 || exists|y: int, x: int|
            0 <= y < img.height && 0 <= x < img.width && #[trigger] img@[y][x] > level,
{
    let buf = image::GrayImage::from_raw(img.width, img.height, img.rows.concat()).unwrap();
    imageproc::contrast::otsu_level(&buf)
}

/// imageproc's `contrast::threshold` with `ThresholdType::BinaryInverted`:
/// a pixel above `level` becomes 0, every other pixel 255, as the
/// documentation of `ThresholdType` states.
#[verifier::external_body]
fn threshold_inverted(img: &GrayImage, level: u8) -> (out: GrayImage)
    requires
        img.wf(),
    ensures
        out.wf(),
        out.width == img.width,
        out.height == img.height,
        forall|y: int, x: int|
            0 <= y < img.height && 0 <= x < img.width ==> #[trigger] out@[y][x] == if img@[y][x]
                > level {
                0u8
            } else {
                255u8
            },
{
    let buf = image::GrayImage::from_raw(img.width, img.height, img.rows.concat()).unwrap();
    let out = imageproc::contrast::threshold(&buf, level, imageproc::contrast::ThresholdType::BinaryInverted);
    let rows = (0..img.height).map(|y| (0..img.width).map(|x| out.get_pixel(x, y).0[0]).collect()).collect();
    GrayImage { width: img.width, height: img.height, rows }
}

/// Pixel `(y, x)` opens a label of its own on the first raster pass of
/// imageproc's labelling: it is foreground and none of its already scanned
/// eight-neighbours (west, north-west, north, north-east) has its value.
pub open spec fn opens_label(px: Seq<Seq<u8>>, width: int, y: int, x: int) -> bool {
    let v = px[y][x];
    &&& v != 0
    &&& !(x > 0 && px[y][x - 1] == v)
    &&& !(y > 0 && px[y - 1][x] == v)
    &&& !(y > 0 && x > 0 && px[y - 1][x - 1] == v)
    &&& !(y > 0 && x + 1 < width && px[y - 1][x + 1] == v)
}

/// `lab` gives eight-adjacent foreground pixels of equal value the same
/// value.
pub open spec fn respects_regions(
    px: Seq<Seq<u8>>,
    width: int,
    height: int,
    lab: spec_fn(int, int) -> int,
) -> bool {
    forall|y1: int, x1: int, y2: int, x2: int|
        0 <= y1 < height && 0 <= x1 < width && 0 <= y2 < height && 0 <= x2 < width && -1 <= y1 - y2
            <= 1 && -1 <= x1 - x2 <= 1 && px[y1][x1] != 0 && #[trigger] px[y1][x1]
            == #[trigger] px[y2][x2] ==> lab(y1, x1) == lab(y2, x2)
}

/// Pixels `(y1, x1)` and `(y2, x2)` lie in one eight-connected region of
/// equal-valued foreground pixels: every labelling that respects regions
/// gives them the same value.
pub open spec fn same_region(
    px: Seq<Seq<u8>>,
    width: int,
    height: int,
    y1: int,
    x1: int,
    y2: int,
    x2: int,
) -> bool {
    forall|lab: spec_fn(int, int) -> int|
        #[trigger] respects_regions(px, width, height, lab) ==> lab(y1, x1) == lab(y2, x2)
}

/// imageproc's `region_labelling::connected_components` with
/// `Connectivity::Eight` and background `Luma([0])`. The labels are named
/// `component_labels_of`; as its documentation states, the output has the
/// input's size and a pixel is labelled 0 exactly when it is background.
/// It panics on images of 2^32 or more pixels, and also when every pixel
/// opens a label of its own on its first pass (its union-find forest has
/// one slot per pixel, and the last label then falls outside it, as on a
/// single foreground pixel); both are left out. As documented, two
/// foreground pixels share a label exactly when they lie in one
/// eight-connected region of equal-valued pixels; the label values
/// themselves are left to the name.
#[verifier::external_body]
pub(crate) fn label_components(img: &GrayImage) -> (labels: LabelImage)
    requires
        img.wf(),
        img.width * img.height <= u32::MAX,
        exists|y: int, x: int|
            0 <= y < img.height && 0 <= x < img.width && !#[trigger] opens_label(
                img@,
                img.width as int,
                y,
                x,
            ),
    ensures
        labels.wf(),
        labels.width == img.width,
        labels.height == img.height,
        labels@ == component_labels_of(img.width, img.height, img@),
        forall|y: int, x: int|
            0 <= y < img.height && 0 <= x < img.width ==> (#[trigger] labels@[y][x] == 0 <==> img@[y][x]
                == 0),
        forall|y1: int, x1: int, y2: int, x2: int|
            0 <= y1 < img.height && 0 <= x1 < img.width && 0 <= y2 < img.height && 0 <= x2 < img.width
                && img@[y1][x1] != 0 && img@[y2][x2] != 0 ==> (#[trigger] labels@[y1][x1]
                == #[trigger] labels@[y2][x2] <==> same_region(
                img@,
                img.width as int,
                img.height as int,
                y1,
                x1,
                y2,
                x2,
            )),
{
    let buf = image::GrayImage::from_raw(img.width, img.height, img.rows.concat()).unwrap();
    let out = imageproc::region_labelling::connected_components(
        &buf,
        imageproc::region_labelling::Connectivity::Eight,
        image::Luma([0u8]),
    );
    let rows = (0..img.height).map(|y| (0..img.width).map(|x| out.get_pixel(x, y).0[0]).collect()).collect();
    LabelImage { width: img.width, height: img.height, rows }
}

/// Binary version of a greyscale image: pixels at or below Otsu's level
/// (the dark ink of table borders) become 255, the rest 0.
pub open spec fn binarize_spec(width: u32, height: u32, px: Seq<Seq<u8>>) -> Seq<Seq<u8>> {
    Seq::new(
        height as nat,
        |y: int|
            Seq::new(
                width as nat,
                |x: int|
                    if px[y][x] > otsu_level_of(width, height, px) {
                        0u8
                    } else {
                        255u8
                    },
            ),
    )
}

/// Convert to a binary mask with Otsu's threshold, inverted so that dark
/// pixels become foreground.
pub fn binarize(gray: &GrayImage) -> (out: GrayImage)
    requires
        gray.wf(),
        otsu_sums_fit(gray.width, gray.height, gray@),
    ensures
        out.wf(),
        out.width == gray.width,
        out.height == gray.height,
        out@ == binarize_spec(gray.width, gray.height, gray@),
        otsu_level_of(gray.width, gray.height, gray@) == 0 || exists|y: int, x: int|
            0 <= y < gray.height && 0 <= x < gray.width && #[trigger] gray@[y][x] > otsu_level_of(
                gray.width,
                gray.height,
                gray@,
            ),
{
    let level = otsu_level(gray);
    let out = threshold_inverted(gray, level);
    assert forall|y: int| 0 <= y < gray.height implies #[trigger] out@[y] =~= binarize_spec(
        gray.width,
        gray.height,
        gray@,
    )[y] by {
        assert forall|x: int| 0 <= x < gray.width implies #[trigger] out@[y][x] == binarize_spec(
            gray.width,
            gray.height,
            gray@,
        )[y][x] by {}
    }
    assert(out@ =~= binarize_spec(gray.width, gray.height, gray@));
    out
}

proof fn lemma_row_value_count_bound(row: Seq<u8>, v: u8, n: int)
    requires
        0 <= n,
    ensures
        row_value_count(row, v, n) <= n,
    decreases n,
{
    if n > 0 {
        lemma_row_value_count_bound(row, v, n - 1);
    }
}

/// Whether imageproc's Otsu computation stays within `u32` arithmetic on
/// `image`: counts the pixels of every grey level and checks each product
/// of a level and its count.
pub fn fits_otsu_sums(image: &GrayImage) -> (fits: bool)
    requires
        image.wf(),
    ensures
        fits == otsu_sums_fit(image.width, image.height, image@),
{
    let ghost px = image@;
    assert((image.width as u64) * (image.height as u64) <= u32::MAX * u32::MAX) by (nonlinear_arith)
        requires
            image.width <= u32::MAX,
            image.height <= u32::MAX,
    ;
    if (image.width as u64) * (image.height as u64) > u32::MAX as u64 {
        return false;
    }
    let mut counts: Vec<u64> = vec![0u64; 256];
    let mut y: usize = 0;
    while y < image.rows.len()
        invariant
            image.wf(),
            px == image@,
            image.width * image.height <= u32::MAX,
            0 <= y <= image.height,
            counts.len() == 256,
            forall|i: int| 0 <= i < 256 ==> #[trigger] counts@[i] == grid_value_count(px, i as u8, y as int),
            forall|i: int| 0 <= i < 256 ==> #[trigger] counts@[i] <= y * image.width,
        decreases image.rows.len() - y,
    {
        assert(px[y as int] == image.rows@[y as int]@);
        assert(px[y as int].len() == image.width);
        let mut x: usize = 0;
        while x < image.rows[y].len()
            invariant
                image.wf(),
                px == image@,
                image.width * image.height <= u32::MAX,
                0 <= y < image.height,
                px[y as int] == image.rows@[y as int]@,
                px[y as int].len() == image.width,
                0 <= x <= image.width,
                counts.len() == 256,
                forall|i: int|
                    0 <= i < 256 ==> #[trigger] counts@[i] == grid_value_count(px, i as u8, y as int)
                        + row_value_count(px[y as int], i as u8, x as int),
                forall|i: int| 0 <= i < 256 ==> #[trigger] counts@[i] <= y * image.width + x,
            decreases image.width - x,
        {
            assert(y * image.width + x < image.width * image.height) by (nonlinear_arith)
                requires
                    y < image.height,
                    x < image.width,
            ;
            let v = image.rows[y][x];
            let c = counts[v as usize];
            counts.set(v as usize, c + 1);
            x += 1;
        }
        assert((y + 1) * image.width == y * image.width + image.width) by (nonlinear_arith);
        y += 1;
    }
    let mut i: usize = 0;
    while i < 256
        invariant
            px == image@,
            image.width * image.height <= u32::MAX,
            y == image.height,
            counts.len() == 256,
            forall|k: int| 0 <= k < 256 ==> #[trigger] counts@[k] == value_count(px, k as u8),
            forall|k: int| 0 <= k < 256 ==> #[trigger] counts@[k] <= image.width * image.height,
            0 <= i <= 256,
            forall|k: int| 0 <= k < i ==> (k as u8) * value_count(px, #[trigger] (k as u8)) <= u32::MAX,
        decreases 256 - i,
    {
        assert(counts@[i as int] <= u32::MAX);
        assert((i as u64) * counts@[i as int] <= 256 * u32::MAX) by (nonlinear_arith)
            requires
                i < 256,
                counts@[i as int] <= u32::MAX,
        ;
        if (i as u64) * counts[i] > u32::MAX as u64 {
            assert(((i as int) as u8) * value_count(px, (i as int) as u8) > u32::MAX);
            return false;
        }
        i += 1;
    }
    assert forall|v: u8| #[trigger] (v * value_count(px, v)) <= u32::MAX by {
        let k = v as int;
        assert((k as u8) == v);
    }
    true
}

} // verus!
