//! Horizontal and vertical erosion, dilation and opening of binary masks with
//! line-shaped structuring elements, computed with prefix sums.
use vstd::prelude::*;

use crate::raster::{rows_view, shaped, GrayImage};

verus! {

/// Number of foreground (255) samples of `s` at positions `lo..hi`.
pub open spec fn fg_count(s: Seq<u8>, lo: int, hi: int) -> nat
    decreases hi - lo,
{
    if hi <= lo {
        0
    } else {
        fg_count(s, lo, hi - 1) + if s[hi - 1] == 255 { 1nat } else { 0nat }
    }
}

/// Every sample of `s` at positions `lo..hi` is foreground.
pub open spec fn all_fg(s: Seq<u8>, lo: int, hi: int) -> bool {
    forall|i: int| lo <= i < hi ==> s[i] == 255
}

/// Some sample of `s` at positions `lo..hi` is foreground.
pub open spec fn any_fg(s: Seq<u8>, lo: int, hi: int) -> bool {
    exists|i: int| lo <= i < hi && s[i] == 255
}

/// First position of the window of half-width `half` around `x`.
pub open spec fn win_lo(x: int, half: int) -> int {
    if x >= half { x - half } else { 0 }
}

/// One past the last position of the window of half-width `half` around `x`
/// on a line of `n` samples.
pub open spec fn win_hi(x: int, half: int, n: int) -> int {
    if x + half + 1 <= n { x + half + 1 } else { n }
}

/// Erosion of one line: a sample stays foreground when its whole window is
/// foreground.
pub open spec fn erode_line_spec(s: Seq<u8>, half: int) -> Seq<u8> {
    Seq::new(
        s.len(),
        |x: int| if all_fg(s, win_lo(x, half), win_hi(x, half, s.len() as int)) { 255u8 } else { 0u8 },
    )
}

/// Dilation of one line: a sample becomes foreground when its window holds
/// some foreground sample.
pub open spec fn dilate_line_spec(s: Seq<u8>, half: int) -> Seq<u8> {
    Seq::new(
        s.len(),
        |x: int| if any_fg(s, win_lo(x, half), win_hi(x, half, s.len() as int)) { 255u8 } else { 0u8 },
    )
}

/// Column `x` of a row-major grid of samples.
pub open spec fn column_of(px: Seq<Seq<u8>>, x: int) -> Seq<u8> {
    Seq::new(px.len(), |y: int| px[y][x])
}

/// Erosion (`erode`) or dilation (`!erode`) of one line.
pub open spec fn line_op(s: Seq<u8>, half: int, erode: bool) -> Seq<u8> {
    if erode {
        erode_line_spec(s, half)
    } else {
        dilate_line_spec(s, half)
    }
}

/// Apply a line operation to every row.
pub open spec fn map_rows(px: Seq<Seq<u8>>, half: int, erode: bool) -> Seq<Seq<u8>> {
    Seq::new(px.len(), |y: int| line_op(px[y], half, erode))
}

/// Apply a line operation to every column of a grid `width` samples wide.
pub open spec fn map_columns(px: Seq<Seq<u8>>, width: int, half: int, erode: bool) -> Seq<Seq<u8>> {
    Seq::new(px.len(), |y: int| Seq::new(width as nat, |x: int| line_op(column_of(px, x), half, erode)[y]))
}

/// Half-width of the window of a structuring element of the given length.
pub open spec fn half_width(length: u32) -> int {
    (if length >= 1 { length as int } else { 1int }) / 2
}

/// Horizontal erosion of a mask.
pub open spec fn h_erode_spec(px: Seq<Seq<u8>>, length: u32) -> Seq<Seq<u8>> {
    map_rows(px, half_width(length), true)
}

/// Horizontal dilation of a mask.
pub open spec fn h_dilate_spec(px: Seq<Seq<u8>>, length: u32) -> Seq<Seq<u8>> {
    map_rows(px, half_width(length), false)
}

/// Vertical erosion of a mask `width` samples wide.
pub open spec fn v_erode_spec(px: Seq<Seq<u8>>, width: int, length: u32) -> Seq<Seq<u8>> {
    map_columns(px, width, half_width(length), true)
}

/// Vertical dilation of a mask `width` samples wide.
pub open spec fn v_dilate_spec(px: Seq<Seq<u8>>, width: int, length: u32) -> Seq<Seq<u8>> {
    map_columns(px, width, half_width(length), false)
}

/// Horizontal opening: erosion followed by dilation with the same element.
pub open spec fn h_open_spec(px: Seq<Seq<u8>>, length: u32) -> Seq<Seq<u8>> {
    h_dilate_spec(h_erode_spec(px, length), length)
}

/// Vertical opening: erosion followed by dilation with the same element.
pub open spec fn v_open_spec(px: Seq<Seq<u8>>, width: int, length: u32) -> Seq<Seq<u8>> {
    v_dilate_spec(v_erode_spec(px, width, length), width, length)
}

/// Pixelwise maximum of two masks.
pub open spec fn or_spec(a: Seq<Seq<u8>>, b: Seq<Seq<u8>>) -> Seq<Seq<u8>> {
    Seq::new(
        a.len(),
        |y: int| Seq::new(a[y].len(), |x: int| if a[y][x] >= b[y][x] { a[y][x] } else { b[y][x] }),
    )
}

proof fn lemma_fg_count_bounds(s: Seq<u8>, lo: int, hi: int)
    requires
        lo <= hi,
    ensures
        fg_count(s, lo, hi) <= hi - lo,
        fg_count(s, lo, hi) == hi - lo <==> all_fg(s, lo, hi),
        fg_count(s, lo, hi) == 0 <==> !any_fg(s, lo, hi),
    decreases hi - lo,
{
    if hi > lo {
        lemma_fg_count_bounds(s, lo, hi - 1);
        if s[hi - 1] != 255 {
            assert(!all_fg(s, lo, hi));
        } else {
            assert(any_fg(s, lo, hi));
        }
        if all_fg(s, lo, hi - 1) && s[hi - 1] == 255 {
            assert(all_fg(s, lo, hi));
        }
        if !any_fg(s, lo, hi - 1) && s[hi - 1] != 255 {
            assert forall|i: int| lo <= i < hi implies s[i] != 255 by {
                if i < hi - 1 {
                    assert(!(lo <= i < hi - 1 && s[i] == 255));
                }
            }
        }
    }
}

proof fn lemma_fg_count_split(s: Seq<u8>, lo: int, mid: int, hi: int)
    requires
        lo <= mid <= hi,
    ensures
        fg_count(s, lo, hi) == fg_count(s, lo, mid) + fg_count(s, mid, hi),
    decreases hi - mid,
{
    if hi > mid {
        lemma_fg_count_split(s, lo, mid, hi - 1);
    }
}

/// The window of `x` holds `x` itself, and `x` lies in the window of every
/// position of its own window.
proof fn lemma_window_symmetric(x: int, y: int, half: int, n: int)
    requires
        0 <= x < n,
        0 <= y < n,
        half >= 0,
        win_lo(x, half) <= y < win_hi(x, half, n),
    ensures
        win_lo(y, half) <= x < win_hi(y, half, n),
{
}

/// Erosion never adds foreground: an eroded sample is foreground only where
/// the input is.
pub proof fn lemma_erode_within(s: Seq<u8>, half: int)
    requires
        half >= 0,
    ensures
        forall|x: int|
            0 <= x < s.len() && #[trigger] erode_line_spec(s, half)[x] == 255 ==> s[x] == 255,
{
}

/// Dilation never removes foreground.
pub proof fn lemma_dilate_covers(s: Seq<u8>, half: int)
    requires
        half >= 0,
    ensures
        forall|x: int|
            0 <= x < s.len() && s[x] == 255 ==> #[trigger] dilate_line_spec(s, half)[x] == 255,
{
    assert forall|x: int| 0 <= x < s.len() && s[x] == 255 implies #[trigger] dilate_line_spec(
        s,
        half,
    )[x] == 255 by {
        assert(win_lo(x, half) <= x < win_hi(x, half, s.len() as int));
    }
}

/// Opening (erosion, then dilation with the same window) never adds
/// foreground.
pub proof fn lemma_open_line_within(s: Seq<u8>, half: int)
    requires
        half >= 0,
    ensures
        forall|x: int|
            0 <= x < s.len() && #[trigger] dilate_line_spec(erode_line_spec(s, half), half)[x] == 255
                ==> s[x] == 255,
{
    let e = erode_line_spec(s, half);
    assert forall|x: int|
        0 <= x < s.len() && #[trigger] dilate_line_spec(e, half)[x] == 255 implies s[x] == 255 by {
        let n = s.len() as int;
        let y = choose|y: int| win_lo(x, half) <= y < win_hi(x, half, n) && e[y] == 255;
        lemma_window_symmetric(x, y, half, n);
        assert(all_fg(s, win_lo(y, half), win_hi(y, half, n)));
    }
}

/// Horizontal opening of a mask keeps only pixels that were foreground.
pub proof fn lemma_h_open_within(px: Seq<Seq<u8>>, length: u32)
    ensures
        forall|y: int, x: int|
            0 <= y < px.len() && 0 <= x < px[y].len() && #[trigger] h_open_spec(px, length)[y][x] == 255
                ==> px[y][x] == 255,
{
    assert forall|y: int, x: int|
        0 <= y < px.len() && 0 <= x < px[y].len() && #[trigger] h_open_spec(px, length)[y][x] == 255
            implies px[y][x] == 255 by {
        let half = half_width(length);
        lemma_open_line_within(px[y], half);
        assert(h_open_spec(px, length)[y] == dilate_line_spec(erode_line_spec(px[y], half), half));
    }
}

/// Vertical opening of a `width`-wide mask keeps only pixels that were
/// foreground.
pub proof fn lemma_v_open_within(px: Seq<Seq<u8>>, width: int, length: u32)
    requires
        forall|y: int| 0 <= y < px.len() ==> #[trigger] px[y].len() == width,
    ensures
        forall|y: int, x: int|
            0 <= y < px.len() && 0 <= x < width && #[trigger] v_open_spec(px, width, length)[y][x] == 255
                ==> px[y][x] == 255,
{
    assert forall|y: int, x: int|
        0 <= y < px.len() && 0 <= x < width && #[trigger] v_open_spec(px, width, length)[y][x] == 255
            implies px[y][x] == 255 by {
        let half = half_width(length);
        let eroded = v_erode_spec(px, width, length);
        let col = column_of(px, x);
        assert(column_of(eroded, x) =~= erode_line_spec(col, half));
        lemma_open_line_within(col, half);
        assert(v_open_spec(px, width, length)[y][x] == dilate_line_spec(erode_line_spec(col, half), half)[y]);
    }
}

/// Opening a line twice is the same as opening it once.
pub proof fn lemma_open_line_idempotent(s: Seq<u8>, half: int)
    requires
        half >= 0,
    ensures
        dilate_line_spec(erode_line_spec(dilate_line_spec(erode_line_spec(s, half), half), half), half)
            == dilate_line_spec(erode_line_spec(s, half), half),
{
    let n = s.len() as int;
    let e = erode_line_spec(s, half);
    let o = dilate_line_spec(e, half);
    let e2 = erode_line_spec(o, half);
    let o2 = dilate_line_spec(e2, half);
    lemma_open_line_within(o, half);
    assert forall|x: int| 0 <= x < n implies o2[x] == o[x] by {
        if o[x] == 255 {
            let y = choose|y: int| win_lo(x, half) <= y < win_hi(x, half, n) && e[y] == 255;
            lemma_window_symmetric(x, y, half, n);
            assert forall|z: int| win_lo(y, half) <= z < win_hi(y, half, n) implies o[z] == 255 by {
                lemma_window_symmetric(y, z, half, n);
                assert(win_lo(z, half) <= y < win_hi(z, half, n) && e[y] == 255);
            }
            assert(e2[y] == 255);
            assert(any_fg(e2, win_lo(x, half), win_hi(x, half, n)));
        } else {
            assert(o2[x] != 255);
        }
    }
    assert(o2 =~= o);
}

/// A foreground run on a line long enough to hold a whole window
/// (`2 * half + 1` samples) survives opening.
pub proof fn lemma_open_line_keeps_runs(s: Seq<u8>, half: int, a: int, x: int)
    requires
        half >= 0,
        0 <= a,
        a + 2 * half + 1 <= s.len(),
        all_fg(s, a, a + 2 * half + 1),
        a <= x < a + 2 * half + 1,
    ensures
        dilate_line_spec(erode_line_spec(s, half), half)[x] == 255,
{
    let n = s.len() as int;
    let e = erode_line_spec(s, half);
    let y = a + half;
    assert(win_lo(y, half) == a && win_hi(y, half, n) == a + 2 * half + 1);
    assert(e[y] == 255);
    lemma_window_symmetric(y, x, half, n);
    assert(any_fg(e, win_lo(x, half), win_hi(x, half, n)));
}

/// Horizontal opening of a mask is idempotent.
pub proof fn lemma_h_open_idempotent(px: Seq<Seq<u8>>, length: u32)
    ensures
        h_open_spec(h_open_spec(px, length), length) == h_open_spec(px, length),
{
    let half = half_width(length);
    let o = h_open_spec(px, length);
    assert forall|y: int| 0 <= y < px.len() implies #[trigger] h_open_spec(o, length)[y] == o[y] by {
        assert(o[y] == dilate_line_spec(erode_line_spec(px[y], half), half));
        lemma_open_line_idempotent(px[y], half);
    }
    assert(h_open_spec(o, length) =~= o);
}

/// Every pixel of a horizontal foreground run at least `2 * (length / 2) + 1`
/// pixels long is kept by horizontal opening.
pub proof fn lemma_h_open_keeps_runs(px: Seq<Seq<u8>>, length: u32, y: int, a: int, x: int)
    requires
        0 <= y < px.len(),
        0 <= a,
        a + 2 * half_width(length) + 1 <= px[y].len(),
        all_fg(px[y], a, a + 2 * half_width(length) + 1),
        a <= x < a + 2 * half_width(length) + 1,
    ensures
        h_open_spec(px, length)[y][x] == 255,
{
    let half = half_width(length);
    assert(h_open_spec(px, length)[y] == dilate_line_spec(erode_line_spec(px[y], half), half));
    lemma_open_line_keeps_runs(px[y], half, a, x);
}

/// Rows of a grid `width` samples wide turned into columns.
pub open spec fn transpose(px: Seq<Seq<u8>>, width: int) -> Seq<Seq<u8>> {
    Seq::new(width as nat, |x: int| column_of(px, x))
}

/// Column `x` of a vertical opening is the opening of column `x`.
proof fn lemma_v_open_column(px: Seq<Seq<u8>>, width: int, length: u32, x: int)
    requires
        forall|y: int| 0 <= y < px.len() ==> #[trigger] px[y].len() == width,
        0 <= x < width,
    ensures
        column_of(v_open_spec(px, width, length), x) == dilate_line_spec(
            erode_line_spec(column_of(px, x), half_width(length)),
            half_width(length),
        ),
{
    let half = half_width(length);
    let eroded = v_erode_spec(px, width, length);
    assert(column_of(eroded, x) =~= erode_line_spec(column_of(px, x), half));
    assert(column_of(v_open_spec(px, width, length), x) =~= dilate_line_spec(
        erode_line_spec(column_of(px, x), half),
        half,
    ));
}

/// Vertical opening is horizontal opening of the transposed mask,
/// transposed back.
pub proof fn lemma_v_open_transpose(px: Seq<Seq<u8>>, width: int, length: u32)
    requires
        width >= 0,
        forall|y: int| 0 <= y < px.len() ==> #[trigger] px[y].len() == width,
    ensures
        v_open_spec(px, width, length) == transpose(
            h_open_spec(transpose(px, width), length),
            px.len() as int,
        ),
{
    let half = half_width(length);
    let v = v_open_spec(px, width, length);
    let t = transpose(h_open_spec(transpose(px, width), length), px.len() as int);
    assert forall|y: int| 0 <= y < px.len() implies #[trigger] v[y] =~= t[y] by {
        assert forall|x: int| 0 <= x < width implies v[y][x] == t[y][x] by {
            lemma_v_open_column(px, width, length, x);
            assert(column_of(v, x)[y] == v[y][x]);
            assert(h_open_spec(transpose(px, width), length)[x] == dilate_line_spec(
                erode_line_spec(column_of(px, x), half),
                half,
            ));
        }
    }
    assert(v =~= t);
}

/// Vertical opening of a mask is idempotent.
pub proof fn lemma_v_open_idempotent(px: Seq<Seq<u8>>, width: int, length: u32)
    requires
        width >= 0,
        forall|y: int| 0 <= y < px.len() ==> #[trigger] px[y].len() == width,
    ensures
        v_open_spec(v_open_spec(px, width, length), width, length) == v_open_spec(px, width, length),
{
    let half = half_width(length);
    let o = v_open_spec(px, width, length);
    let o2 = v_open_spec(o, width, length);
    assert forall|y: int| 0 <= y < o.len() implies #[trigger] o[y].len() == width by {}
    assert forall|y: int| 0 <= y < px.len() implies #[trigger] o2[y] =~= o[y] by {
        assert forall|x: int| 0 <= x < width implies o2[y][x] == o[y][x] by {
            lemma_v_open_column(px, width, length, x);
            lemma_v_open_column(o, width, length, x);
            lemma_open_line_idempotent(column_of(px, x), half);
            assert(column_of(o2, x)[y] == o2[y][x]);
            assert(column_of(o, x)[y] == o[y][x]);
        }
    }
    assert(o2 =~= o);
}

/// Horizontal opening yields a binary mask.
pub proof fn lemma_h_open_binary(px: Seq<Seq<u8>>, length: u32)
    ensures
        forall|y: int, x: int|
            0 <= y < px.len() && 0 <= x < px[y].len() ==> (#[trigger] h_open_spec(px, length)[y][x]
                == 0 || h_open_spec(px, length)[y][x] == 255),
{
    assert forall|y: int, x: int| 0 <= y < px.len() && 0 <= x < px[y].len() implies (
    #[trigger] h_open_spec(px, length)[y][x] == 0 || h_open_spec(px, length)[y][x] == 255) by {
        let half = half_width(length);
        assert(h_open_spec(px, length)[y] == dilate_line_spec(erode_line_spec(px[y], half), half));
    }
}

/// Vertical opening of a `width`-wide mask yields a binary mask.
pub proof fn lemma_v_open_binary(px: Seq<Seq<u8>>, width: int, length: u32)
    requires
        forall|y: int| 0 <= y < px.len() ==> #[trigger] px[y].len() == width,
    ensures
        forall|y: int, x: int|
            0 <= y < px.len() && 0 <= x < width ==> (#[trigger] v_open_spec(px, width, length)[y][x]
                == 0 || v_open_spec(px, width, length)[y][x] == 255),
{
    assert forall|y: int, x: int| 0 <= y < px.len() && 0 <= x < width implies (
    #[trigger] v_open_spec(px, width, length)[y][x] == 0 || v_open_spec(px, width, length)[y][x]
        == 255) by {
        let half = half_width(length);
        let eroded = v_erode_spec(px, width, length);
        assert(v_open_spec(px, width, length)[y][x] == dilate_line_spec(column_of(eroded, x), half)[y]);
    }
}

/// The pixelwise maximum of two binary masks is foreground exactly where
/// either mask is.
pub proof fn lemma_or_union(a: Seq<Seq<u8>>, b: Seq<Seq<u8>>)
    requires
        a.len() == b.len(),
        forall|y: int| 0 <= y < a.len() ==> #[trigger] a[y].len() == b[y].len(),
        forall|y: int, x: int|
            0 <= y < a.len() && 0 <= x < a[y].len() ==> (#[trigger] a[y][x] == 0 || a[y][x] == 255),
        forall|y: int, x: int|
            0 <= y < b.len() && 0 <= x < b[y].len() ==> (#[trigger] b[y][x] == 0 || b[y][x] == 255),
    ensures
        forall|y: int, x: int|
            0 <= y < a.len() && 0 <= x < a[y].len() ==> (#[trigger] or_spec(a, b)[y][x] == 255 <==> (
            a[y][x] == 255 || b[y][x] == 255)),
{
}

/// Build the line `s` with every sample replaced by whether its window is
/// clear of background (`erode`) or touches foreground (`!erode`).
fn morph_line(line: &Vec<u8>, half: u32, erode: bool) -> (out: Vec<u8>)
    requires
        line.len() + half <= u32::MAX,
    ensures
        out@ == line_op(line@, half as int, erode),
{
    let n = line.len();
    let ghost s = line@;
    // prefix[k] counts the samples before position k that the window test looks for:
    // background samples when eroding, foreground samples when dilating.
    let mut prefix: Vec<u32> = Vec::new();
    prefix.push(0);
    let mut k: usize = 0;
    while k < n
        invariant
            n == line.len(),
            s == line@,
            n + half <= u32::MAX,
            0 <= k <= n,
            prefix.len() == k + 1,
            forall|j: int|
                0 <= j <= k ==> #[trigger] prefix@[j] == if erode {
                    j - fg_count(s, 0, j)
                } else {
                    fg_count(s, 0, j) as int
                },
        decreases n - k,
    {
        proof {
            lemma_fg_count_bounds(s, 0, k as int);
            lemma_fg_count_split(s, 0, k as int, k + 1);
        }
        let v = line[k];
        let hit: u32 = if erode {
            if v < 255 { 1 } else { 0 }
        } else {
            if v == 255 { 1 } else { 0 }
        };
        let next = prefix[k] + hit;
        prefix.push(next);
        k += 1;
    }
    let mut out: Vec<u8> = Vec::new();
    let mut x: usize = 0;
    while x < n
        invariant
            n == line.len(),
            s == line@,
            n + half <= u32::MAX,
            0 <= x <= n,
            prefix.len() == n + 1,
            forall|j: int|
                0 <= j <= n ==> #[trigger] prefix@[j] == if erode {
                    j - fg_count(s, 0, j)
                } else {
                    fg_count(s, 0, j) as int
                },
            out.len() == x,
            forall|j: int|
                0 <= j < x ==> #[trigger] out@[j] == (if erode {
                    erode_line_spec(s, half as int)
                } else {
                    dilate_line_spec(s, half as int)
                })[j],
        decreases n - x,
    {
        let xu = x as u32;
        let lo = xu.saturating_sub(half) as usize;
        let hi_full = xu + half + 1;
        let hi = if hi_full < n as u32 { hi_full as usize } else { n };
        assert(lo == win_lo(x as int, half as int));
        assert(hi == win_hi(x as int, half as int, n as int));
        proof {
            lemma_fg_count_split(s, 0, lo as int, hi as int);
            lemma_fg_count_bounds(s, 0, lo as int);
            lemma_fg_count_bounds(s, lo as int, hi as int);
        }
        let found = prefix[hi] - prefix[lo];
        let v: u8 = if erode {
            if found == 0 { 255 } else { 0 }
        } else {
            if found == 0 { 0 } else { 255 }
        };
        out.push(v);
        x += 1;
    }
    proof {
        let want = if erode { erode_line_spec(s, half as int) } else { dilate_line_spec(s, half as int) };
        assert(out@ =~= want);
    }
    out
}

/// Apply the line operation to every row of `img`.
fn morph_rows(img: &GrayImage, half: u32, erode: bool) -> (out: GrayImage)
    requires
        img.wf(),
        img.width + half <= u32::MAX,
    ensures
        out.wf(),
        out.width == img.width,
        out.height == img.height,
        out@ == map_rows(img@, half as int, erode),
{
    let mut rows: Vec<Vec<u8>> = Vec::new();
    let mut y: usize = 0;
    while y < img.rows.len()
        invariant
            img.wf(),
            img.width + half <= u32::MAX,
            0 <= y <= img.rows.len(),
            rows.len() == y,
            forall|j: int| 0 <= j < y ==> #[trigger] rows@[j]@ == line_op(img@[j], half as int, erode),
        decreases img.rows.len() - y,
    {
        assert(img@[y as int] == img.rows@[y as int]@);
        let line = morph_line(&img.rows[y], half, erode);
        rows.push(line);
        assert(rows@[y as int]@ == line_op(img@[y as int], half as int, erode));
        y += 1;
    }
    let out = GrayImage { width: img.width, height: img.height, rows };
    assert(out@ =~= map_rows(img@, half as int, erode));
    out
}

/// Column `x` of `img` as a vector.
fn column(img: &GrayImage, x: u32) -> (col: Vec<u8>)
    requires
        img.wf(),
        x < img.width,
    ensures
        col@ == column_of(img@, x as int),
{
    let mut col: Vec<u8> = Vec::new();
    let mut y: usize = 0;
    while y < img.rows.len()
        invariant
            img.wf(),
            x < img.width,
            0 <= y <= img.rows.len(),
            col.len() == y,
            forall|j: int| 0 <= j < y ==> #[trigger] col@[j] == img@[j][x as int],
        decreases img.rows.len() - y,
    {
        assert(img@[y as int] == img.rows@[y as int]@);
        col.push(img.rows[y][x as usize]);
        y += 1;
    }
    assert(col@ =~= column_of(img@, x as int));
    col
}

/// Apply the line operation to every column of `img`.
fn morph_columns(img: &GrayImage, half: u32, erode: bool) -> (out: GrayImage)
    requires
        img.wf(),
        img.height + half <= u32::MAX,
    ensures
        out.wf(),
        out.width == img.width,
        out.height == img.height,
        out@ == map_columns(img@, img.width as int, half as int, erode),
{
    let mut cols: Vec<Vec<u8>> = Vec::new();
    let mut x: u32 = 0;
    while x < img.width
        invariant
            img.wf(),
            img.height + half <= u32::MAX,
            0 <= x <= img.width,
            cols.len() == x,
            forall|j: int| 0 <= j < x ==> #[trigger] cols@[j]@ == line_op(column_of(img@, j), half as int, erode),
        decreases img.width - x,
    {
        let col = column(img, x);
        let line = morph_line(&col, half, erode);
        cols.push(line);
        assert(cols@[x as int]@ == line_op(column_of(img@, x as int), half as int, erode));
        x += 1;
    }
    let mut rows: Vec<Vec<u8>> = Vec::new();
    let mut y: usize = 0;
    while y < img.height as usize
        invariant
            img.wf(),
            0 <= y <= img.height,
            cols.len() == img.width,
            forall|j: int| 0 <= j < img.width ==> #[trigger] cols@[j]@ == line_op(column_of(img@, j), half as int, erode),
            rows.len() == y,
            forall|j: int|
                0 <= j < y ==> #[trigger] rows@[j]@ == Seq::new(
                    img.width as nat,
                    |i: int| line_op(column_of(img@, i), half as int, erode)[j],
                ),
        decreases img.height - y,
    {
        let mut row: Vec<u8> = Vec::new();
        let mut x: usize = 0;
        while x < cols.len()
            invariant
                img.wf(),
                0 <= y < img.height,
                cols.len() == img.width,
                forall|j: int| 0 <= j < img.width ==> #[trigger] cols@[j]@ == line_op(column_of(img@, j), half as int, erode),
                0 <= x <= cols.len(),
                row.len() == x,
                forall|i: int| 0 <= i < x ==> #[trigger] row@[i] == line_op(column_of(img@, i), half as int, erode)[y as int],
            decreases cols.len() - x,
        {
            assert(cols@[x as int]@ == line_op(column_of(img@, x as int), half as int, erode));
            assert(column_of(img@, x as int).len() == img.height);
            assert(line_op(column_of(img@, x as int), half as int, erode).len() == img.height);
            row.push(cols[x][y]);
            x += 1;
        }
        assert(row@ =~= Seq::new(img.width as nat, |i: int| line_op(column_of(img@, i), half as int, erode)[y as int]));
        rows.push(row);
        y += 1;
    }
    let out = GrayImage { width: img.width, height: img.height, rows };
    assert(out@ =~= map_columns(img@, img.width as int, half as int, erode));
    out
}

/// Erode `img` with a horizontal line of `length` pixels: a pixel stays
/// foreground only when every pixel within `length / 2` of it on its row
/// (clipped to the image) is foreground.
pub fn horizontal_erode(img: &GrayImage, length: u32) -> (out: GrayImage)
    requires
        img.wf(),
        img.width + half_width(length) <= u32::MAX,
    ensures
        out.wf(),
        out.width == img.width,
        out.height == img.height,
        out@ == h_erode_spec(img@, length),
{
    let length = if length >= 1 { length } else { 1 };
    let half = length / 2;
    morph_rows(img, half, true)
}

/// Dilate `img` with a horizontal line of `length` pixels: a pixel becomes
/// foreground when some pixel within `length / 2` of it on its row is
/// foreground.
pub fn horizontal_dilate(img: &GrayImage, length: u32) -> (out: GrayImage)
    requires
        img.wf(),
        img.width + half_width(length) <= u32::MAX,
    ensures
        out.wf(),
        out.width == img.width,
        out.height == img.height,
        out@ == h_dilate_spec(img@, length),
{
    let length = if length >= 1 { length } else { 1 };
    let half = length / 2;
    morph_rows(img, half, false)
}

/// Open `img` with a horizontal line of `length` pixels, keeping only
/// horizontal strokes at least about that long.
pub fn horizontal_open(img: &GrayImage, length: u32) -> (out: GrayImage)
    requires
        img.wf(),
        img.width + half_width(length) <= u32::MAX,
    ensures
        out.wf(),
        out.width == img.width,
        out.height == img.height,
        out@ == h_open_spec(img@, length),
{
    horizontal_dilate(&horizontal_erode(img, length), length)
}

/// Erode `img` with a vertical line of `length` pixels.
pub fn vertical_erode(img: &GrayImage, length: u32) -> (out: GrayImage)
    requires
        img.wf(),
        img.height + half_width(length) <= u32::MAX,
    ensures
        out.wf(),
        out.width == img.width,
        out.height == img.height,
        out@ == v_erode_spec(img@, img.width as int, length),
{
    let length = if length >= 1 { length } else { 1 };
    let half = length / 2;
    morph_columns(img, half, true)
}

/// Dilate `img` with a vertical line of `length` pixels.
pub fn vertical_dilate(img: &GrayImage, length: u32) -> (out: GrayImage)
    requires
        img.wf(),
        img.height + half_width(length) <= u32::MAX,
    ensures
        out.wf(),
        out.width == img.width,
        out.height == img.height,
        out@ == v_dilate_spec(img@, img.width as int, length),
{
    let length = if length >= 1 { length } else { 1 };
    let half = length / 2;
    morph_columns(img, half, false)
}

/// Open `img` with a vertical line of `length` pixels, keeping only vertical
/// strokes at least about that long.
pub fn vertical_open(img: &GrayImage, length: u32) -> (out: GrayImage)
    requires
        img.wf(),
        img.height + half_width(length) <= u32::MAX,
    ensures
        out.wf(),
        out.width == img.width,
        out.height == img.height,
        out@ == v_open_spec(img@, img.width as int, length),
{
    vertical_dilate(&vertical_erode(img, length), length)
}

/// Pixelwise maximum of two masks of the same size.
pub fn or_masks(a: &GrayImage, b: &GrayImage) -> (out: GrayImage)
    requires
        a.wf(),
        b.wf(),
        a.width == b.width,
        a.height == b.height,
    ensures
        out.wf(),
        out.width == a.width,
        out.height == a.height,
        out@ == or_spec(a@, b@),
{
    let mut rows: Vec<Vec<u8>> = Vec::new();
    let mut y: usize = 0;
    while y < a.rows.len()
        invariant
            a.wf(),
            b.wf(),
            a.width == b.width,
            a.height == b.height,
            0 <= y <= a.rows.len(),
            rows.len() == y,
            forall|j: int| 0 <= j < y ==> #[trigger] rows@[j]@ == or_spec(a@, b@)[j],
        decreases a.rows.len() - y,
    {
        assert(a@[y as int] == a.rows@[y as int]@);
        assert(b@[y as int] == b.rows@[y as int]@);
        let mut row: Vec<u8> = Vec::new();
        let mut x: usize = 0;
        while x < a.rows[y].len()
            invariant
                a.wf(),
                b.wf(),
                a.width == b.width,
                a.height == b.height,
                0 <= y < a.rows.len(),
                a@[y as int] == a.rows@[y as int]@,
                b@[y as int] == b.rows@[y as int]@,
                0 <= x <= a.rows@[y as int].len(),
                row.len() == x,
                forall|i: int| 0 <= i < x ==> #[trigger] row@[i] == or_spec(a@, b@)[y as int][i],
            decreases a.rows@[y as int].len() - x,
        {
            let pa = a.rows[y][x];
            let pb = b.rows[y][x];
            row.push(if pa >= pb { pa } else { pb });
            x += 1;
        }
        assert(row@ =~= or_spec(a@, b@)[y as int]);
        rows.push(row);
        y += 1;
    }
    let out = GrayImage { width: a.width, height: a.height, rows };
    assert(out@ =~= or_spec(a@, b@));
    out
}

} // verus!
