//! Border lines of a table: projection profiles over its bounding box find
//! the centre of every run of line rows (or columns), and coverage tests
//! decide whether a border between two grid cells is drawn.
use vstd::prelude::*;

use crate::morphology::{column_of, fg_count};
use crate::raster::GrayImage;
use crate::types::BBox;

verus! {

/// Midpoint of two positions, rounded down.
pub open spec fn mid(a: int, b: int) -> int {
    (a + b) / 2
}

/// Centres of the maximal runs of `true` in `flags[i..]`, where `flags[k]`
/// describes position `base + k`, and `start` is where a run that is still
/// open at `i` began. A run `[s, e)` has centre `mid(s, e)`; a run still open
/// at the end closes at `base + flags.len()`.
pub open spec fn run_centers(flags: Seq<bool>, base: int, i: int, start: Option<int>) -> Seq<int>
    decreases flags.len() - i,
{
    if i >= flags.len() {
        match start {
            Some(s) => seq![mid(s, base + flags.len())],
            None => seq![],
        }
    } else if flags[i] {
        match start {
            Some(s) => run_centers(flags, base, i + 1, start),
            None => run_centers(flags, base, i + 1, Some(base + i)),
        }
    } else {
        match start {
            Some(s) => seq![mid(s, base + i)] + run_centers(flags, base, i + 1, None),
            None => run_centers(flags, base, i + 1, None),
        }
    }
}

/// Which rows of `b` count as horizontal lines: those whose foreground pixels
/// inside `b` reach `min_count`.
pub open spec fn h_line_flags(px: Seq<Seq<u8>>, b: BBox, min_count: int) -> Seq<bool> {
    Seq::new(
        b.spec_height(),
        |i: int| fg_count(px[b.y1 + i], b.x1 as int, b.x2 as int) >= min_count,
    )
}

/// Which columns of `b` count as vertical lines.
pub open spec fn v_line_flags(px: Seq<Seq<u8>>, b: BBox, min_count: int) -> Seq<bool> {
    Seq::new(
        b.spec_width(),
        |i: int| fg_count(column_of(px, b.x1 + i), b.y1 as int, b.y2 as int) >= min_count,
    )
}

/// Vertical positions of the horizontal lines of the table in `b`: the
/// centres of the runs of line rows. `min_counts[s]` is the number of line
/// pixels a span of `s` pixels needs.
pub open spec fn h_centers_spec(px: Seq<Seq<u8>>, b: BBox, min_counts: Seq<u32>) -> Seq<int> {
    if b.spec_width() == 0 {
        seq![]
    } else {
        run_centers(h_line_flags(px, b, min_counts[b.spec_width() as int] as int), b.y1 as int, 0, None)
    }
}

/// Horizontal positions of the vertical lines of the table in `b`.
pub open spec fn v_centers_spec(px: Seq<Seq<u8>>, b: BBox, min_counts: Seq<u32>) -> Seq<int> {
    if b.spec_height() == 0 {
        seq![]
    } else {
        run_centers(v_line_flags(px, b, min_counts[b.spec_height() as int] as int), b.x1 as int, 0, None)
    }
}

/// A horizontal border on row `y` from `x1` to `x2` is drawn: the span is not
/// empty, the row lies in the mask, and the line pixels of the span that lie
/// inside the mask reach `min_counts[x2 - x1]`.
pub open spec fn h_line_present_spec(
    px: Seq<Seq<u8>>,
    width: u32,
    height: u32,
    y: u32,
    x1: u32,
    x2: u32,
    min_counts: Seq<u32>,
) -> bool {
    &&& x2 > x1
    &&& y < height
    &&& fg_count(
        px[y as int],
        if x1 < width { x1 as int } else { width as int },
        if x2 < width { x2 as int } else { width as int },
    ) >= min_counts[x2 - x1]
}

/// A vertical border on column `x` from `y1` to `y2` is drawn.
pub open spec fn v_line_present_spec(
    px: Seq<Seq<u8>>,
    width: u32,
    height: u32,
    x: u32,
    y1: u32,
    y2: u32,
    min_counts: Seq<u32>,
) -> bool {
    &&& y2 > y1
    &&& x < width
    &&& fg_count(
        column_of(px, x as int),
        if y1 < height { y1 as int } else { height as int },
        if y2 < height { y2 as int } else { height as int },
    ) >= min_counts[y2 - y1]
}

proof fn lemma_fg_count_step(s: Seq<u8>, lo: int, hi: int)
    requires
        lo <= hi,
    ensures
        fg_count(s, lo, hi + 1) == fg_count(s, lo, hi) + if s[hi] == 255 { 1nat } else { 0nat },
        fg_count(s, lo, hi) <= hi - lo,
    decreases hi - lo,
{
    if hi > lo {
        lemma_fg_count_step(s, lo, hi - 1);
    }
}

/// Foreground pixels of row `y` at columns `x1..x2`.
fn row_fg_count(mask: &GrayImage, y: u32, x1: u32, x2: u32) -> (count: u32)
    requires
        mask.wf(),
        y < mask.height,
        x1 <= x2 <= mask.width,
    ensures
        count == fg_count(mask@[y as int], x1 as int, x2 as int),
{
    let ghost s = mask@[y as int];
    assert(s == mask.rows@[y as int]@);
    assert(mask@[y as int].len() == mask.width);
    let mut count: u32 = 0;
    let mut x = x1;
    while x < x2
        invariant
            mask.wf(),
            y < mask.height,
            x1 <= x <= x2 <= mask.width,
            s == mask.rows@[y as int]@,
            s.len() == mask.width,
            count == fg_count(s, x1 as int, x as int),
        decreases x2 - x,
    {
        proof {
            lemma_fg_count_step(s, x1 as int, x as int);
        }
        if mask.rows[y as usize][x as usize] == 255 {
            count += 1;
        }
        x += 1;
    }
    count
}

/// Foreground pixels of column `x` at rows `y1..y2`.
fn column_fg_count(mask: &GrayImage, x: u32, y1: u32, y2: u32) -> (count: u32)
    requires
        mask.wf(),
        x < mask.width,
        y1 <= y2 <= mask.height,
    ensures
        count == fg_count(column_of(mask@, x as int), y1 as int, y2 as int),
{
    let ghost s = column_of(mask@, x as int);
    let mut count: u32 = 0;
    let mut y = y1;
    while y < y2
        invariant
            mask.wf(),
            x < mask.width,
            y1 <= y <= y2 <= mask.height,
            s == column_of(mask@, x as int),
            count == fg_count(s, y1 as int, y as int),
        decreases y2 - y,
    {
        proof {
            lemma_fg_count_step(s, y1 as int, y as int);
        }
        assert(mask@[y as int] == mask.rows@[y as int]@);
        assert(mask@[y as int].len() == mask.width);
        if mask.rows[y as usize][x as usize] == 255 {
            count += 1;
        }
        y += 1;
    }
    count
}

/// Centres of the runs of `true` in `flags`, read one flag at a time. The
/// loop state (`centers` so far, the open run's `start`) matches the spec.
proof fn lemma_run_step(flags: Seq<bool>, base: int, i: int, start: Option<int>)
    requires
        0 <= i < flags.len(),
    ensures
        run_centers(flags, base, i, start) == if flags[i] {
            match start {
                Some(s) => run_centers(flags, base, i + 1, start),
                None => run_centers(flags, base, i + 1, Some(base + i)),
            }
        } else {
            match start {
                Some(s) => seq![mid(s, base + i)] + run_centers(flags, base, i + 1, None),
                None => run_centers(flags, base, i + 1, None),
            }
        },
{
}

/// Row positions of the horizontal lines of the table in `bbox`.
pub fn horizontal_line_centers(mask: &GrayImage, bbox: BBox, min_counts: &Vec<u32>) -> (centers: Vec<u32>)
    requires
        mask.wf(),
        bbox.x2 <= mask.width,
        bbox.y2 <= mask.height,
        bbox.spec_width() < min_counts.len(),
    ensures
        centers@.len() == h_centers_spec(mask@, bbox, min_counts@).len(),
        forall|i: int|
            0 <= i < centers@.len() ==> centers@[i] == #[trigger] h_centers_spec(
                mask@,
                bbox,
                min_counts@,
            )[i],
{
    let width = bbox.width();
    if width == 0 {
        return Vec::new();
    }
    let min_count = min_counts[width as usize];
    let ghost flags = h_line_flags(mask@, bbox, min_count as int);
    let ghost want = run_centers(flags, bbox.y1 as int, 0, None);
    let mut centers: Vec<u32> = Vec::new();
    let mut run_start: Option<u32> = None;
    let mut y = bbox.y1;
    while y < bbox.y2
        invariant
            mask.wf(),
            bbox.x2 <= mask.width,
            bbox.y2 <= mask.height,
            width == bbox.spec_width(),
            width > 0,
            flags == h_line_flags(mask@, bbox, min_count as int),
            want == run_centers(flags, bbox.y1 as int, 0, None),
            bbox.y1 <= y,
            y <= bbox.y2 || y == bbox.y1,
            run_start matches Some(s) ==> bbox.y1 <= s < y,
            centers@.len() <= y - bbox.y1,
            forall|k: int| 0 <= k < centers@.len() ==> centers@[k] < y,
            want == centers@.map_values(|c: u32| c as int) + run_centers(
                flags,
                bbox.y1 as int,
                y - bbox.y1,
                match run_start {
                    Some(s) => Some(s as int),
                    None => None,
                },
            ),
        decreases bbox.y2 - y,
    {
        let count = row_fg_count(mask, y, bbox.x1, bbox.x2);
        let is_line = count >= min_count;
        let ghost i = y - bbox.y1;
        let ghost st = match run_start {
            Some(s) => Some(s as int),
            None => None,
        };
        assert(flags[i] == is_line);
        proof {
            lemma_run_step(flags, bbox.y1 as int, i, st);
        }
        let ghost before = centers@;
        match run_start {
            None => {
                if is_line {
                    run_start = Some(y);
                }
            },
            Some(start) => {
                if !is_line {
                    let c = start + (y - start) / 2;
                    assert(c == mid(start as int, y as int));
                    centers.push(c);
                    run_start = None;
                    assert(centers@.map_values(|c: u32| c as int) =~= before.map_values(
                        |c: u32| c as int,
                    ) + seq![mid(start as int, y as int)]);
                }
            },
        }
        y += 1;
    }
    let ghost st = match run_start {
        Some(s) => Some(s as int),
        None => None,
    };
    assert(y - bbox.y1 >= flags.len());
    let ghost before = centers@;
    if let Some(start) = run_start {
        let c = start + (bbox.y2 - start) / 2;
        assert(c == mid(start as int, bbox.y2 as int));
        centers.push(c);
        assert(centers@.map_values(|c: u32| c as int) =~= before.map_values(|c: u32| c as int)
            + seq![mid(start as int, bbox.y2 as int)]);
    } else {
        assert(centers@.map_values(|c: u32| c as int) =~= want);
    }
    assert(centers@.map_values(|c: u32| c as int) =~= want);
    assert forall|i: int| 0 <= i < centers@.len() implies centers@[i] == #[trigger] h_centers_spec(
        mask@,
        bbox,
        min_counts@,
    )[i] by {
        assert(centers@.map_values(|c: u32| c as int)[i] == centers@[i] as int);
    }
    centers
}

/// Column positions of the vertical lines of the table in `bbox`.
pub fn vertical_line_centers(mask: &GrayImage, bbox: BBox, min_counts: &Vec<u32>) -> (centers: Vec<u32>)
    requires
        mask.wf(),
        bbox.x2 <= mask.width,
        bbox.y2 <= mask.height,
        bbox.spec_height() < min_counts.len(),
    ensures
        centers@.len() == v_centers_spec(mask@, bbox, min_counts@).len(),
        forall|i: int|
            0 <= i < centers@.len() ==> centers@[i] == #[trigger] v_centers_spec(
                mask@,
                bbox,
                min_counts@,
            )[i],
{
    let height = bbox.height();
    if height == 0 {
        return Vec::new();
    }
    let min_count = min_counts[height as usize];
    let ghost flags = v_line_flags(mask@, bbox, min_count as int);
    let ghost want = run_centers(flags, bbox.x1 as int, 0, None);
    let mut centers: Vec<u32> = Vec::new();
    let mut run_start: Option<u32> = None;
    let mut x = bbox.x1;
    while x < bbox.x2
        invariant
            mask.wf(),
            bbox.y2 <= mask.height,
            bbox.x2 <= mask.width,
            height == bbox.spec_height(),
            height > 0,
            flags == v_line_flags(mask@, bbox, min_count as int),
            want == run_centers(flags, bbox.x1 as int, 0, None),
            bbox.x1 <= x,
            x <= bbox.x2 || x == bbox.x1,
            run_start matches Some(s) ==> bbox.x1 <= s < x,
            centers@.len() <= x - bbox.x1,
            forall|k: int| 0 <= k < centers@.len() ==> centers@[k] < x,
            want == centers@.map_values(|c: u32| c as int) + run_centers(
                flags,
                bbox.x1 as int,
                x - bbox.x1,
                match run_start {
                    Some(s) => Some(s as int),
                    None => None,
                },
            ),
        decreases bbox.x2 - x,
    {
        let count = column_fg_count(mask, x, bbox.y1, bbox.y2);
        let is_line = count >= min_count;
        let ghost i = x - bbox.x1;
        let ghost st = match run_start {
            Some(s) => Some(s as int),
            None => None,
        };
        assert(flags[i] == is_line);
        proof {
            lemma_run_step(flags, bbox.x1 as int, i, st);
        }
        let ghost before = centers@;
        match run_start {
            None => {
                if is_line {
                    run_start = Some(x);
                }
            },
            Some(start) => {
                if !is_line {
                    let c = start + (x - start) / 2;
                    assert(c == mid(start as int, x as int));
                    centers.push(c);
                    run_start = None;
                    assert(centers@.map_values(|c: u32| c as int) =~= before.map_values(
                        |c: u32| c as int,
                    ) + seq![mid(start as int, x as int)]);
                }
            },
        }
        x += 1;
    }
    let ghost st = match run_start {
        Some(s) => Some(s as int),
        None => None,
    };
    assert(x - bbox.x1 >= flags.len());
    let ghost before = centers@;
    if let Some(start) = run_start {
        let c = start + (bbox.x2 - start) / 2;
        assert(c == mid(start as int, bbox.x2 as int));
        centers.push(c);
        assert(centers@.map_values(|c: u32| c as int) =~= before.map_values(|c: u32| c as int)
            + seq![mid(start as int, bbox.x2 as int)]);
    } else {
        assert(centers@.map_values(|c: u32| c as int) =~= want);
    }
    assert(centers@.map_values(|c: u32| c as int) =~= want);
    assert forall|i: int| 0 <= i < centers@.len() implies centers@[i] == #[trigger] v_centers_spec(
        mask@,
        bbox,
        min_counts@,
    )[i] by {
        assert(centers@.map_values(|c: u32| c as int)[i] == centers@[i] as int);
    }
    centers
}

/// Whether a horizontal border is drawn on row `y` between `x1` and `x2`:
/// enough line pixels cover the span (only its part inside the mask counts).
pub fn line_present_horizontal(mask: &GrayImage, y: u32, x1: u32, x2: u32, min_counts: &Vec<u32>) -> (present: bool)
    requires
        mask.wf(),
        x2 > x1 ==> x2 - x1 < min_counts.len(),
    ensures
        present == h_line_present_spec(mask@, mask.width, mask.height, y, x1, x2, min_counts@),
{
    if x2 <= x1 {
        return false;
    }
    let span = x2 - x1;
    let min_count = min_counts[span as usize];
    if y >= mask.height {
        return false;
    }
    let x_lo = if x1 < mask.width { x1 } else { mask.width };
    let x_hi = if x2 < mask.width { x2 } else { mask.width };
    let count = row_fg_count(mask, y, x_lo, x_hi);
    count >= min_count
}

/// Whether a vertical border is drawn on column `x` between `y1` and `y2`.
pub fn line_present_vertical(mask: &GrayImage, x: u32, y1: u32, y2: u32, min_counts: &Vec<u32>) -> (present: bool)
    requires
        mask.wf(),
        y2 > y1 ==> y2 - y1 < min_counts.len(),
    ensures
        present == v_line_present_spec(mask@, mask.width, mask.height, x, y1, y2, min_counts@),
{
    if y2 <= y1 {
        return false;
    }
    let span = y2 - y1;
    let min_count = min_counts[span as usize];
    if x >= mask.width {
        return false;
    }
    let y_lo = if y1 < mask.height { y1 } else { mask.height };
    let y_hi = if y2 < mask.height { y2 } else { mask.height };
    let count = column_fg_count(mask, x, y_lo, y_hi);
    count >= min_count
}

/// Run centres lie in the scanned range and strictly increase.
proof fn lemma_run_centers_ordered(flags: Seq<bool>, base: int, i: int, start: Option<int>)
    requires
        0 <= i <= flags.len(),
        start matches Some(s) ==> base <= s < base + i,
    ensures
        ({
            let r = run_centers(flags, base, i, start);
            let lo = match start {
                Some(s) => s,
                None => base + i,
            };
            &&& forall|k: int| 0 <= k < r.len() ==> lo <= #[trigger] r[k] < base + flags.len()
            &&& forall|k: int, l: int| 0 <= k < l < r.len() ==> #[trigger] r[k] < #[trigger] r[l]
        }),
    decreases flags.len() - i,
{
    if i >= flags.len() {
        match start {
            Some(s) => {
                let r = run_centers(flags, base, i, start);
                assert(r == seq![mid(s, base + flags.len())]);
                assert(r[0] == mid(s, base + flags.len()));
            },
            None => {},
        }
    } else {
        lemma_run_step(flags, base, i, start);
        if flags[i] {
            match start {
                Some(s) => lemma_run_centers_ordered(flags, base, i + 1, start),
                None => lemma_run_centers_ordered(flags, base, i + 1, Some(base + i)),
            }
        } else {
            lemma_run_centers_ordered(flags, base, i + 1, None);
            match start {
                Some(s) => {
                    let rest = run_centers(flags, base, i + 1, None);
                    let r = seq![mid(s, base + i)] + rest;
                    assert forall|k: int| 0 <= k < r.len() implies s <= #[trigger] r[k] < base
                        + flags.len() by {
                        if k > 0 {
                            assert(r[k] == rest[k - 1]);
                        }
                    }
                    assert forall|k: int, l: int| 0 <= k < l < r.len() implies #[trigger] r[k]
                        < #[trigger] r[l] by {
                        assert(r[l] == rest[l - 1]);
                        if k > 0 {
                            assert(r[k] == rest[k - 1]);
                        }
                    }
                },
                None => {},
            }
        }
    }
}

/// The horizontal line positions found in a table box strictly increase
/// and lie within the box's rows.
pub proof fn lemma_h_centers_ordered(px: Seq<Seq<u8>>, b: BBox, min_counts: Seq<u32>)
    ensures
        ({
            let c = h_centers_spec(px, b, min_counts);
            &&& c.len() <= b.spec_height()
            &&& forall|k: int| 0 <= k < c.len() ==> b.y1 <= #[trigger] c[k] < b.y2
            &&& forall|k: int, l: int| 0 <= k < l < c.len() ==> #[trigger] c[k] < #[trigger] c[l]
        }),
{
    let c = h_centers_spec(px, b, min_counts);
    if b.spec_width() != 0 {
        let flags = h_line_flags(px, b, min_counts[b.spec_width() as int] as int);
        lemma_run_centers_ordered(flags, b.y1 as int, 0, None);
    }
    lemma_strictly_increasing_len(c, b.y1 as int, b.y2 as int);
}

/// The vertical line positions found in a table box strictly increase and
/// lie within the box's columns.
pub proof fn lemma_v_centers_ordered(px: Seq<Seq<u8>>, b: BBox, min_counts: Seq<u32>)
    ensures
        ({
            let c = v_centers_spec(px, b, min_counts);
            &&& c.len() <= b.spec_width()
            &&& forall|k: int| 0 <= k < c.len() ==> b.x1 <= #[trigger] c[k] < b.x2
            &&& forall|k: int, l: int| 0 <= k < l < c.len() ==> #[trigger] c[k] < #[trigger] c[l]
        }),
{
    let c = v_centers_spec(px, b, min_counts);
    if b.spec_height() != 0 {
        let flags = v_line_flags(px, b, min_counts[b.spec_height() as int] as int);
        lemma_run_centers_ordered(flags, b.x1 as int, 0, None);
    }
    lemma_strictly_increasing_len(c, b.x1 as int, b.x2 as int);
}

/// A strictly increasing sequence inside `[lo, hi)` has at most `hi - lo`
/// elements.
proof fn lemma_strictly_increasing_len(c: Seq<int>, lo: int, hi: int)
    requires
        forall|k: int| 0 <= k < c.len() ==> lo <= #[trigger] c[k] < hi,
        forall|k: int, l: int| 0 <= k < l < c.len() ==> #[trigger] c[k] < #[trigger] c[l],
    ensures
        c.len() == 0 || c.len() <= hi - lo,
    decreases c.len(),
{
    if c.len() == 1 {
        assert(lo <= c[0] < hi);
    }
    if c.len() > 1 {
        let d = c.drop_last();
        assert forall|k: int| 0 <= k < d.len() implies lo <= #[trigger] d[k] < c[c.len() - 1] by {
            assert(c[k] < c[c.len() - 1]);
        }
        assert forall|k: int, l: int| 0 <= k < l < d.len() implies #[trigger] d[k] < #[trigger] d[l] by {
            assert(c[k] < c[l]);
        }
        lemma_strictly_increasing_len(d, lo, c[c.len() - 1]);
    }
}

/// Counts over samples that agree on `lo..hi` agree.
proof fn lemma_fg_count_congruent(s1: Seq<u8>, s2: Seq<u8>, lo: int, hi: int)
    requires
        forall|i: int| lo <= i < hi ==> s1[i] == s2[i],
    ensures
        fg_count(s1, lo, hi) == fg_count(s2, lo, hi),
    decreases hi - lo,
{
    if hi > lo {
        lemma_fg_count_congruent(s1, s2, lo, hi - 1);
    }
}

/// A span whose samples are all foreground counts every sample.
proof fn lemma_fg_count_full(s: Seq<u8>, lo: int, hi: int)
    requires
        lo <= hi,
        forall|i: int| lo <= i < hi ==> s[i] == 255,
    ensures
        fg_count(s, lo, hi) == hi - lo,
    decreases hi - lo,
{
    if hi > lo {
        lemma_fg_count_full(s, lo, hi - 1);
    }
}

/// The row and column line positions found in a box depend only on the
/// mask pixels inside the box: two masks that agree there give the same
/// positions, whatever they hold elsewhere.
pub proof fn lemma_centers_local(p1: Seq<Seq<u8>>, p2: Seq<Seq<u8>>, b: BBox, min_counts: Seq<u32>)
    requires
        b.y2 <= p1.len(),
        b.y2 <= p2.len(),
        forall|y: int, x: int| b.y1 <= y < b.y2 && b.x1 <= x < b.x2 ==> #[trigger] p1[y][x] == p2[y][x],
    ensures
        h_centers_spec(p1, b, min_counts) == h_centers_spec(p2, b, min_counts),
        v_centers_spec(p1, b, min_counts) == v_centers_spec(p2, b, min_counts),
{
    let mh = min_counts[b.spec_width() as int] as int;
    assert forall|i: int| 0 <= i < b.spec_height() implies #[trigger] h_line_flags(p1, b, mh)[i]
        == h_line_flags(p2, b, mh)[i] by {
        let y = b.y1 + i;
        assert forall|x: int| b.x1 <= x < b.x2 implies p1[y][x] == p2[y][x] by {
            assert(p1[y][x] == p2[y][x]);
        }
        lemma_fg_count_congruent(p1[y], p2[y], b.x1 as int, b.x2 as int);
    }
    assert(h_line_flags(p1, b, mh) =~= h_line_flags(p2, b, mh));
    let mv = min_counts[b.spec_height() as int] as int;
    assert forall|i: int| 0 <= i < b.spec_width() implies #[trigger] v_line_flags(p1, b, mv)[i]
        == v_line_flags(p2, b, mv)[i] by {
        let x = b.x1 + i;
        assert forall|y: int| b.y1 <= y < b.y2 implies column_of(p1, x)[y] == column_of(p2, x)[y] by {
            assert(p1[y][x] == p2[y][x]);
        }
        lemma_fg_count_congruent(column_of(p1, x), column_of(p2, x), b.y1 as int, b.y2 as int);
    }
    assert(v_line_flags(p1, b, mv) =~= v_line_flags(p2, b, mv));
}

/// A horizontal border drawn over its whole span inside the mask is
/// reported present, whatever the mask's height or its other rows.
pub proof fn lemma_h_line_full_present(
    px: Seq<Seq<u8>>,
    width: u32,
    height: u32,
    y: u32,
    x1: u32,
    x2: u32,
    min_counts: Seq<u32>,
)
    requires
        y < height,
        x1 < x2 <= width,
        forall|x: int| x1 <= x < x2 ==> #[trigger] px[y as int][x] == 255,
        min_counts[x2 - x1] <= x2 - x1,
    ensures
        h_line_present_spec(px, width, height, y, x1, x2, min_counts),
{
    lemma_fg_count_full(px[y as int], x1 as int, x2 as int);
}

/// A vertical border drawn over its whole span inside the mask is reported
/// present, whatever the mask's width or its other columns.
pub proof fn lemma_v_line_full_present(
    px: Seq<Seq<u8>>,
    width: u32,
    height: u32,
    x: u32,
    y1: u32,
    y2: u32,
    min_counts: Seq<u32>,
)
    requires
        px.len() == height,
        x < width,
        y1 < y2 <= height,
        forall|y: int| y1 <= y < y2 ==> #[trigger] px[y][x as int] == 255,
        min_counts[y2 - y1] <= y2 - y1,
    ensures
        v_line_present_spec(px, width, height, x, y1, y2, min_counts),
{
    let col = column_of(px, x as int);
    assert forall|y: int| y1 <= y < y2 implies col[y] == 255 by {
        assert(px[y][x as int] == 255);
    }
    lemma_fg_count_full(col, y1 as int, y2 as int);
}

/// The horizontal border test reads only row `y` at columns
/// `x1..min(x2, width)`: masks of one width that agree there give the same
/// answer, whatever their heights (as long as they hold row `y`).
pub proof fn lemma_h_line_present_local(
    p1: Seq<Seq<u8>>,
    h1: u32,
    p2: Seq<Seq<u8>>,
    h2: u32,
    width: u32,
    y: u32,
    x1: u32,
    x2: u32,
    min_counts: Seq<u32>,
)
    requires
        y < h1,
        y < h2,
        forall|x: int| x1 <= x < x2 && x < width ==> #[trigger] p1[y as int][x] == p2[y as int][x],
    ensures
        h_line_present_spec(p1, width, h1, y, x1, x2, min_counts) == h_line_present_spec(
            p2,
            width,
            h2,
            y,
            x1,
            x2,
            min_counts,
        ),
{
    let lo: int = if x1 < width { x1 as int } else { width as int };
    let hi: int = if x2 < width { x2 as int } else { width as int };
    assert forall|x: int| lo <= x < hi implies p1[y as int][x] == p2[y as int][x] by {
        assert(p1[y as int][x] == p2[y as int][x]);
    }
    lemma_fg_count_congruent(p1[y as int], p2[y as int], lo, hi);
}

/// The vertical border test reads only column `x` at rows
/// `y1..min(y2, height)`: masks of one height that agree there give the
/// same answer, whatever their widths (as long as they hold column `x`).
pub proof fn lemma_v_line_present_local(
    p1: Seq<Seq<u8>>,
    w1: u32,
    p2: Seq<Seq<u8>>,
    w2: u32,
    height: u32,
    x: u32,
    y1: u32,
    y2: u32,
    min_counts: Seq<u32>,
)
    requires
        p1.len() == height,
        p2.len() == height,
        x < w1,
        x < w2,
        forall|y: int| y1 <= y < y2 && y < height ==> #[trigger] p1[y][x as int] == p2[y][x as int],
    ensures
        v_line_present_spec(p1, w1, height, x, y1, y2, min_counts) == v_line_present_spec(
            p2,
            w2,
            height,
            x,
            y1,
            y2,
            min_counts,
        ),
{
    let lo: int = if y1 < height { y1 as int } else { height as int };
    let hi: int = if y2 < height { y2 as int } else { height as int };
    assert forall|y: int| lo <= y < hi implies column_of(p1, x as int)[y] == column_of(p2, x as int)[y] by {
        assert(p1[y][x as int] == p2[y][x as int]);
    }
    lemma_fg_count_congruent(column_of(p1, x as int), column_of(p2, x as int), lo, hi);
}

/// `flags[s..e]` (end exclusive) is a maximal run of `true`.
pub open spec fn is_run(flags: Seq<bool>, s: int, e: int) -> bool {
    &&& 0 <= s < e <= flags.len()
    &&& forall|k: int| s <= k < e ==> #[trigger] flags[k]
    &&& (s == 0 || !flags[s - 1])
    &&& (e == flags.len() || !flags[e])
}

/// `c` is the midpoint of a maximal run of `flags` that starts at `lo` or
/// later, positions counted from `base`.
pub open spec fn run_midpoint(flags: Seq<bool>, base: int, lo: int, c: int) -> bool {
    exists|s: int, e: int| lo <= s && #[trigger] is_run(flags, s, e) && c == mid(base + s, base + e)
}

/// The run centres from position `i` on are the midpoints of the maximal
/// runs that start at `i` or later (or at the open run's start).
proof fn lemma_run_centers_runs(flags: Seq<bool>, base: int, i: int, start: Option<int>)
    requires
        0 <= i <= flags.len(),
        match start {
            None => i == 0 || !flags[i - 1],
            Some(t) => {
                &&& base <= t < base + i
                &&& forall|k: int| t - base <= k < i ==> #[trigger] flags[k]
                &&& (t - base == 0 || !flags[t - base - 1])
            },
        },
    ensures
        ({
            let r = run_centers(flags, base, i, start);
            let lo = match start {
                None => i,
                Some(t) => t - base,
            };
            &&& forall|k: int| 0 <= k < r.len() ==> run_midpoint(flags, base, lo, #[trigger] r[k])
            &&& forall|s: int, e: int|
                lo <= s && #[trigger] is_run(flags, s, e) ==> r.contains(mid(base + s, base + e))
        }),
    decreases flags.len() - i,
{
    let r = run_centers(flags, base, i, start);
    if i >= flags.len() {
        match start {
            Some(t) => {
                let s0 = t - base;
                assert(r == seq![mid(t, base + flags.len())]);
                assert(is_run(flags, s0, flags.len() as int));
                assert(r[0] == mid(base + s0, base + flags.len()));
                assert forall|k: int| #![trigger r[k]] 0 <= k < r.len() implies run_midpoint(flags, base, s0, r[k]) by {
                    assert(k == 0);
                    assert(is_run(flags, s0, flags.len() as int));
                }
                assert forall|s: int, e: int| s0 <= s && #[trigger] is_run(flags, s, e) implies r.contains(
                    mid(base + s, base + e),
                ) by {
                    if s > s0 {
                        assert(flags[s - 1]);
                    }
                    if e < flags.len() {
                        assert(flags[e]);
                    }
                    assert(r[0] == mid(base + s, base + e));
                }
            },
            None => {},
        }
    } else {
        lemma_run_step(flags, base, i, start);
        if flags[i] {
            let next = match start {
                Some(t) => start,
                None => Some(base + i),
            };
            let lo = match next {
                Some(t) => t - base,
                None => 0,
            };
            lemma_run_centers_runs(flags, base, i + 1, next);
            let rr = run_centers(flags, base, i + 1, next);
            assert(r == rr);
            assert forall|k: int| #![trigger r[k]] 0 <= k < r.len() implies run_midpoint(flags, base, lo, r[k]) by {
                assert(r[k] == rr[k]);
                let (s, e) = choose|s: int, e: int|
                    lo <= s && #[trigger] is_run(flags, s, e) && rr[k] == mid(base + s, base + e);
                assert(is_run(flags, s, e));
            }
        } else {
            lemma_run_centers_runs(flags, base, i + 1, None);
            let rest = run_centers(flags, base, i + 1, None);
            match start {
                Some(t) => {
                    let s0 = t - base;
                    assert(r == seq![mid(t, base + i)] + rest);
                    assert(is_run(flags, s0, i));
                    assert forall|k: int| #![trigger r[k]] 0 <= k < r.len() implies run_midpoint(flags, base, s0, r[k]) by {
                        if k == 0 {
                            assert(is_run(flags, s0, i) && r[0] == mid(base + s0, base + i));
                        } else {
                            assert(r[k] == rest[k - 1]);
                            let (s, e) = choose|s: int, e: int|
                                i + 1 <= s && #[trigger] is_run(flags, s, e) && rest[k - 1] == mid(base + s, base + e);
                            assert(is_run(flags, s, e));
                        }
                    }
                    assert forall|s: int, e: int| s0 <= s && #[trigger] is_run(flags, s, e) implies r.contains(
                        mid(base + s, base + e),
                    ) by {
                        if s0 < s <= i {
                            assert(flags[s - 1]);
                        }
                        if s == s0 {
                            if e < i {
                                assert(flags[e]);
                            }
                            if e > i {
                                assert(flags[i]);
                            }
                            assert(r[0] == mid(base + s, base + e));
                        } else {
                            assert(s >= i + 1);
                            let k = choose|k: int| 0 <= k < rest.len() && rest[k] == mid(base + s, base + e);
                            assert(r[k + 1] == rest[k]);
                        }
                    }
                },
                None => {
                    assert(r == rest);
                    assert forall|k: int| #![trigger r[k]] 0 <= k < r.len() implies run_midpoint(flags, base, i, r[k]) by {
                        assert(r[k] == rest[k]);
                        let (s, e) = choose|s: int, e: int|
                            i + 1 <= s && #[trigger] is_run(flags, s, e) && rest[k] == mid(base + s, base + e);
                        assert(is_run(flags, s, e));
                    }
                    assert forall|s: int, e: int| i <= s && #[trigger] is_run(flags, s, e) implies r.contains(
                        mid(base + s, base + e),
                    ) by {
                        if s == i {
                            assert(flags[s]);
                        }
                    }
                },
            }
        }
    }
}

/// The row positions found in a table box are exactly the midpoints of
/// the maximal runs of line rows: each position is the midpoint of such a
/// run, and each run gives one. A row is a line when its foreground pixels
/// inside the box reach `min_counts[box width]`.
pub proof fn lemma_h_centers_runs(px: Seq<Seq<u8>>, b: BBox, min_counts: Seq<u32>)
    requires
        b.spec_width() > 0,
    ensures
        forall|k: int|
            0 <= k < h_centers_spec(px, b, min_counts).len() ==> run_midpoint(
                h_line_flags(px, b, min_counts[b.spec_width() as int] as int),
                b.y1 as int,
                0,
                #[trigger] h_centers_spec(px, b, min_counts)[k],
            ),
        forall|s: int, e: int|
            #[trigger] is_run(h_line_flags(px, b, min_counts[b.spec_width() as int] as int), s, e) ==> h_centers_spec(px, b, min_counts).contains(
                mid(b.y1 + s, b.y1 + e),
            ),
{
    let flags = h_line_flags(px, b, min_counts[b.spec_width() as int] as int);
    lemma_run_centers_runs(flags, b.y1 as int, 0, None);
    assert(h_centers_spec(px, b, min_counts) == run_centers(flags, b.y1 as int, 0, None));
}

/// The column positions found in a table box are exactly the midpoints of
/// the maximal runs of line columns.
pub proof fn lemma_v_centers_runs(px: Seq<Seq<u8>>, b: BBox, min_counts: Seq<u32>)
    requires
        b.spec_height() > 0,
    ensures
        forall|k: int|
            0 <= k < v_centers_spec(px, b, min_counts).len() ==> run_midpoint(
                v_line_flags(px, b, min_counts[b.spec_height() as int] as int),
                b.x1 as int,
                0,
                #[trigger] v_centers_spec(px, b, min_counts)[k],
            ),
        forall|s: int, e: int|
            #[trigger] is_run(v_line_flags(px, b, min_counts[b.spec_height() as int] as int), s, e) ==> v_centers_spec(px, b, min_counts).contains(
                mid(b.x1 + s, b.x1 + e),
            ),
{
    let flags = v_line_flags(px, b, min_counts[b.spec_height() as int] as int);
    lemma_run_centers_runs(flags, b.x1 as int, 0, None);
    assert(v_centers_spec(px, b, min_counts) == run_centers(flags, b.x1 as int, 0, None));
}

/// Start of the run of `true` that holds position `i`.
proof fn lemma_run_start(flags: Seq<bool>, i: int) -> (s: int)
    requires
        0 <= i < flags.len(),
        flags[i],
    ensures
        0 <= s <= i,
        forall|k: int| s <= k <= i ==> #[trigger] flags[k],
        s == 0 || !flags[s - 1],
    decreases i,
{
    if i == 0 || !flags[i - 1] {
        i
    } else {
        lemma_run_start(flags, i - 1)
    }
}

/// End (exclusive) of the run of `true` that holds position `i`.
proof fn lemma_run_end(flags: Seq<bool>, i: int) -> (e: int)
    requires
        0 <= i < flags.len(),
        flags[i],
    ensures
        i < e <= flags.len(),
        forall|k: int| i <= k < e ==> #[trigger] flags[k],
        e == flags.len() || !flags[e],
    decreases flags.len() - i,
{
    if i + 1 == flags.len() || !flags[i + 1] {
        i + 1
    } else {
        lemma_run_end(flags, i + 1)
    }
}

/// A row of the box drawn over the box's whole width is found: it lies in
/// a run of line rows whose midpoint is among the reported row positions,
/// as long as a full span of the box's width is enough for a line.
pub proof fn lemma_full_row_found(px: Seq<Seq<u8>>, b: BBox, min_counts: Seq<u32>, y: int)
    requires
        b.x1 < b.x2,
        b.y1 <= y < b.y2,
        forall|x: int| b.x1 <= x < b.x2 ==> #[trigger] px[y][x] == 255,
        min_counts[b.spec_width() as int] <= b.spec_width(),
    ensures
        exists|s: int, e: int|
            #[trigger] is_run(h_line_flags(px, b, min_counts[b.spec_width() as int] as int), s, e) && b.y1
                + s <= y < b.y1 + e && h_centers_spec(px, b, min_counts).contains(mid(b.y1 + s, b.y1 + e)),
{
    let flags = h_line_flags(px, b, min_counts[b.spec_width() as int] as int);
    let i = y - b.y1;
    lemma_fg_count_full(px[y], b.x1 as int, b.x2 as int);
    assert(flags[i]);
    let s = lemma_run_start(flags, i);
    let e = lemma_run_end(flags, i);
    assert(is_run(flags, s, e));
    lemma_h_centers_runs(px, b, min_counts);
}

/// A column of the box drawn over the box's whole height is found: it lies
/// in a run of line columns whose midpoint is among the reported column
/// positions, as long as a full span of the box's height is enough.
pub proof fn lemma_full_column_found(px: Seq<Seq<u8>>, b: BBox, min_counts: Seq<u32>, x: int)
    requires
        b.y1 < b.y2,
        b.y2 <= px.len(),
        b.x1 <= x < b.x2,
        forall|y: int| b.y1 <= y < b.y2 ==> #[trigger] px[y][x] == 255,
        min_counts[b.spec_height() as int] <= b.spec_height(),
    ensures
        exists|s: int, e: int|
            #[trigger] is_run(v_line_flags(px, b, min_counts[b.spec_height() as int] as int), s, e) && b.x1
                + s <= x < b.x1 + e && v_centers_spec(px, b, min_counts).contains(mid(b.x1 + s, b.x1 + e)),
{
    let flags = v_line_flags(px, b, min_counts[b.spec_height() as int] as int);
    let i = x - b.x1;
    let col = column_of(px, x);
    assert forall|y: int| b.y1 <= y < b.y2 implies col[y] == 255 by {
        assert(px[y][x] == 255);
    }
    lemma_fg_count_full(col, b.y1 as int, b.y2 as int);
    assert(flags[i]);
    let s = lemma_run_start(flags, i);
    let e = lemma_run_end(flags, i);
    assert(is_run(flags, s, e));
    lemma_v_centers_runs(px, b, min_counts);
}

} // verus!
