//! Table detection: binarize, keep long horizontal and vertical strokes,
//! split the line skeleton into connected components, and turn each
//! component into a table grid.
use vstd::prelude::*;

use crate::cells::{build_cells, grid_cells, merge_grid};
use crate::components::{
    component_bboxes, component_boxes, component_keys, is_component_box, label_order,
};
use crate::error::Error;
use crate::imaging::{
    binarize, binarize_spec, component_labels_of, label_components, opens_label, otsu_level_of,
    otsu_sums_fit, same_region,
};
use crate::lines::{
    h_centers_spec, horizontal_line_centers, lemma_h_centers_ordered, lemma_v_centers_ordered,
    v_centers_spec, vertical_line_centers,
};
use crate::morphology::{
    h_open_spec, half_width, horizontal_open, lemma_h_open_binary, lemma_h_open_within,
    lemma_v_open_binary, lemma_v_open_within, or_masks, or_spec, v_open_spec, vertical_open,
};
use crate::raster::{shaped, GrayImage};
use crate::types::{covered, BBox, DetectParams, Detection, Table, TableModel};

verus! {

/// Integer positions as `u32` values.
pub open spec fn as_u32s(s: Seq<int>) -> Seq<u32> {
    s.map_values(|v: int| v as u32)
}

/// Row strips of a table with box `b` between consecutive line positions.
pub open spec fn row_strips(b: BBox, ys: Seq<u32>) -> Seq<BBox> {
    Seq::new((ys.len() - 1) as nat, |i: int| BBox { x1: b.x1, y1: ys[i], x2: b.x2, y2: ys[i + 1] })
}

/// Column strips of a table with box `b` between consecutive line positions.
pub open spec fn col_strips(b: BBox, xs: Seq<u32>) -> Seq<BBox> {
    Seq::new((xs.len() - 1) as nat, |i: int| BBox { x1: xs[i], y1: b.y1, x2: xs[i + 1], y2: b.y2 })
}

/// The table found in box `b` of the `w` by `h` line masks, if it has at
/// least `min_grid_lines` rows and columns.
pub open spec fn table_spec(
    b: BBox,
    hm: Seq<Seq<u8>>,
    vm: Seq<Seq<u8>>,
    w: u32,
    h: u32,
    min_grid_lines: u32,
    min_counts: Seq<u32>,
) -> Option<TableModel> {
    let ys = as_u32s(h_centers_spec(hm, b, min_counts));
    let xs = as_u32s(v_centers_spec(vm, b, min_counts));
    if ys.len() == 0 || xs.len() == 0 {
        None
    } else if ys.len() - 1 < min_grid_lines || xs.len() - 1 < min_grid_lines {
        None
    } else {
        Some(
            TableModel {
                bbox: b,
                rows: row_strips(b, ys),
                cols: col_strips(b, xs),
                cells: grid_cells(merge_grid(ys, xs, hm, w, h, vm, w, h, min_counts), ys, xs),
            },
        )
    }
}

/// The view of an optional table.
pub open spec fn table_view(t: Option<Table>) -> Option<TableModel> {
    match t {
        Some(t) => Some(t@),
        None => None,
    }
}

/// Tables of the candidate boxes: boxes smaller than `min_area` are
/// skipped, and so are those without a large enough grid.
pub open spec fn candidate_tables(
    cands: Seq<BBox>,
    hm: Seq<Seq<u8>>,
    vm: Seq<Seq<u8>>,
    w: u32,
    h: u32,
    params: DetectParams,
) -> Seq<TableModel>
    decreases cands.len(),
{
    if cands.len() == 0 {
        seq![]
    } else {
        let prev = candidate_tables(cands.drop_last(), hm, vm, w, h, params);
        let b = cands.last();
        if b.spec_area() < params.min_area {
            prev
        } else {
            match table_spec(b, hm, vm, w, h, params.min_grid_lines, params.min_line_counts@) {
                Some(t) => prev.push(t),
                None => prev,
            }
        }
    }
}

/// Horizontal line mask of an image.
pub open spec fn h_mask_spec(px: Seq<Seq<u8>>, w: u32, h: u32, params: DetectParams) -> Seq<Seq<u8>> {
    h_open_spec(binarize_spec(w, h, px), params.h_kernel)
}

/// Vertical line mask of an image.
pub open spec fn v_mask_spec(px: Seq<Seq<u8>>, w: u32, h: u32, params: DetectParams) -> Seq<Seq<u8>> {
    v_open_spec(binarize_spec(w, h, px), w as int, params.v_kernel)
}

/// The line skeleton of an image: its horizontal and vertical line masks
/// together.
pub open spec fn skeleton_spec(px: Seq<Seq<u8>>, w: u32, h: u32, params: DetectParams) -> Seq<Seq<u8>> {
    or_spec(h_mask_spec(px, w, h, params), v_mask_spec(px, w, h, params))
}

/// Candidate table boxes: the bounding boxes of the connected components
/// of the line skeleton, in label order.
pub open spec fn candidates_spec(px: Seq<Seq<u8>>, w: u32, h: u32, params: DetectParams) -> Seq<BBox> {
    component_boxes(component_labels_of(w, h, skeleton_spec(px, w, h, params)), w as int, h as int)
}

/// `b` is the bounding box of the eight-connected region of foreground
/// pixels of `sk` that holds pixel `p` (row, column): it holds the whole
/// region, and each of its edges touches it.
pub open spec fn is_region_box(sk: Seq<Seq<u8>>, w: int, h: int, p: (int, int), b: BBox) -> bool {
    &&& 0 <= p.0 < h && 0 <= p.1 < w && sk[p.0][p.1] != 0
    &&& forall|y: int, x: int|
        0 <= y < h && 0 <= x < w && sk[y][x] != 0 && #[trigger] same_region(sk, w, h, p.0, p.1, y, x)
            ==> b.x1 <= x < b.x2 && b.y1 <= y < b.y2
    &&& exists|y: int, x: int|
        0 <= y < h && 0 <= x < w && sk[y][x] != 0 && #[trigger] same_region(sk, w, h, p.0, p.1, y, x)
            && x == b.x1
    &&& exists|y: int, x: int|
        0 <= y < h && 0 <= x < w && sk[y][x] != 0 && #[trigger] same_region(sk, w, h, p.0, p.1, y, x)
            && x + 1 == b.x2
    &&& exists|y: int, x: int|
        0 <= y < h && 0 <= x < w && sk[y][x] != 0 && #[trigger] same_region(sk, w, h, p.0, p.1, y, x)
            && y == b.y1
    &&& exists|y: int, x: int|
        0 <= y < h && 0 <= x < w && sk[y][x] != 0 && #[trigger] same_region(sk, w, h, p.0, p.1, y, x)
            && y + 1 == b.y2
}

/// Box `boxes[i]` is the bounding box of the region of `sk` that holds
/// `seeds[i]`, and no two of the regions are the same.
pub open spec fn seeded_region_boxes(
    sk: Seq<Seq<u8>>,
    w: int,
    h: int,
    seeds: Seq<(int, int)>,
    boxes: Seq<BBox>,
) -> bool {
    &&& seeds.len() == boxes.len()
    &&& forall|i: int| 0 <= i < boxes.len() ==> is_region_box(sk, w, h, seeds[i], #[trigger] boxes[i])
    &&& forall|i: int, j: int|
        #![trigger seeds[i], seeds[j]]
        0 <= i < seeds.len() && 0 <= j < seeds.len() && i != j ==> !same_region(
            sk,
            w,
            h,
            seeds[i].0,
            seeds[i].1,
            seeds[j].0,
            seeds[j].1,
        )
}

/// Each box of `boxes` is the bounding box of its own eight-connected region
/// of the foreground of `sk`: two boxes never come from one region.
pub open spec fn region_boxes(sk: Seq<Seq<u8>>, w: int, h: int, boxes: Seq<BBox>) -> bool {
    exists|seeds: Seq<(int, int)>| seeded_region_boxes(sk, w, h, seeds, boxes)
}

/// The outer boxes of a sequence of tables.
pub open spec fn table_boxes(ts: Seq<TableModel>) -> Seq<BBox> {
    ts.map_values(|t: TableModel| t.bbox)
}

/// The component boxes of a labelling whose labels follow the regions of
/// `sk` are the boxes of distinct regions of `sk`.
#[verifier::spinoff_prover]
proof fn lemma_component_regions(sk: Seq<Seq<u8>>, lab: Seq<Seq<u32>>, w: int, h: int, boxes: Seq<BBox>) -> (seeds: Seq<(int, int)>)
    requires
        forall|y: int, x: int| 0 <= y < h && 0 <= x < w ==> (#[trigger] lab[y][x] == 0 <==> sk[y][x] == 0),
        forall|y1: int, x1: int, y2: int, x2: int|
            0 <= y1 < h && 0 <= x1 < w && 0 <= y2 < h && 0 <= x2 < w && sk[y1][x1] != 0 && sk[y2][x2] != 0
                ==> (#[trigger] lab[y1][x1] == #[trigger] lab[y2][x2] <==> same_region(sk, w, h, y1, x1, y2, x2)),
        label_order(lab, w, h, component_keys(lab, w, h)),
        boxes.len() == component_keys(lab, w, h).len(),
        forall|i: int|
            0 <= i < boxes.len() ==> is_component_box(lab, w, h, component_keys(lab, w, h)[i], #[trigger] boxes[i]),
    ensures
        seeded_region_boxes(sk, w, h, seeds, boxes),
{
    let keys = component_keys(lab, w, h);
    let seeds = Seq::new(
        boxes.len(),
        |i: int| choose|p: (int, int)| 0 <= p.0 < h && 0 <= p.1 < w && lab[p.0][p.1] == keys[i],
    );
    assert forall|i: int| 0 <= i < boxes.len() implies {
        let p = #[trigger] seeds[i];
        0 <= p.0 < h && 0 <= p.1 < w && lab[p.0][p.1] == keys[i] && keys[i] != 0
    } by {
        let b = boxes[i];
        assert(is_component_box(lab, w, h, keys[i], b));
        let (y, x) = choose|y: int, x: int| 0 <= y < h && 0 <= x < w && #[trigger] lab[y][x] == keys[i] && x == b.x1;
        assert(0 <= (y, x).0 < h && 0 <= (y, x).1 < w && lab[(y, x).0][(y, x).1] == keys[i]);
        assert(keys.contains(keys[i]));
    }
    assert forall|i: int| 0 <= i < boxes.len() implies is_region_box(sk, w, h, seeds[i], #[trigger] boxes[i]) by {
        let p = seeds[i];
        let k = keys[i];
        let b = boxes[i];
        assert(is_component_box(lab, w, h, k, b));
        assert(lab[p.0][p.1] == k && k != 0);
        assert forall|y: int, x: int|
            0 <= y < h && 0 <= x < w && sk[y][x] != 0 && #[trigger] same_region(sk, w, h, p.0, p.1, y, x)
                implies b.x1 <= x < b.x2 && b.y1 <= y < b.y2 by {
            assert(lab[p.0][p.1] == lab[y][x]);
        }
        let (y0, x0) = choose|y: int, x: int| 0 <= y < h && 0 <= x < w && #[trigger] lab[y][x] == k && x == b.x1;
        let (y1, x1) = choose|y: int, x: int| 0 <= y < h && 0 <= x < w && #[trigger] lab[y][x] == k && x + 1 == b.x2;
        let (y2, x2) = choose|y: int, x: int| 0 <= y < h && 0 <= x < w && #[trigger] lab[y][x] == k && y == b.y1;
        let (y3, x3) = choose|y: int, x: int| 0 <= y < h && 0 <= x < w && #[trigger] lab[y][x] == k && y + 1 == b.y2;
        assert(lab[p.0][p.1] == lab[y0][x0] && sk[y0][x0] != 0);
        assert(same_region(sk, w, h, p.0, p.1, y0, x0));
        assert(lab[p.0][p.1] == lab[y1][x1] && sk[y1][x1] != 0);
        assert(same_region(sk, w, h, p.0, p.1, y1, x1));
        assert(lab[p.0][p.1] == lab[y2][x2] && sk[y2][x2] != 0);
        assert(same_region(sk, w, h, p.0, p.1, y2, x2));
        assert(lab[p.0][p.1] == lab[y3][x3] && sk[y3][x3] != 0);
        assert(same_region(sk, w, h, p.0, p.1, y3, x3));
    }
    assert forall|i: int, j: int|
        #![trigger seeds[i], seeds[j]]
        0 <= i < seeds.len() && 0 <= j < seeds.len() && i != j implies !same_region(
            sk,
            w,
            h,
            seeds[i].0,
            seeds[i].1,
            seeds[j].0,
            seeds[j].1,
        ) by {
        let p = seeds[i];
        let q = seeds[j];
        assert(lab[p.0][p.1] == keys[i] && keys[i] != 0);
        assert(lab[q.0][q.1] == keys[j] && keys[j] != 0);
        if i < j {
            assert(keys[i] < keys[j]);
        } else {
            assert(keys[j] < keys[i]);
        }
        assert(lab[p.0][p.1] != lab[q.0][q.1]);
    }
    seeds
}

/// Bounding boxes of the eight-connected regions of a line skeleton, in
/// the order of their labels.
fn skeleton_candidates(skeleton: &GrayImage) -> (candidates: Vec<BBox>)
    requires
        skeleton.wf(),
        skeleton.width * skeleton.height <= u32::MAX,
        exists|y: int, x: int|
            0 <= y < skeleton.height && 0 <= x < skeleton.width && !#[trigger] opens_label(
                skeleton@,
                skeleton.width as int,
                y,
                x,
            ),
    ensures
        candidates@ == component_boxes(
            component_labels_of(skeleton.width, skeleton.height, skeleton@),
            skeleton.width as int,
            skeleton.height as int,
        ),
        forall|k: int|
            0 <= k < candidates.len() ==> (#[trigger] candidates@[k]).x1 < candidates@[k].x2 <= skeleton.width
                && candidates@[k].y1 < candidates@[k].y2 <= skeleton.height,
        region_boxes(skeleton@, skeleton.width as int, skeleton.height as int, candidates@),
{
    let labels = label_components(skeleton);
    let candidates = component_bboxes(&labels);
    proof {
        let seeds = lemma_component_regions(
            skeleton@,
            labels@,
            skeleton.width as int,
            skeleton.height as int,
            candidates@,
        );
    }
    candidates
}

/// Dropping candidates keeps the boxes of distinct regions distinct.
#[verifier::spinoff_prover]
proof fn lemma_kept_regions(
    sk: Seq<Seq<u8>>,
    seeds: Seq<(int, int)>,
    cands: Seq<BBox>,
    hm: Seq<Seq<u8>>,
    vm: Seq<Seq<u8>>,
    w: u32,
    h: u32,
    params: DetectParams,
)
    requires
        seeded_region_boxes(sk, w as int, h as int, seeds, cands),
    ensures
        region_boxes(sk, w as int, h as int, table_boxes(candidate_tables(cands, hm, vm, w, h, params))),
{
    let idx = lemma_candidate_tables_index(cands, hm, vm, w, h, params);
    let tb = table_boxes(candidate_tables(cands, hm, vm, w, h, params));
    let ts = Seq::new(idx.len(), |i: int| seeds[idx[i]]);
    assert forall|i: int| 0 <= i < tb.len() implies is_region_box(sk, w as int, h as int, ts[i], #[trigger] tb[i]) by {
        assert(0 <= idx[i] < cands.len());
        assert(is_region_box(sk, w as int, h as int, seeds[idx[i]], cands[idx[i]]));
    }
    assert forall|i: int, j: int|
        #![trigger ts[i], ts[j]]
        0 <= i < ts.len() && 0 <= j < ts.len() && i != j implies !same_region(
            sk,
            w as int,
            h as int,
            ts[i].0,
            ts[i].1,
            ts[j].0,
            ts[j].1,
        ) by {
        if i < j {
            assert(idx[i] < idx[j]);
        } else {
            assert(idx[j] < idx[i]);
        }
        assert(0 <= idx[i] < cands.len() && 0 <= idx[j] < cands.len());
        assert(seeds[idx[i]] == ts[i] && seeds[idx[j]] == ts[j]);
    }
    assert(seeded_region_boxes(sk, w as int, h as int, ts, tb));
}

/// The tables of the candidate boxes are exactly the tables built from the
/// candidates that cover at least `min_area` pixels and hold a large enough
/// grid, in candidate order: `idx[i]` is the candidate of table `i`, and
/// every such candidate has a table.
pub proof fn lemma_candidate_tables_index(
    cands: Seq<BBox>,
    hm: Seq<Seq<u8>>,
    vm: Seq<Seq<u8>>,
    w: u32,
    h: u32,
    params: DetectParams,
) -> (idx: Seq<int>)
    ensures
        idx.len() == candidate_tables(cands, hm, vm, w, h, params).len(),
        forall|i: int|
            0 <= i < idx.len() ==> 0 <= #[trigger] idx[i] < cands.len()
                && candidate_tables(cands, hm, vm, w, h, params)[i].bbox == cands[idx[i]]
                && cands[idx[i]].spec_area() >= params.min_area
                && table_spec(cands[idx[i]], hm, vm, w, h, params.min_grid_lines, params.min_line_counts@)
                == Some(candidate_tables(cands, hm, vm, w, h, params)[i]),
        forall|i: int, j: int| #![trigger idx[i], idx[j]] 0 <= i < j < idx.len() ==> idx[i] < idx[j],
        forall|k: int|
            0 <= k < cands.len() && (#[trigger] cands[k]).spec_area() >= params.min_area && table_spec(
                cands[k],
                hm,
                vm,
                w,
                h,
                params.min_grid_lines,
                params.min_line_counts@,
            ) is Some ==> exists|i: int| 0 <= i < idx.len() && idx[i] == k,
    decreases cands.len(),
{
    if cands.len() == 0 {
        seq![]
    } else {
        let rest = cands.drop_last();
        let prev = lemma_candidate_tables_index(rest, hm, vm, w, h, params);
        let n = cands.len() - 1;
        let b = cands.last();
        lemma_table_spec_bbox(b, hm, vm, w, h, params.min_grid_lines, params.min_line_counts@);
        let keep = b.spec_area() >= params.min_area && table_spec(
            b,
            hm,
            vm,
            w,
            h,
            params.min_grid_lines,
            params.min_line_counts@,
        ) is Some;
        let idx = if keep {
            prev.push(n)
        } else {
            prev
        };
        assert forall|k: int|
            0 <= k < cands.len() && (#[trigger] cands[k]).spec_area() >= params.min_area && table_spec(
                cands[k],
                hm,
                vm,
                w,
                h,
                params.min_grid_lines,
                params.min_line_counts@,
            ) is Some implies exists|i: int| 0 <= i < idx.len() && idx[i] == k by {
            if k < n {
                assert(rest[k] == cands[k]);
                let i = choose|i: int| 0 <= i < prev.len() && prev[i] == k;
                assert(idx[i] == k);
            } else {
                assert(idx[prev.len() as int] == k);
            }
        }
        assert forall|i: int| 0 <= i < prev.len() implies #[trigger] rest[prev[i]] == cands[prev[i]] by {}
        idx
    }
}


/// The tables detected in a `w` by `h` greyscale image.
pub open spec fn tables_spec(px: Seq<Seq<u8>>, w: u32, h: u32, params: DetectParams) -> Seq<TableModel> {
    candidate_tables(
        candidates_spec(px, w, h, params),
        h_mask_spec(px, w, h, params),
        v_mask_spec(px, w, h, params),
        w,
        h,
        params,
    )
}

/// A detected table is well formed, lies inside the `w` by `h` image,
/// covers at least `min_area` pixels and has at least `min_grid_lines` rows
/// and columns.
pub open spec fn table_in_image(t: TableModel, w: u32, h: u32, params: DetectParams) -> bool {
    &&& t.well_formed()
    &&& t.bbox.x1 < t.bbox.x2 <= w
    &&& t.bbox.y1 < t.bbox.y2 <= h
    &&& t.bbox.spec_area() >= params.min_area
    &&& t.rows.len() >= params.min_grid_lines
    &&& t.cols.len() >= params.min_grid_lines
}

/// The detection thresholds fit an image of the given size: every span
/// length has a line-pixel threshold, and the structuring elements stay
/// within `u32` positions.
pub open spec fn params_fit(params: DetectParams, w: u32, h: u32) -> bool {
    &&& params.min_line_counts.len() > w
    &&& params.min_line_counts.len() > h
    &&& w + half_width(params.h_kernel) <= u32::MAX
    &&& h + half_width(params.v_kernel) <= u32::MAX
}

/// The tables of `ts` that `keep` accepts, in order.
pub open spec fn keep_tables(ts: Seq<TableModel>, keep: spec_fn(TableModel) -> bool) -> Seq<TableModel>
    decreases ts.len(),
{
    if ts.len() == 0 {
        seq![]
    } else {
        let prev = keep_tables(ts.drop_last(), keep);
        if keep(ts.last()) {
            prev.push(ts.last())
        } else {
            prev
        }
    }
}

/// A table found in a box has that box as its outer box.
proof fn lemma_table_spec_bbox(
    b: BBox,
    hm: Seq<Seq<u8>>,
    vm: Seq<Seq<u8>>,
    w: u32,
    h: u32,
    g: u32,
    mc: Seq<u32>,
)
    ensures
        table_spec(b, hm, vm, w, h, g, mc) matches Some(t) ==> t.bbox == b,
{
}

/// Raising the minimum area only drops tables: the tables found with
/// `p2` are those found with `p1` whose box covers at least `p2.min_area`.
pub proof fn lemma_min_area_filters(
    cands: Seq<BBox>,
    hm: Seq<Seq<u8>>,
    vm: Seq<Seq<u8>>,
    w: u32,
    h: u32,
    p1: DetectParams,
    p2: DetectParams,
)
    requires
        p1.min_area <= p2.min_area,
        p1.min_grid_lines == p2.min_grid_lines,
        p1.min_line_counts@ == p2.min_line_counts@,
    ensures
        candidate_tables(cands, hm, vm, w, h, p2) == keep_tables(
            candidate_tables(cands, hm, vm, w, h, p1),
            |t: TableModel| t.bbox.spec_area() >= p2.min_area,
        ),
    decreases cands.len(),
{
    let keep = |t: TableModel| t.bbox.spec_area() >= p2.min_area;
    if cands.len() > 0 {
        lemma_min_area_filters(cands.drop_last(), hm, vm, w, h, p1, p2);
        let b = cands.last();
        let ts = table_spec(b, hm, vm, w, h, p1.min_grid_lines, p1.min_line_counts@);
        lemma_table_spec_bbox(b, hm, vm, w, h, p1.min_grid_lines, p1.min_line_counts@);
        let prev1 = candidate_tables(cands.drop_last(), hm, vm, w, h, p1);
        if b.spec_area() >= p1.min_area {
            if let Some(t) = ts {
                let pushed = prev1.push(t);
                assert(pushed.drop_last() =~= prev1);
                assert(keep_tables(pushed, keep) == if keep(t) {
                    keep_tables(prev1, keep).push(t)
                } else {
                    keep_tables(prev1, keep)
                });
            }
        }
    }
}

/// Raising the minimum number of grid lines only drops tables: the tables
/// found with `p2` are those found with `p1` that have at least
/// `p2.min_grid_lines` rows and columns.
pub proof fn lemma_min_grid_lines_filters(
    cands: Seq<BBox>,
    hm: Seq<Seq<u8>>,
    vm: Seq<Seq<u8>>,
    w: u32,
    h: u32,
    p1: DetectParams,
    p2: DetectParams,
)
    requires
        p1.min_grid_lines <= p2.min_grid_lines,
        p1.min_area == p2.min_area,
        p1.min_line_counts@ == p2.min_line_counts@,
    ensures
        candidate_tables(cands, hm, vm, w, h, p2) == keep_tables(
            candidate_tables(cands, hm, vm, w, h, p1),
            |t: TableModel| t.rows.len() >= p2.min_grid_lines && t.cols.len() >= p2.min_grid_lines,
        ),
    decreases cands.len(),
{
    let keep = |t: TableModel| t.rows.len() >= p2.min_grid_lines && t.cols.len() >= p2.min_grid_lines;
    if cands.len() > 0 {
        lemma_min_grid_lines_filters(cands.drop_last(), hm, vm, w, h, p1, p2);
        let b = cands.last();
        let mc = p1.min_line_counts@;
        let ts1 = table_spec(b, hm, vm, w, h, p1.min_grid_lines, mc);
        let ts2 = table_spec(b, hm, vm, w, h, p2.min_grid_lines, mc);
        let prev1 = candidate_tables(cands.drop_last(), hm, vm, w, h, p1);
        if b.spec_area() >= p1.min_area {
            if let Some(t) = ts1 {
                let pushed = prev1.push(t);
                assert(pushed.drop_last() =~= prev1);
                assert(keep_tables(pushed, keep) == if keep(t) {
                    keep_tables(prev1, keep).push(t)
                } else {
                    keep_tables(prev1, keep)
                });
                if keep(t) {
                    assert(ts2 == Some(t));
                } else {
                    assert(ts2 is None);
                }
            } else {
                assert(ts2 is None);
            }
        }
    }
}

/// With thresholds that differ only in the minimum area, the tables of an
/// image under the larger minimum are those under the smaller one whose
/// box is large enough.
pub proof fn lemma_tables_min_area_monotone(
    px: Seq<Seq<u8>>,
    w: u32,
    h: u32,
    p1: DetectParams,
    p2: DetectParams,
)
    requires
        p1.min_area <= p2.min_area,
        p1.h_kernel == p2.h_kernel,
        p1.v_kernel == p2.v_kernel,
        p1.min_grid_lines == p2.min_grid_lines,
        p1.min_line_counts@ == p2.min_line_counts@,
    ensures
        tables_spec(px, w, h, p2) == keep_tables(
            tables_spec(px, w, h, p1),
            |t: TableModel| t.bbox.spec_area() >= p2.min_area,
        ),
{
    lemma_min_area_filters(
        candidates_spec(px, w, h, p1),
        h_mask_spec(px, w, h, p1),
        v_mask_spec(px, w, h, p1),
        w,
        h,
        p1,
        p2,
    );
}

/// With thresholds that differ only in the minimum number of grid lines,
/// the tables under the larger minimum are those under the smaller one
/// with enough rows and columns.
pub proof fn lemma_tables_min_grid_lines_monotone(
    px: Seq<Seq<u8>>,
    w: u32,
    h: u32,
    p1: DetectParams,
    p2: DetectParams,
)
    requires
        p1.min_grid_lines <= p2.min_grid_lines,
        p1.h_kernel == p2.h_kernel,
        p1.v_kernel == p2.v_kernel,
        p1.min_area == p2.min_area,
        p1.min_line_counts@ == p2.min_line_counts@,
    ensures
        tables_spec(px, w, h, p2) == keep_tables(
            tables_spec(px, w, h, p1),
            |t: TableModel| t.rows.len() >= p2.min_grid_lines && t.cols.len() >= p2.min_grid_lines,
        ),
{
    lemma_min_grid_lines_filters(
        candidates_spec(px, w, h, p1),
        h_mask_spec(px, w, h, p1),
        v_mask_spec(px, w, h, p1),
        w,
        h,
        p1,
        p2,
    );
}

proof fn lemma_centers_as_u32s(c: Seq<int>, lo: int, hi: int)
    requires
        0 <= lo,
        hi <= u32::MAX,
        forall|k: int| 0 <= k < c.len() ==> lo <= #[trigger] c[k] < hi,
    ensures
        forall|k: int| 0 <= k < c.len() ==> #[trigger] as_u32s(c)[k] == c[k],
{
}

/// Turn one candidate box into a table: find its row and column lines,
/// require at least `min_grid_lines` rows and columns, and build the strips
/// and cells.
pub fn build_table(bbox: BBox, h_mask: &GrayImage, v_mask: &GrayImage, params: &DetectParams) -> (table:
    Option<Table>)
    requires
        h_mask.wf(),
        v_mask.wf(),
        h_mask.width == v_mask.width,
        h_mask.height == v_mask.height,
        bbox.x2 <= h_mask.width,
        bbox.y2 <= h_mask.height,
        params.min_line_counts.len() > h_mask.width,
        params.min_line_counts.len() > h_mask.height,
        h_mask.width * h_mask.height <= usize::MAX,
    ensures
        table_view(table) == table_spec(
            bbox,
            h_mask@,
            v_mask@,
            h_mask.width,
            h_mask.height,
            params.min_grid_lines,
            params.min_line_counts@,
        ),
        table matches Some(t) ==> {
            &&& t@.well_formed()
            &&& t.bbox == bbox
            &&& t.rows.len() >= params.min_grid_lines
            &&& t.cols.len() >= params.min_grid_lines
        },
{
    let ghost hc = h_centers_spec(h_mask@, bbox, params.min_line_counts@);
    let ghost vc = v_centers_spec(v_mask@, bbox, params.min_line_counts@);
    proof {
        lemma_h_centers_ordered(h_mask@, bbox, params.min_line_counts@);
        lemma_v_centers_ordered(v_mask@, bbox, params.min_line_counts@);
        lemma_centers_as_u32s(hc, bbox.y1 as int, bbox.y2 as int);
        lemma_centers_as_u32s(vc, bbox.x1 as int, bbox.x2 as int);
    }
    let row_ys = horizontal_line_centers(h_mask, bbox, &params.min_line_counts);
    let col_xs = vertical_line_centers(v_mask, bbox, &params.min_line_counts);
    assert(row_ys@ =~= as_u32s(hc));
    assert(col_xs@ =~= as_u32s(vc));
    let n_rows = match row_ys.len().checked_sub(1) {
        Some(v) => v,
        None => return None,
    };
    let n_cols = match col_xs.len().checked_sub(1) {
        Some(v) => v,
        None => return None,
    };
    if n_rows < params.min_grid_lines as usize || n_cols < params.min_grid_lines as usize {
        return None;
    }
    let mut rows: Vec<BBox> = Vec::new();
    let mut i: usize = 0;
    while i < n_rows
        invariant
            n_rows == row_ys.len() - 1,
            0 <= i <= n_rows,
            rows@ =~= row_strips(bbox, row_ys@).take(i as int),
        decreases n_rows - i,
    {
        rows.push(BBox::new(bbox.x1, row_ys[i], bbox.x2, row_ys[i + 1]));
        i += 1;
    }
    let mut cols: Vec<BBox> = Vec::new();
    let mut i: usize = 0;
    while i < n_cols
        invariant
            n_cols == col_xs.len() - 1,
            0 <= i <= n_cols,
            cols@ =~= col_strips(bbox, col_xs@).take(i as int),
        decreases n_cols - i,
    {
        cols.push(BBox::new(col_xs[i], bbox.y1, col_xs[i + 1], bbox.y2));
        i += 1;
    }
    assert(n_rows * n_cols <= h_mask.width * h_mask.height) by (nonlinear_arith)
        requires
            n_rows <= h_mask.height,
            n_cols <= h_mask.width,
    ;
    let cells = build_cells(&row_ys, &col_xs, h_mask, v_mask, &params.min_line_counts);
    assert(rows@ =~= row_strips(bbox, row_ys@));
    assert(cols@ =~= col_strips(bbox, col_xs@));
    let table = Table { bbox, rows, cols, cells };
    proof {
        let tm = table@;
        assert forall|m: int| 0 <= m < tm.cells.len() implies {
            let c = #[trigger] tm.cells[m];
            &&& c.row_span >= 1
            &&& c.col_span >= 1
            &&& c.row + c.row_span <= tm.rows.len()
            &&& c.col + c.col_span <= tm.cols.len()
            &&& c.bbox == (BBox {
                x1: tm.cols[c.col as int].x1,
                y1: tm.rows[c.row as int].y1,
                x2: tm.cols[c.col + c.col_span - 1].x2,
                y2: tm.rows[c.row + c.row_span - 1].y2,
            })
        } by {
            let c = tm.cells[m];
            assert(c == cells@[m]);
        }
        assert forall|r: int, c: int|
            0 <= r < tm.rows.len() && 0 <= c < tm.cols.len() implies #[trigger] covered(tm.cells, r, c) by {
            assert(covered(cells@, r, c));
        }
        assert forall|i: int| 0 <= i < tm.rows.len() implies (#[trigger] tm.rows[i]).x1 == bbox.x1
            && tm.rows[i].x2 == bbox.x2 && bbox.y1 <= tm.rows[i].y1 < tm.rows[i].y2 <= bbox.y2 by {
            assert(row_ys@[i] == hc[i]);
            assert(row_ys@[i + 1] == hc[i + 1]);
            assert(hc[i] < hc[i + 1]);
        }
        assert forall|i: int| 0 <= i < tm.cols.len() implies (#[trigger] tm.cols[i]).y1 == bbox.y1
            && tm.cols[i].y2 == bbox.y2 && bbox.x1 <= tm.cols[i].x1 < tm.cols[i].x2 <= bbox.x2 by {
            assert(col_xs@[i] == vc[i]);
            assert(col_xs@[i + 1] == vc[i + 1]);
            assert(vc[i] < vc[i + 1]);
        }
        assert(tm.well_formed());
    }
    Some(table)
}

/// Unless the image is a single dark pixel, its line skeleton has a pixel
/// that joins an earlier neighbour's label in a raster scan.
proof fn lemma_skeleton_joined(
    px: Seq<Seq<u8>>,
    bin: Seq<Seq<u8>>,
    hm: Seq<Seq<u8>>,
    vm: Seq<Seq<u8>>,
    sk: Seq<Seq<u8>>,
    wu: u32,
    hu: u32,
    params: DetectParams,
)
    requires
        wu > 0,
        hu > 0,
        !(wu == 1 && hu == 1 && px[0][0] == 0),
        shaped(px, wu as int, hu as int),
        shaped(bin, wu as int, hu as int),
        shaped(hm, wu as int, hu as int),
        shaped(vm, wu as int, hu as int),
        shaped(sk, wu as int, hu as int),
        bin == binarize_spec(wu, hu, px),
        otsu_level_of(wu, hu, px) == 0 || exists|y: int, x: int|
            0 <= y < hu && 0 <= x < wu && #[trigger] px[y][x] > otsu_level_of(wu, hu, px),
        hm == h_open_spec(bin, params.h_kernel),
        vm == v_open_spec(bin, wu as int, params.v_kernel),
        sk == or_spec(hm, vm),
    ensures
        exists|y: int, x: int| 0 <= y < hu && 0 <= x < wu && !#[trigger] opens_label(sk, wu as int, y, x),
{
    let w = wu as int;
    let h = hu as int;
    lemma_h_open_binary(bin, params.h_kernel);
    lemma_v_open_binary(bin, w, params.v_kernel);
    assert(bin[0].len() == w);
    assert(hm[0].len() == w);
    if exists|y: int, x: int| 0 <= y < h && 0 <= x < w && #[trigger] sk[y][x] == 0 {
        let (y, x) = choose|y: int, x: int| 0 <= y < h && 0 <= x < w && #[trigger] sk[y][x] == 0;
        assert(!opens_label(sk, w, y, x));
    } else if w >= 2 {
        assert(sk[0][0] != 0 && sk[0][1] != 0);
        assert(hm[0][0] == 0 || hm[0][0] == 255);
        assert(vm[0][0] == 0 || vm[0][0] == 255);
        assert(hm[0][1] == 0 || hm[0][1] == 255);
        assert(vm[0][1] == 0 || vm[0][1] == 255);
        assert(!opens_label(sk, w, 0, 1));
    } else if h >= 2 {
        assert(hm[1].len() == w);
        assert(sk[0][0] != 0 && sk[1][0] != 0);
        assert(hm[0][0] == 0 || hm[0][0] == 255);
        assert(vm[0][0] == 0 || vm[0][0] == 255);
        assert(hm[1][0] == 0 || hm[1][0] == 255);
        assert(vm[1][0] == 0 || vm[1][0] == 255);
        assert(!opens_label(sk, w, 1, 0));
    } else {
        let lvl = otsu_level_of(wu, hu, px);
        assert(px[0].len() == 1);
        assert(px[0][0] > lvl);
        assert(bin[0][0] == 0);
        lemma_h_open_within(bin, params.h_kernel);
        lemma_v_open_within(bin, w, params.v_kernel);
        assert(hm[0][0] == 0);
        assert(vm[0][0] == 0);
        assert(sk[0][0] == 0);
    }
}

/// Detect tables in a greyscale image.
///
/// Tables must be bordered: every cell enclosed by visible lines. Two tables
/// on the same image stay separate as long as their line skeletons remain
/// disconnected; tables that visually touch through a shared borderline are
/// reported as one. Coordinates in the returned [`Detection`] are image
/// pixels.
#[verifier::rlimit(30)]
pub fn detect_tables(image: &GrayImage, params: &DetectParams) -> (result: Result<Detection, Error>)
    requires
        image.wf(),
        otsu_sums_fit(image.width, image.height, image@),
        !(image.width == 1 && image.height == 1 && image@[0][0] == 0),
        params_fit(*params, image.width, image.height),
    ensures
        (image.width == 0 || image.height == 0) <==> result matches Err(Error::EmptyImage),
        result is Ok || result matches Err(Error::EmptyImage),
        result matches Ok(d) ==> {
            &&& d.image_width == image.width
            &&& d.image_height == image.height
            &&& d.coordinate_space@ == "image_pixels"@
            &&& d.tables@.len() == tables_spec(image@, image.width, image.height, *params).len()
            &&& forall|i: int|
                0 <= i < d.tables@.len() ==> (#[trigger] d.tables@[i])@ == tables_spec(
                    image@,
                    image.width,
                    image.height,
                    *params,
                )[i]
            &&& forall|i: int|
                0 <= i < d.tables@.len() ==> table_in_image(
                    (#[trigger] d.tables@[i])@,
                    image.width,
                    image.height,
                    *params,
                )
            &&& region_boxes(
                skeleton_spec(image@, image.width, image.height, *params),
                image.width as int,
                image.height as int,
                table_boxes(tables_spec(image@, image.width, image.height, *params)),
            )
        },
{
    let image_width = image.width;
    let image_height = image.height;
    if image_width == 0 || image_height == 0 {
        return Err(Error::EmptyImage);
    }
    let binary = binarize(image);
    let h_mask = horizontal_open(&binary, params.h_kernel);
    let v_mask = vertical_open(&binary, params.v_kernel);
    let skeleton = or_masks(&h_mask, &v_mask);
    proof {
        lemma_skeleton_joined(
            image@,
            binary@,
            h_mask@,
            v_mask@,
            skeleton@,
            image_width,
            image_height,
            *params,
        );
    }
    let candidates = skeleton_candidates(&skeleton);
    let ghost hm = h_mask@;
    let ghost vm = v_mask@;
    let ghost cands = candidates@;
    assert(hm == h_mask_spec(image@, image_width, image_height, *params));
    assert(vm == v_mask_spec(image@, image_width, image_height, *params));
    assert(skeleton@ == skeleton_spec(image@, image_width, image_height, *params));
    assert(cands == candidates_spec(image@, image_width, image_height, *params));
    assert(region_boxes(
        skeleton@,
        image_width as int,
        image_height as int,
        table_boxes(tables_spec(image@, image_width, image_height, *params)),
    )) by {
        let seeds = choose|seeds: Seq<(int, int)>|
            seeded_region_boxes(skeleton@, image_width as int, image_height as int, seeds, cands);
        lemma_kept_regions(skeleton@, seeds, cands, hm, vm, image_width, image_height, *params);
    }
    let mut tables: Vec<Table> = Vec::new();
    let mut i: usize = 0;
    while i < candidates.len()
        invariant
            h_mask.wf(),
            v_mask.wf(),
            h_mask.width == image_width,
            h_mask.height == image_height,
            v_mask.width == image_width,
            v_mask.height == image_height,
            hm == h_mask@,
            vm == v_mask@,
            cands == candidates@,
            params_fit(*params, image_width, image_height),
            image_width * image_height <= u32::MAX,
            forall|k: int|
                0 <= k < candidates.len() ==> (#[trigger] candidates@[k]).x1 < candidates@[k].x2
                    <= image_width && candidates@[k].y1 < candidates@[k].y2 <= image_height,
            forall|k: int|
                0 <= k < tables@.len() ==> table_in_image(
                    (#[trigger] tables@[k])@,
                    image_width,
                    image_height,
                    *params,
                ),
            0 <= i <= candidates.len(),
            tables@.len() == candidate_tables(cands.take(i as int), hm, vm, image_width, image_height, *params).len(),
            forall|k: int|
                0 <= k < tables@.len() ==> (#[trigger] tables@[k])@ == candidate_tables(
                    cands.take(i as int),
                    hm,
                    vm,
                    image_width,
                    image_height,
                    *params,
                )[k],
        decreases candidates.len() - i,
    {
        let bbox = candidates[i];
        let ghost prev = candidate_tables(cands.take(i as int), hm, vm, image_width, image_height, *params);
        assert(cands.take(i + 1).drop_last() =~= cands.take(i as int));
        assert(cands.take(i + 1).last() == bbox);
        if bbox.area() >= params.min_area {
            if let Some(table) = build_table(bbox, &h_mask, &v_mask, params) {
                tables.push(table);
            }
        }
        i += 1;
    }
    assert(cands.take(candidates.len() as int) =~= cands);
    Ok(Detection { image_width, image_height, coordinate_space: "image_pixels", tables })
}

} // verus!
