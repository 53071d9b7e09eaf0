//! Bounding boxes of the labelled components of a label image, in label
//! order.
use vstd::prelude::*;

use crate::ordering::{lemma_sorted_unique, strictly_sorted};
use crate::raster::LabelImage;
use crate::types::BBox;
use std::collections::HashMap;

verus! {

/// Pixel `(yy, xx)` of a `w` by `h` grid comes before `(y, x)` in row-major
/// order.
pub open spec fn scanned(w: int, h: int, y: int, x: int, yy: int, xx: int) -> bool {
    &&& 0 <= yy < h
    &&& 0 <= xx < w
    &&& (yy < y || (yy == y && xx < x))
}

/// Some pixel before `(y, x)` carries label `k`.
pub open spec fn label_seen(lab: Seq<Seq<u32>>, w: int, h: int, y: int, x: int, k: u32) -> bool {
    exists|yy: int, xx: int| scanned(w, h, y, x, yy, xx) && #[trigger] lab[yy][xx] == k
}

/// Label `k` occurs in the `w` by `h` label grid.
pub open spec fn label_present(lab: Seq<Seq<u32>>, w: int, h: int, k: u32) -> bool {
    label_seen(lab, w, h, h, 0, k)
}

/// `b` is the bounding box (right and bottom exclusive) of the pixels
/// labelled `k`: it holds them all and each of its edges touches one.
pub open spec fn is_component_box(lab: Seq<Seq<u32>>, w: int, h: int, k: u32, b: BBox) -> bool {
    &&& forall|y: int, x: int|
        0 <= y < h && 0 <= x < w && #[trigger] lab[y][x] == k ==> b.x1 <= x < b.x2 && b.y1 <= y < b.y2
    &&& exists|y: int, x: int| 0 <= y < h && 0 <= x < w && #[trigger] lab[y][x] == k && x == b.x1
    &&& exists|y: int, x: int| 0 <= y < h && 0 <= x < w && #[trigger] lab[y][x] == k && x + 1 == b.x2
    &&& exists|y: int, x: int| 0 <= y < h && 0 <= x < w && #[trigger] lab[y][x] == k && y == b.y1
    &&& exists|y: int, x: int| 0 <= y < h && 0 <= x < w && #[trigger] lab[y][x] == k && y + 1 == b.y2
}

/// `keys` lists the non-zero labels that occur, in increasing order.
pub open spec fn label_order(lab: Seq<Seq<u32>>, w: int, h: int, keys: Seq<u32>) -> bool {
    &&& strictly_sorted(keys, |a: u32, b: u32| a < b)
    &&& forall|k: u32| keys.contains(k) <==> (k != 0 && label_present(lab, w, h, k))
}

/// The bounding box of the pixels labelled `k`.
pub open spec fn component_box(lab: Seq<Seq<u32>>, w: int, h: int, k: u32) -> BBox {
    choose|b: BBox| is_component_box(lab, w, h, k, b)
}

/// The non-zero labels that occur, in increasing order.
pub open spec fn component_keys(lab: Seq<Seq<u32>>, w: int, h: int) -> Seq<u32> {
    choose|keys: Seq<u32>| label_order(lab, w, h, keys)
}

/// The bounding boxes of the labelled components, in increasing label order.
pub open spec fn component_boxes(lab: Seq<Seq<u32>>, w: int, h: int) -> Seq<BBox> {
    component_keys(lab, w, h).map_values(|k: u32| component_box(lab, w, h, k))
}

/// Position of `k` in the strictly increasing `keys`, or where it would go.
fn search_keys(keys: &Vec<u32>, k: u32) -> (res: (bool, usize))
    requires
        strictly_sorted(keys@, |a: u32, b: u32| a < b),
    ensures
        res.1 <= keys.len(),
        res.0 ==> res.1 < keys.len() && keys@[res.1 as int] == k,
        !res.0 ==> forall|m: int| 0 <= m < keys.len() ==> (#[trigger] keys@[m] < k <==> m < res.1),
        !res.0 ==> !keys@.contains(k),
{
    let mut lo: usize = 0;
    let mut hi: usize = keys.len();
    while lo < hi
        invariant
            strictly_sorted(keys@, |a: u32, b: u32| a < b),
            0 <= lo <= hi <= keys.len(),
            forall|m: int| 0 <= m < lo ==> #[trigger] keys@[m] < k,
            forall|m: int| hi <= m < keys.len() ==> #[trigger] keys@[m] > k,
        decreases hi - lo,
    {
        let mid = lo + (hi - lo) / 2;
        if keys[mid] == k {
            return (true, mid);
        } else if keys[mid] < k {
            assert forall|m: int| 0 <= m < mid + 1 implies #[trigger] keys@[m] < k by {
                if m < mid {
                    assert(keys@[m] < keys@[mid as int]);
                }
            }
            lo = mid + 1;
        } else {
            assert forall|m: int| mid <= m < keys.len() implies #[trigger] keys@[m] > k by {
                if m > mid {
                    assert(keys@[mid as int] < keys@[m]);
                }
            }
            hi = mid;
        }
    }
    (false, lo)
}

/// Box (left, top, right, bottom; all inclusive) holds pixel `(yy, xx)`.
spec fn box_holds(b: (u32, u32, u32, u32), yy: int, xx: int) -> bool {
    b.0 <= xx <= b.2 && b.1 <= yy <= b.3
}

/// The pixels `wit` (as (row, column) pairs) carry label `k`, were scanned
/// before `(y, x)`, and touch the left, top, right and bottom edges of `b`.
spec fn box_attained(
    lab: Seq<Seq<u32>>,
    w: int,
    h: int,
    y: int,
    x: int,
    k: u32,
    b: (u32, u32, u32, u32),
    wit: ((int, int), (int, int), (int, int), (int, int)),
) -> bool {
    &&& scanned(w, h, y, x, wit.0.0, wit.0.1) && lab[wit.0.0][wit.0.1] == k && wit.0.1 == b.0
    &&& scanned(w, h, y, x, wit.1.0, wit.1.1) && lab[wit.1.0][wit.1.1] == k && wit.1.0 == b.1
    &&& scanned(w, h, y, x, wit.2.0, wit.2.1) && lab[wit.2.0][wit.2.1] == k && wit.2.1 == b.2
    &&& scanned(w, h, y, x, wit.3.0, wit.3.1) && lab[wit.3.0][wit.3.1] == k && wit.3.0 == b.3
}

/// Scan state after the pixels before `(y, x)`: the labels met, sorted, with
/// the box of each over the pixels met so far.
spec fn scan_state(
    lab: Seq<Seq<u32>>,
    w: int,
    h: int,
    y: int,
    x: int,
    keys: Seq<u32>,
    boxes: Seq<(u32, u32, u32, u32)>,
    wits: Seq<((int, int), (int, int), (int, int), (int, int))>,
) -> bool {
    &&& strictly_sorted(keys, |a: u32, b: u32| a < b)
    &&& forall|k: u32| keys.contains(k) <==> (k != 0 && label_seen(lab, w, h, y, x, k))
    &&& boxes.len() == keys.len()
    &&& wits.len() == keys.len()
    &&& forall|m: int, yy: int, xx: int|
        #![trigger keys[m], lab[yy][xx]]
        0 <= m < keys.len() && scanned(w, h, y, x, yy, xx) && lab[yy][xx] == keys[m] ==> box_holds(
            boxes[m],
            yy,
            xx,
        )
    &&& forall|m: int|
        0 <= m < keys.len() ==> box_attained(lab, w, h, y, x, keys[m], boxes[m], #[trigger] wits[m])
}

proof fn lemma_scan_step(
    lab: Seq<Seq<u32>>,
    w: int,
    h: int,
    y: int,
    x: int,
    keys: Seq<u32>,
    boxes: Seq<(u32, u32, u32, u32)>,
    wits: Seq<((int, int), (int, int), (int, int), (int, int))>,
)
    requires
        scan_state(lab, w, h, y, x, keys, boxes, wits),
        0 <= y < h,
        0 <= x < w,
        lab[y][x] == 0,
    ensures
        scan_state(lab, w, h, y, x + 1, keys, boxes, wits),
{
    assert forall|k: u32| keys.contains(k) <==> (k != 0 && label_seen(lab, w, h, y, x + 1, k)) by {
        if k != 0 && label_seen(lab, w, h, y, x + 1, k) {
            let (yy, xx) = choose|yy: int, xx: int| scanned(w, h, y, x + 1, yy, xx) && #[trigger] lab[yy][xx] == k;
            assert(scanned(w, h, y, x, yy, xx));
        }
        if label_seen(lab, w, h, y, x, k) {
            let (yy, xx) = choose|yy: int, xx: int| scanned(w, h, y, x, yy, xx) && #[trigger] lab[yy][xx] == k;
            assert(scanned(w, h, y, x + 1, yy, xx));
        }
    }
    assert forall|m: int, yy: int, xx: int|
        #![trigger keys[m], lab[yy][xx]]
        0 <= m < keys.len() && scanned(w, h, y, x + 1, yy, xx) && lab[yy][xx] == keys[m] implies box_holds(
            boxes[m],
            yy,
            xx,
        ) by {
        assert(keys.contains(keys[m]));
    }
}

proof fn lemma_scan_row_end(
    lab: Seq<Seq<u32>>,
    w: int,
    h: int,
    y: int,
    keys: Seq<u32>,
    boxes: Seq<(u32, u32, u32, u32)>,
    wits: Seq<((int, int), (int, int), (int, int), (int, int))>,
)
    requires
        scan_state(lab, w, h, y, w, keys, boxes, wits),
    ensures
        scan_state(lab, w, h, y + 1, 0, keys, boxes, wits),
{
    assert forall|yy: int, xx: int| scanned(w, h, y, w, yy, xx) == scanned(w, h, y + 1, 0, yy, xx) by {}
    assert forall|k: u32| label_seen(lab, w, h, y, w, k) == label_seen(lab, w, h, y + 1, 0, k) by {
        if label_seen(lab, w, h, y, w, k) {
            let (yy, xx) = choose|yy: int, xx: int| scanned(w, h, y, w, yy, xx) && #[trigger] lab[yy][xx] == k;
            assert(scanned(w, h, y + 1, 0, yy, xx));
        }
        if label_seen(lab, w, h, y + 1, 0, k) {
            let (yy, xx) = choose|yy: int, xx: int| scanned(w, h, y + 1, 0, yy, xx) && #[trigger] lab[yy][xx] == k;
            assert(scanned(w, h, y, w, yy, xx));
        }
    }
}

/// Box `b` grown to hold pixel `(y, x)`.
spec fn grow_box(b: (u32, u32, u32, u32), y: u32, x: u32) -> (u32, u32, u32, u32) {
    (
        if x < b.0 { x } else { b.0 },
        if y < b.1 { y } else { b.1 },
        if x > b.2 { x } else { b.2 },
        if y > b.3 { y } else { b.3 },
    )
}

/// Witnesses of `grow_box(b, y, x)`.
spec fn grow_wit(
    b: (u32, u32, u32, u32),
    wit: ((int, int), (int, int), (int, int), (int, int)),
    y: u32,
    x: u32,
) -> ((int, int), (int, int), (int, int), (int, int)) {
    (
        if x < b.0 { (y as int, x as int) } else { wit.0 },
        if y < b.1 { (y as int, x as int) } else { wit.1 },
        if x > b.2 { (y as int, x as int) } else { wit.2 },
        if y > b.3 { (y as int, x as int) } else { wit.3 },
    )
}

proof fn lemma_scan_found(
    lab: Seq<Seq<u32>>,
    w: int,
    h: int,
    y: u32,
    x: u32,
    keys: Seq<u32>,
    boxes: Seq<(u32, u32, u32, u32)>,
    wits: Seq<((int, int), (int, int), (int, int), (int, int))>,
    pos: int,
)
    requires
        scan_state(lab, w, h, y as int, x as int, keys, boxes, wits),
        0 <= y < h,
        0 <= x < w,
        0 <= pos < keys.len(),
        keys[pos] == lab[y as int][x as int],
    ensures
        scan_state(
            lab,
            w,
            h,
            y as int,
            x + 1,
            keys,
            boxes.update(pos, grow_box(boxes[pos], y, x)),
            wits.update(pos, grow_wit(boxes[pos], wits[pos], y, x)),
        ),
{
    let l = lab[y as int][x as int];
    let nboxes = boxes.update(pos, grow_box(boxes[pos], y, x));
    let nwits = wits.update(pos, grow_wit(boxes[pos], wits[pos], y, x));
    assert forall|k: u32| keys.contains(k) <==> (k != 0 && label_seen(lab, w, h, y as int, x + 1, k)) by {
        if k != 0 && label_seen(lab, w, h, y as int, x + 1, k) {
            let (yy, xx) = choose|yy: int, xx: int|
                scanned(w, h, y as int, x + 1, yy, xx) && #[trigger] lab[yy][xx] == k;
            if yy == y && xx == x {
                assert(keys.contains(keys[pos]));
            } else {
                assert(scanned(w, h, y as int, x as int, yy, xx));
            }
        }
        if label_seen(lab, w, h, y as int, x as int, k) {
            let (yy, xx) = choose|yy: int, xx: int|
                scanned(w, h, y as int, x as int, yy, xx) && #[trigger] lab[yy][xx] == k;
            assert(scanned(w, h, y as int, x + 1, yy, xx));
        }
    }
    assert forall|m: int, yy: int, xx: int|
        #![trigger keys[m], lab[yy][xx]]
        0 <= m < keys.len() && scanned(w, h, y as int, x + 1, yy, xx) && lab[yy][xx] == keys[m] implies box_holds(
            nboxes[m],
            yy,
            xx,
        ) by {
        if yy == y && xx == x {
            if m != pos {
                assert(keys[m] != keys[pos]) by {
                    if m < pos {
                        assert(keys[m] < keys[pos]);
                    } else {
                        assert(keys[pos] < keys[m]);
                    }
                }
            }
        } else {
            assert(scanned(w, h, y as int, x as int, yy, xx));
        }
    }
    assert forall|m: int|
        0 <= m < keys.len() implies box_attained(
        lab,
        w,
        h,
        y as int,
        x + 1,
        keys[m],
        nboxes[m],
        #[trigger] nwits[m],
    ) by {
        assert(box_attained(lab, w, h, y as int, x as int, keys[m], boxes[m], wits[m]));
    }
}

proof fn lemma_scan_insert(
    lab: Seq<Seq<u32>>,
    w: int,
    h: int,
    y: u32,
    x: u32,
    keys: Seq<u32>,
    boxes: Seq<(u32, u32, u32, u32)>,
    wits: Seq<((int, int), (int, int), (int, int), (int, int))>,
    pos: int,
)
    requires
        scan_state(lab, w, h, y as int, x as int, keys, boxes, wits),
        0 <= y < h,
        0 <= x < w,
        lab[y as int][x as int] != 0,
        0 <= pos <= keys.len(),
        !keys.contains(lab[y as int][x as int]),
        forall|m: int| 0 <= m < keys.len() ==> (#[trigger] keys[m] < lab[y as int][x as int] <==> m < pos),
    ensures
        scan_state(
            lab,
            w,
            h,
            y as int,
            x + 1,
            keys.insert(pos, lab[y as int][x as int]),
            boxes.insert(pos, (x, y, x, y)),
            wits.insert(
                pos,
                ((y as int, x as int), (y as int, x as int), (y as int, x as int), (y as int, x as int)),
            ),
        ),
{
    let l = lab[y as int][x as int];
    let nkeys = keys.insert(pos, l);
    let nboxes = boxes.insert(pos, (x, y, x, y));
    let p = (y as int, x as int);
    let nwits = wits.insert(pos, (p, p, p, p));
    assert(!label_seen(lab, w, h, y as int, x as int, l));
    assert forall|i: int, j: int|
        #![trigger nkeys[i], nkeys[j]]
        0 <= i < j < nkeys.len() implies nkeys[i] < nkeys[j] by {
        if j < pos {
            assert(keys[i] < keys[j]);
        } else if j == pos {
            assert(keys[i] < l);
        } else if i == pos {
            assert(!(keys[j - 1] < l));
            assert(keys[j - 1] != l) by {
                assert(keys.contains(keys[j - 1]));
            }
        } else if i < pos {
            assert(keys[i] < keys[j - 1]);
        } else {
            assert(keys[i - 1] < keys[j - 1]);
        }
    }
    assert forall|k: u32| nkeys.contains(k) <==> (k != 0 && label_seen(lab, w, h, y as int, x + 1, k)) by {
        if nkeys.contains(k) {
            let m = choose|m: int| 0 <= m < nkeys.len() && nkeys[m] == k;
            if m < pos {
                assert(keys.contains(keys[m]));
            } else if m > pos {
                assert(keys.contains(keys[m - 1]));
            } else {
                assert(scanned(w, h, y as int, x + 1, y as int, x as int));
                assert(lab[y as int][x as int] == k);
            }
            if k != l {
                let (yy, xx) = choose|yy: int, xx: int|
                    scanned(w, h, y as int, x as int, yy, xx) && #[trigger] lab[yy][xx] == k;
                assert(scanned(w, h, y as int, x + 1, yy, xx));
            }
        }
        if k != 0 && label_seen(lab, w, h, y as int, x + 1, k) {
            let (yy, xx) = choose|yy: int, xx: int|
                scanned(w, h, y as int, x + 1, yy, xx) && #[trigger] lab[yy][xx] == k;
            if yy == y && xx == x {
                assert(nkeys[pos] == k);
            } else {
                assert(scanned(w, h, y as int, x as int, yy, xx));
                assert(keys.contains(k));
                let m = choose|m: int| 0 <= m < keys.len() && keys[m] == k;
                if m < pos {
                    assert(nkeys[m] == k);
                } else {
                    assert(nkeys[m + 1] == k);
                }
            }
        }
    }
    assert forall|m: int, yy: int, xx: int|
        #![trigger nkeys[m], lab[yy][xx]]
        0 <= m < nkeys.len() && scanned(w, h, y as int, x + 1, yy, xx) && lab[yy][xx] == nkeys[m] implies box_holds(
            nboxes[m],
            yy,
            xx,
        ) by {
        if m == pos {
            if !(yy == y && xx == x) {
                assert(scanned(w, h, y as int, x as int, yy, xx));
            }
        } else if yy == y && xx == x {
            if m < pos {
                assert(keys.contains(keys[m]));
            } else {
                assert(keys.contains(keys[m - 1]));
            }
        } else {
            assert(scanned(w, h, y as int, x as int, yy, xx));
            if m < pos {
                assert(keys[m] == nkeys[m]);
            } else {
                assert(keys[m - 1] == nkeys[m]);
            }
        }
    }
    assert forall|m: int|
        0 <= m < nkeys.len() implies box_attained(
        lab,
        w,
        h,
        y as int,
        x + 1,
        nkeys[m],
        nboxes[m],
        #[trigger] nwits[m],
    ) by {
        if m < pos {
            assert(box_attained(lab, w, h, y as int, x as int, keys[m], boxes[m], wits[m]));
        } else if m > pos {
            assert(box_attained(lab, w, h, y as int, x as int, keys[m - 1], boxes[m - 1], wits[m - 1]));
        }
    }
}

proof fn lemma_component_box_unique(lab: Seq<Seq<u32>>, w: int, h: int, k: u32, a: BBox, b: BBox)
    requires
        is_component_box(lab, w, h, k, a),
        is_component_box(lab, w, h, k, b),
    ensures
        a == b,
{
    let (y0, x0) = choose|y: int, x: int| 0 <= y < h && 0 <= x < w && #[trigger] lab[y][x] == k && x == a.x1;
    let (y1, x1) = choose|y: int, x: int| 0 <= y < h && 0 <= x < w && #[trigger] lab[y][x] == k && x == b.x1;
    let (y2, x2) = choose|y: int, x: int| 0 <= y < h && 0 <= x < w && #[trigger] lab[y][x] == k && x + 1 == a.x2;
    let (y3, x3) = choose|y: int, x: int| 0 <= y < h && 0 <= x < w && #[trigger] lab[y][x] == k && x + 1 == b.x2;
    let (y4, x4) = choose|y: int, x: int| 0 <= y < h && 0 <= x < w && #[trigger] lab[y][x] == k && y == a.y1;
    let (y5, x5) = choose|y: int, x: int| 0 <= y < h && 0 <= x < w && #[trigger] lab[y][x] == k && y == b.y1;
    let (y6, x6) = choose|y: int, x: int| 0 <= y < h && 0 <= x < w && #[trigger] lab[y][x] == k && y + 1 == a.y2;
    let (y7, x7) = choose|y: int, x: int| 0 <= y < h && 0 <= x < w && #[trigger] lab[y][x] == k && y + 1 == b.y2;
    assert(lab[y0][x0] == k && lab[y1][x1] == k && lab[y2][x2] == k && lab[y3][x3] == k);
    assert(lab[y4][x4] == k && lab[y5][x5] == k && lab[y6][x6] == k && lab[y7][x7] == k);
}

/// Every key of `keys` has an entry in `m`.
spec fn keys_held(keys: Seq<u32>, m: Map<u32, (u32, u32, u32, u32)>) -> bool {
    forall|i: int| 0 <= i < keys.len() ==> m.contains_key(#[trigger] keys[i])
}

/// The entries of `m` for `keys`, in the order of `keys`.
spec fn boxes_by_key(keys: Seq<u32>, m: Map<u32, (u32, u32, u32, u32)>) -> Seq<(u32, u32, u32, u32)> {
    keys.map_values(|k: u32| m[k])
}

/// Overwriting the entry of the key at `pos` changes that position alone.
proof fn lemma_boxes_by_key_update(
    keys: Seq<u32>,
    m: Map<u32, (u32, u32, u32, u32)>,
    pos: int,
    b: (u32, u32, u32, u32),
)
    requires
        strictly_sorted(keys, |a: u32, b: u32| a < b),
        0 <= pos < keys.len(),
        keys_held(keys, m),
    ensures
        keys_held(keys, m.insert(keys[pos], b)),
        boxes_by_key(keys, m.insert(keys[pos], b)) == boxes_by_key(keys, m).update(pos, b),
{
    let m2 = m.insert(keys[pos], b);
    assert forall|i: int| 0 <= i < keys.len() && i != pos implies #[trigger] keys[i] != keys[pos] by {
        if i < pos {
            assert(keys[i] < keys[pos]);
        } else {
            assert(keys[pos] < keys[i]);
        }
    }
    assert(boxes_by_key(keys, m2) =~= boxes_by_key(keys, m).update(pos, b));
}

/// Adding a new key at `pos`, with its entry, adds that entry at `pos`.
proof fn lemma_boxes_by_key_insert(
    keys: Seq<u32>,
    m: Map<u32, (u32, u32, u32, u32)>,
    pos: int,
    k: u32,
    b: (u32, u32, u32, u32),
)
    requires
        0 <= pos <= keys.len(),
        !keys.contains(k),
        keys_held(keys, m),
    ensures
        keys_held(keys.insert(pos, k), m.insert(k, b)),
        boxes_by_key(keys.insert(pos, k), m.insert(k, b)) == boxes_by_key(keys, m).insert(pos, b),
{
    let keys2 = keys.insert(pos, k);
    let m2 = m.insert(k, b);
    assert forall|i: int| 0 <= i < keys.len() implies #[trigger] keys[i] != k by {
        assert(keys.contains(keys[i]));
    }
    assert forall|i: int| 0 <= i < keys2.len() implies m2.contains_key(#[trigger] keys2[i]) by {
        if i < pos {
            assert(keys2[i] == keys[i]);
        } else if i > pos {
            assert(keys2[i] == keys[i - 1]);
        }
    }
    assert forall|i: int| 0 <= i < keys2.len() implies #[trigger] boxes_by_key(keys2, m2)[i]
        == boxes_by_key(keys, m).insert(pos, b)[i] by {
        if i < pos {
            assert(keys2[i] == keys[i]);
        } else if i > pos {
            assert(keys2[i] == keys[i - 1]);
        }
    }
    assert(boxes_by_key(keys2, m2) =~= boxes_by_key(keys, m).insert(pos, b));
}

/// Bounding boxes of the labelled components of `labels`, one per non-zero
/// label, in increasing label order. Right and bottom edges are exclusive.
pub fn component_bboxes(labels: &LabelImage) -> (boxes: Vec<BBox>)
    requires
        labels.wf(),
    ensures
        boxes@ == component_boxes(labels@, labels.width as int, labels.height as int),
        label_order(labels@, labels.width as int, labels.height as int, component_keys(labels@, labels.width as int, labels.height as int)),
        forall|i: int|
            0 <= i < boxes.len() ==> is_component_box(
                labels@,
                labels.width as int,
                labels.height as int,
                component_keys(labels@, labels.width as int, labels.height as int)[i],
                #[trigger] boxes@[i],
            ),
        forall|i: int|
            0 <= i < boxes.len() ==> (#[trigger] boxes@[i]).x1 < boxes@[i].x2 <= labels.width
                && boxes@[i].y1 < boxes@[i].y2 <= labels.height,
{
    broadcast use vstd::std_specs::hash::group_hash_axioms;

    let ghost lab = labels@;
    let ghost w = labels.width as int;
    let ghost h = labels.height as int;
    let mut keys: Vec<u32> = Vec::new();
    let mut by_label: HashMap<u32, (u32, u32, u32, u32)> = HashMap::new();
    let ghost mut wits: Seq<((int, int), (int, int), (int, int), (int, int))> = seq![];
    assert(keys@ =~= seq![]);
    assert forall|k: u32| !label_seen(lab, w, h, 0, 0, k) by {}
    let mut y: u32 = 0;
    while y < labels.height
        invariant
            labels.wf(),
            lab == labels@,
            w == labels.width,
            h == labels.height,
            0 <= y <= labels.height,
            keys_held(keys@, by_label@),
            scan_state(lab, w, h, y as int, 0, keys@, boxes_by_key(keys@, by_label@), wits),
        decreases labels.height - y,
    {
        assert(lab[y as int] == labels.rows@[y as int]@);
        assert(lab[y as int].len() == w);
        let mut x: u32 = 0;
        while x < labels.width
            invariant
                labels.wf(),
                lab == labels@,
                w == labels.width,
                h == labels.height,
                0 <= y < labels.height,
                0 <= x <= labels.width,
                lab[y as int] == labels.rows@[y as int]@,
                lab[y as int].len() == w,
                keys_held(keys@, by_label@),
                scan_state(lab, w, h, y as int, x as int, keys@, boxes_by_key(keys@, by_label@), wits),
            decreases labels.width - x,
        {
            let label = labels.rows[y as usize][x as usize];
            if label != 0 {
                let (found, pos) = search_keys(&keys, label);
                let ghost ext = boxes_by_key(keys@, by_label@);
                if found {
                    let b = *by_label.get(&label).unwrap();
                    let nb = (
                        if x < b.0 { x } else { b.0 },
                        if y < b.1 { y } else { b.1 },
                        if x > b.2 { x } else { b.2 },
                        if y > b.3 { y } else { b.3 },
                    );
                    proof {
                        lemma_scan_found(lab, w, h, y, x, keys@, ext, wits, pos as int);
                        wits = wits.update(pos as int, grow_wit(b, wits[pos as int], y, x));
                    }
                    assert(nb == grow_box(b, y, x));
                    let ghost old_map = by_label@;
                    by_label.insert(label, nb);
                    proof {
                        lemma_boxes_by_key_update(keys@, old_map, pos as int, nb);
                    }
                } else {
                    proof {
                        lemma_scan_insert(lab, w, h, y, x, keys@, ext, wits, pos as int);
                        let p = (y as int, x as int);
                        wits = wits.insert(pos as int, (p, p, p, p));
                    }
                    let ghost old_keys = keys@;
                    let ghost old_map = by_label@;
                    keys.insert(pos, label);
                    by_label.insert(label, (x, y, x, y));
                    proof {
                        lemma_boxes_by_key_insert(old_keys, old_map, pos as int, label, (x, y, x, y));
                    }
                }
            } else {
                proof {
                    lemma_scan_step(lab, w, h, y as int, x as int, keys@, boxes_by_key(keys@, by_label@), wits);
                }
            }
            x += 1;
        }
        proof {
            lemma_scan_row_end(lab, w, h, y as int, keys@, boxes_by_key(keys@, by_label@), wits);
        }
        y += 1;
    }
    let ghost extents = boxes_by_key(keys@, by_label@);
    let mut boxes: Vec<BBox> = Vec::new();
    let mut m: usize = 0;
    while m < keys.len()
        invariant
            0 <= m <= keys.len(),
            extents.len() == keys.len(),
            extents == boxes_by_key(keys@, by_label@),
            keys_held(keys@, by_label@),
            boxes.len() == m,
            scan_state(lab, w, h, h, 0, keys@, extents, wits),
            w <= u32::MAX,
            h <= u32::MAX,
            forall|i: int|
                0 <= i < m ==> #[trigger] boxes@[i] == (BBox {
                    x1: extents[i].0,
                    y1: extents[i].1,
                    x2: (extents[i].2 + 1) as u32,
                    y2: (extents[i].3 + 1) as u32,
                }),
        decreases keys.len() - m,
    {
        let b = *by_label.get(&keys[m]).unwrap();
        assert(box_attained(lab, w, h, h, 0, keys@[m as int], extents[m as int], wits[m as int]));
        boxes.push(BBox::new(b.0, b.1, b.2 + 1, b.3 + 1));
        m += 1;
    }
    proof {
        assert forall|k: u32| label_seen(lab, w, h, h, 0, k) == label_present(lab, w, h, k) by {}
        assert(label_order(lab, w, h, keys@));
        let keys0 = choose|keys: Seq<u32>| label_order(lab, w, h, keys);
        assert(label_order(lab, w, h, keys0));
        let ltu = |a: u32, b: u32| a < b;
        assert forall|a: u32, b: u32| #[trigger] ltu(a, b) implies !ltu(b, a) by {}
        lemma_sorted_unique(keys@, keys0, ltu);
        let want = keys0.map_values(|k: u32| component_box(lab, w, h, k));
        assert forall|i: int| 0 <= i < boxes.len() implies boxes@[i] == want[i] && is_component_box(
            lab,
            w,
            h,
            keys0[i],
            boxes@[i],
        ) by {
            let k = keys@[i];
            let b = boxes@[i];
            let e = extents[i];
            let wt = wits[i];
            assert(box_attained(lab, w, h, h, 0, k, e, wt));
            assert forall|yy: int, xx: int|
                0 <= yy < h && 0 <= xx < w && #[trigger] lab[yy][xx] == k implies b.x1 <= xx < b.x2
                && b.y1 <= yy < b.y2 by {
                assert(scanned(w, h, h, 0, yy, xx));
                assert(box_holds(e, yy, xx));
            }
            assert(lab[wt.0.0][wt.0.1] == k);
            assert(lab[wt.1.0][wt.1.1] == k);
            assert(lab[wt.2.0][wt.2.1] == k);
            assert(lab[wt.3.0][wt.3.1] == k);
            assert(is_component_box(lab, w, h, k, b));
            lemma_component_box_unique(lab, w, h, k, b, component_box(lab, w, h, k));
        }
        assert(boxes@ =~= want);
        assert forall|i: int| 0 <= i < boxes.len() implies (#[trigger] boxes@[i]).x1 < boxes@[i].x2
            <= labels.width && boxes@[i].y1 < boxes@[i].y2 <= labels.height by {
            assert(box_attained(lab, w, h, h, 0, keys@[i], extents[i], wits[i]));
            assert(box_holds(extents[i], wits[i].0.0, wits[i].0.1));
            assert(box_holds(extents[i], wits[i].1.0, wits[i].1.1));
        }
    }
    boxes
}

} // verus!
