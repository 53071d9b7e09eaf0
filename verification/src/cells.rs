//! The cell grid of a table: grid positions whose separating border is
//! missing merge into one cell, found with a disjoint-set forest.
use vstd::prelude::*;

use crate::lines::{
    h_line_present_spec, line_present_horizontal, line_present_vertical, v_line_present_spec,
};
use crate::ordering::{lemma_sorted_unique, strictly_sorted};
use crate::raster::GrayImage;
use crate::types::{covered, BBox, Cell};
use crate::unionfind::{merge_roots, UnionFind};
use std::collections::{HashMap, HashSet};

verus! {

/// Grid positions `n_rows` by `n_cols`; `right[r][c]` joins `(r, c)` with
/// `(r, c + 1)` and `down[r][c]` joins `(r, c)` with `(r + 1, c)`.
pub struct MergeGrid {
    pub n_rows: int,
    pub n_cols: int,
    pub right: Seq<Seq<bool>>,
    pub down: Seq<Seq<bool>>,
}

/// Index of grid position `(r, c)` in row-major order.
pub open spec fn cell_id(n_cols: int, r: int, c: int) -> int {
    r * n_cols + c
}

impl MergeGrid {
    /// Number of grid positions.
    pub open spec fn size(self) -> int {
        self.n_rows * self.n_cols
    }

    /// `lab` gives joined grid positions the same value.
    pub open spec fn consistent(self, lab: spec_fn(int) -> int) -> bool {
        &&& forall|r: int, c: int|
            0 <= r < self.n_rows && 0 <= c && c + 1 < self.n_cols && #[trigger] self.right[r][c]
                ==> lab(cell_id(self.n_cols, r, c)) == lab(cell_id(self.n_cols, r, c + 1))
        &&& forall|r: int, c: int|
            0 <= r && r + 1 < self.n_rows && 0 <= c < self.n_cols && #[trigger] self.down[r][c]
                ==> lab(cell_id(self.n_cols, r, c)) == lab(cell_id(self.n_cols, r + 1, c))
    }

    /// Positions `i` and `j` are linked by a chain of joins: every labelling
    /// that respects the joins gives them the same value.
    pub open spec fn connected(self, i: int, j: int) -> bool {
        forall|lab: spec_fn(int) -> int| #[trigger] self.consistent(lab) ==> lab(i) == lab(j)
    }

    /// `e` = (first row, first column, last row, last column) of the group of
    /// position `i`: every member lies within them and each is attained.
    pub open spec fn extents(self, i: int, e: (int, int, int, int)) -> bool {
        &&& forall|j: int|
            0 <= j < self.size() && #[trigger] self.connected(i, j) ==> e.0 <= j / self.n_cols <= e.2
                && e.1 <= j % self.n_cols <= e.3
        &&& exists|j: int|
            0 <= j < self.size() && #[trigger] self.connected(i, j) && j / self.n_cols == e.0
        &&& exists|j: int|
            0 <= j < self.size() && #[trigger] self.connected(i, j) && j % self.n_cols == e.1
        &&& exists|j: int|
            0 <= j < self.size() && #[trigger] self.connected(i, j) && j / self.n_cols == e.2
        &&& exists|j: int|
            0 <= j < self.size() && #[trigger] self.connected(i, j) && j % self.n_cols == e.3
    }

    /// The extents of the group of position `i`.
    pub open spec fn group_box(self, i: int) -> (int, int, int, int) {
        choose|e: (int, int, int, int)| self.extents(i, e)
    }

    /// Position `i` comes first in row-major order among its group.
    pub open spec fn is_first(self, i: int) -> bool {
        &&& 0 <= i < self.size()
        &&& forall|j: int| 0 <= j < i ==> !#[trigger] self.connected(i, j)
    }

    /// The cell of the group first met at `a` sorts before that of `b`: by
    /// top row, then left column, then where the group is first met.
    pub open spec fn before(self, a: int, b: int) -> bool {
        let ea = self.group_box(a);
        let eb = self.group_box(b);
        key_before(ea.0, ea.1, a, eb.0, eb.1, b)
    }

    /// `reps` lists the first position of every group, once each, in cell order.
    pub open spec fn cell_order(self, reps: Seq<int>) -> bool {
        &&& strictly_sorted(reps, |a: int, b: int| self.before(a, b))
        &&& forall|x: int| reps.contains(x) <==> self.is_first(x)
    }
}

/// Lexicographic order of (row, column, position).
pub open spec fn key_before(r1: int, c1: int, a: int, r2: int, c2: int, b: int) -> bool {
    r1 < r2 || (r1 == r2 && (c1 < c2 || (c1 == c2 && a < b)))
}

/// The cell of the group of position `i`, between the given row and column
/// lines.
pub open spec fn group_cell(g: MergeGrid, rows: Seq<u32>, cols: Seq<u32>, i: int) -> Cell {
    let e = g.group_box(i);
    Cell {
        row: e.0 as u32,
        col: e.1 as u32,
        row_span: (e.2 - e.0 + 1) as u32,
        col_span: (e.3 - e.1 + 1) as u32,
        bbox: BBox { x1: cols[e.1], y1: rows[e.0], x2: cols[e.3 + 1], y2: rows[e.2 + 1] },
    }
}

/// One cell per group of the merge grid, sorted by top row, then left
/// column, then by where the group is first met in row-major order.
pub open spec fn grid_cells(g: MergeGrid, rows: Seq<u32>, cols: Seq<u32>) -> Seq<Cell> {
    let reps = choose|reps: Seq<int>| g.cell_order(reps);
    reps.map_values(|i: int| group_cell(g, rows, cols, i))
}

/// Grid positions joined across a missing vertical border.
pub open spec fn gaps_right(
    rows: Seq<u32>,
    cols: Seq<u32>,
    v: Seq<Seq<u8>>,
    vw: u32,
    vh: u32,
    min_counts: Seq<u32>,
) -> Seq<Seq<bool>> {
    Seq::new(
        (rows.len() - 1) as nat,
        |r: int|
            Seq::new(
                (cols.len() - 1) as nat,
                |c: int|
                    c + 2 < cols.len() && !v_line_present_spec(
                        v,
                        vw,
                        vh,
                        cols[c + 1],
                        rows[r],
                        rows[r + 1],
                        min_counts,
                    ),
            ),
    )
}

/// Grid positions joined across a missing horizontal border.
pub open spec fn gaps_down(
    rows: Seq<u32>,
    cols: Seq<u32>,
    h: Seq<Seq<u8>>,
    hw: u32,
    hh: u32,
    min_counts: Seq<u32>,
) -> Seq<Seq<bool>> {
    Seq::new(
        (rows.len() - 1) as nat,
        |r: int|
            Seq::new(
                (cols.len() - 1) as nat,
                |c: int|
                    r + 2 < rows.len() && !h_line_present_spec(
                        h,
                        hw,
                        hh,
                        rows[r + 1],
                        cols[c],
                        cols[c + 1],
                        min_counts,
                    ),
            ),
    )
}

/// The merge graph of the grid between the given row and column lines.
pub open spec fn merge_grid(
    rows: Seq<u32>,
    cols: Seq<u32>,
    h: Seq<Seq<u8>>,
    hw: u32,
    hh: u32,
    v: Seq<Seq<u8>>,
    vw: u32,
    vh: u32,
    min_counts: Seq<u32>,
) -> MergeGrid {
    MergeGrid {
        n_rows: rows.len() - 1,
        n_cols: cols.len() - 1,
        right: gaps_right(rows, cols, v, vw, vh, min_counts),
        down: gaps_down(rows, cols, h, hw, hh, min_counts),
    }
}

/// Every element's value under a respecting labelling equals its root's.
pub open spec fn roots_sound(g: MergeGrid, roots: Seq<int>) -> bool {
    forall|lab: spec_fn(int) -> int|
        #[trigger] g.consistent(lab) ==> forall|i: int| 0 <= i < g.size() ==> lab(i) == lab(roots[i])
}

proof fn lemma_cell_id_bounds(n_rows: int, n_cols: int, r: int, c: int)
    requires
        0 <= r < n_rows,
        0 <= c < n_cols,
    ensures
        0 <= cell_id(n_cols, r, c) < n_rows * n_cols,
        cell_id(n_cols, r, c) + 1 == cell_id(n_cols, r, c + 1),
        cell_id(n_cols, r, c) + n_cols == cell_id(n_cols, r + 1, c),
        cell_id(n_cols, r, c) / n_cols == r,
        cell_id(n_cols, r, c) % n_cols == c,
{
    assert(0 <= r * n_cols + c < n_rows * n_cols) by (nonlinear_arith)
        requires
            0 <= r < n_rows,
            0 <= c < n_cols,
    ;
    assert((r + 1) * n_cols == r * n_cols + n_cols) by (nonlinear_arith);
    vstd::arithmetic::div_mod::lemma_fundamental_div_mod_converse(r * n_cols + c, n_cols, r, c);
}

proof fn lemma_cell_ids(n_rows: int, n_cols: int)
    ensures
        forall|r: int, c: int|
            0 <= r < n_rows && 0 <= c < n_cols ==> 0 <= #[trigger] cell_id(n_cols, r, c) < n_rows
                * n_cols,
{
    assert forall|r: int, c: int| 0 <= r < n_rows && 0 <= c < n_cols implies 0 <= #[trigger] cell_id(
        n_cols,
        r,
        c,
    ) < n_rows * n_cols by {
        lemma_cell_id_bounds(n_rows, n_cols, r, c);
    }
}

/// Merging the classes of two joined positions keeps the roots sound.
proof fn lemma_union_sound(g: MergeGrid, roots: Seq<int>, a: int, b: int)
    requires
        roots_sound(g, roots),
        0 <= a < g.size(),
        0 <= b < g.size(),
        roots.len() == g.size(),
        forall|i: int| 0 <= i < g.size() ==> 0 <= #[trigger] roots[i] < g.size(),
        forall|lab: spec_fn(int) -> int| #[trigger] g.consistent(lab) ==> lab(a) == lab(b),
    ensures
        roots_sound(g, merge_roots(roots, roots[a], roots[b])),
{
    let merged = merge_roots(roots, roots[a], roots[b]);
    assert forall|lab: spec_fn(int) -> int| #[trigger] g.consistent(lab) implies forall|i: int|
        0 <= i < g.size() ==> lab(i) == lab(merged[i]) by {
        assert forall|i: int| 0 <= i < g.size() implies lab(i) == lab(merged[i]) by {
            assert(lab(i) == lab(roots[i]));
            assert(lab(a) == lab(roots[a]));
            assert(lab(b) == lab(roots[b]));
        }
    }
}

/// Union the positions on both sides of every missing border. Afterwards
/// two positions share a root exactly when they are connected.
fn merge_cells(
    row_ys: &Vec<u32>,
    col_xs: &Vec<u32>,
    h_mask: &GrayImage,
    v_mask: &GrayImage,
    min_counts: &Vec<u32>,
) -> (uf: UnionFind)
    requires
        row_ys.len() >= 1,
        col_xs.len() >= 1,
        h_mask.wf(),
        v_mask.wf(),
        (row_ys.len() - 1) * (col_xs.len() - 1) <= usize::MAX,
        forall|k: int| 0 <= k < row_ys.len() ==> #[trigger] row_ys@[k] < min_counts.len(),
        forall|k: int| 0 <= k < col_xs.len() ==> #[trigger] col_xs@[k] < min_counts.len(),
    ensures
        ({
            let g = merge_grid(
                row_ys@,
                col_xs@,
                h_mask@,
                h_mask.width,
                h_mask.height,
                v_mask@,
                v_mask.width,
                v_mask.height,
                min_counts@,
            );
            &&& uf.inv()
            &&& uf.size() == g.size()
            &&& forall|i: int, j: int|
                0 <= i < g.size() && 0 <= j < g.size() ==> (uf.roots()[i] == uf.roots()[j]
                    <==> #[trigger] g.connected(i, j))
        }),
{
    let ghost g = merge_grid(
        row_ys@,
        col_xs@,
        h_mask@,
        h_mask.width,
        h_mask.height,
        v_mask@,
        v_mask.width,
        v_mask.height,
        min_counts@,
    );
    let n_rows = row_ys.len() - 1;
    let n_cols = col_xs.len() - 1;
    let n = n_rows * n_cols;
    let mut uf = UnionFind::new(n);
    proof {
        assert forall|lab: spec_fn(int) -> int| #[trigger] g.consistent(lab) implies forall|i: int|
            0 <= i < g.size() ==> lab(i) == lab(uf.roots()[i]) by {}
    }
    let mut r: usize = 0;
    while r < n_rows
        invariant
            g == merge_grid(
                row_ys@,
                col_xs@,
                h_mask@,
                h_mask.width,
                h_mask.height,
                v_mask@,
                v_mask.width,
                v_mask.height,
                min_counts@,
            ),
            row_ys.len() >= 1,
            col_xs.len() >= 1,
            h_mask.wf(),
            v_mask.wf(),
            n_rows == row_ys.len() - 1,
            n_cols == col_xs.len() - 1,
            n == n_rows * n_cols,
            forall|k: int| 0 <= k < row_ys.len() ==> #[trigger] row_ys@[k] < min_counts.len(),
            forall|k: int| 0 <= k < col_xs.len() ==> #[trigger] col_xs@[k] < min_counts.len(),
            0 <= r <= n_rows,
            uf.inv(),
            uf.size() == n,
            roots_sound(g, uf.roots()),
            forall|r2: int, c2: int|
                0 <= r2 < r && 0 <= c2 && c2 + 1 < n_cols && #[trigger] g.right[r2][c2]
                    ==> uf.roots()[cell_id(n_cols as int, r2, c2)] == uf.roots()[cell_id(
                    n_cols as int,
                    r2,
                    c2 + 1,
                )],
        decreases n_rows - r,
    {
        let mut c: usize = 0;
        while c < n_cols.saturating_sub(1)
            invariant
                g == merge_grid(
                    row_ys@,
                    col_xs@,
                    h_mask@,
                    h_mask.width,
                    h_mask.height,
                    v_mask@,
                    v_mask.width,
                    v_mask.height,
                    min_counts@,
                ),
                row_ys.len() >= 1,
                col_xs.len() >= 1,
                h_mask.wf(),
                v_mask.wf(),
                n_rows == row_ys.len() - 1,
                n_cols == col_xs.len() - 1,
                n == n_rows * n_cols,
                forall|k: int| 0 <= k < row_ys.len() ==> #[trigger] row_ys@[k] < min_counts.len(),
                forall|k: int| 0 <= k < col_xs.len() ==> #[trigger] col_xs@[k] < min_counts.len(),
                0 <= r < n_rows,
                0 <= c,
                c + 1 <= n_cols || c == 0,
                uf.inv(),
                uf.size() == n,
                roots_sound(g, uf.roots()),
                forall|r2: int, c2: int|
                    0 <= r2 && (r2 < r || (r2 == r && c2 < c)) && 0 <= c2 && c2 + 1 < n_cols
                        && #[trigger] g.right[r2][c2] ==> uf.roots()[cell_id(n_cols as int, r2, c2)]
                        == uf.roots()[cell_id(n_cols as int, r2, c2 + 1)],
            decreases n_cols - c,
        {
            proof {
                lemma_cell_id_bounds(n_rows as int, n_cols as int, r as int, c as int);
                lemma_cell_id_bounds(n_rows as int, n_cols as int, r as int, c + 1);
                lemma_cell_ids(n_rows as int, n_cols as int);
            }
            let border_x = col_xs[c + 1];
            let y1 = row_ys[r];
            let y2 = row_ys[r + 1];
            let present = line_present_vertical(v_mask, border_x, y1, y2, min_counts);
            let a = r * n_cols + c;
            if !present {
                assert(g.right[r as int][c as int]);
                proof {
                    uf.lemma_roots();
                    lemma_union_sound(g, uf.roots(), a as int, a + 1);
                }
                uf.union(a, a + 1);
            }
            c += 1;
        }
        r += 1;
    }
    let mut r: usize = 0;
    while r < n_rows.saturating_sub(1)
        invariant
            g == merge_grid(
                row_ys@,
                col_xs@,
                h_mask@,
                h_mask.width,
                h_mask.height,
                v_mask@,
                v_mask.width,
                v_mask.height,
                min_counts@,
            ),
            row_ys.len() >= 1,
            col_xs.len() >= 1,
            h_mask.wf(),
            v_mask.wf(),
            n_rows == row_ys.len() - 1,
            n_cols == col_xs.len() - 1,
            n == n_rows * n_cols,
            forall|k: int| 0 <= k < row_ys.len() ==> #[trigger] row_ys@[k] < min_counts.len(),
            forall|k: int| 0 <= k < col_xs.len() ==> #[trigger] col_xs@[k] < min_counts.len(),
            0 <= r,
            r + 1 <= n_rows || r == 0,
            uf.inv(),
            uf.size() == n,
            roots_sound(g, uf.roots()),
            forall|r2: int, c2: int|
                0 <= r2 < n_rows && 0 <= c2 && c2 + 1 < n_cols && #[trigger] g.right[r2][c2]
                    ==> uf.roots()[cell_id(n_cols as int, r2, c2)] == uf.roots()[cell_id(
                    n_cols as int,
                    r2,
                    c2 + 1,
                )],
            forall|r2: int, c2: int|
                0 <= r2 < r && r2 + 1 < n_rows && 0 <= c2 < n_cols && #[trigger] g.down[r2][c2]
                    ==> uf.roots()[cell_id(n_cols as int, r2, c2)] == uf.roots()[cell_id(
                    n_cols as int,
                    r2 + 1,
                    c2,
                )],
        decreases n_rows - r,
    {
        let mut c: usize = 0;
        while c < n_cols
            invariant
                g == merge_grid(
                    row_ys@,
                    col_xs@,
                    h_mask@,
                    h_mask.width,
                    h_mask.height,
                    v_mask@,
                    v_mask.width,
                    v_mask.height,
                    min_counts@,
                ),
                row_ys.len() >= 1,
                col_xs.len() >= 1,
                h_mask.wf(),
                v_mask.wf(),
                n_rows == row_ys.len() - 1,
                n_cols == col_xs.len() - 1,
                n == n_rows * n_cols,
                forall|k: int| 0 <= k < row_ys.len() ==> #[trigger] row_ys@[k] < min_counts.len(),
                forall|k: int| 0 <= k < col_xs.len() ==> #[trigger] col_xs@[k] < min_counts.len(),
                0 <= r,
                r + 1 < n_rows,
                0 <= c <= n_cols,
                uf.inv(),
                uf.size() == n,
                roots_sound(g, uf.roots()),
                forall|r2: int, c2: int|
                    0 <= r2 < n_rows && 0 <= c2 && c2 + 1 < n_cols && #[trigger] g.right[r2][c2]
                        ==> uf.roots()[cell_id(n_cols as int, r2, c2)] == uf.roots()[cell_id(
                        n_cols as int,
                        r2,
                        c2 + 1,
                    )],
                forall|r2: int, c2: int|
                    0 <= r2 && (r2 < r || (r2 == r && c2 < c)) && r2 + 1 < n_rows && 0 <= c2
                        < n_cols && #[trigger] g.down[r2][c2] ==> uf.roots()[cell_id(
                        n_cols as int,
                        r2,
                        c2,
                    )] == uf.roots()[cell_id(n_cols as int, r2 + 1, c2)],
            decreases n_cols - c,
        {
            proof {
                lemma_cell_id_bounds(n_rows as int, n_cols as int, r as int, c as int);
                lemma_cell_id_bounds(n_rows as int, n_cols as int, r + 1, c as int);
                lemma_cell_ids(n_rows as int, n_cols as int);
            }
            let border_y = row_ys[r + 1];
            let x1 = col_xs[c];
            let x2 = col_xs[c + 1];
            let present = line_present_horizontal(h_mask, border_y, x1, x2, min_counts);
            let a = r * n_cols + c;
            if !present {
                assert(g.down[r as int][c as int]);
                proof {
                    uf.lemma_roots();
                    lemma_union_sound(g, uf.roots(), a as int, a + n_cols);
                }
                uf.union(a, a + n_cols);
            }
            c += 1;
        }
        r += 1;
    }
    proof {
        let roots = uf.roots();
        let lab0 = |i: int| roots[i];
        assert(g.consistent(lab0));
        assert forall|i: int, j: int|
            0 <= i < g.size() && 0 <= j < g.size() implies (roots[i] == roots[j]
                <==> #[trigger] g.connected(i, j)) by {
            if g.connected(i, j) {
                assert(lab0(i) == lab0(j));
            }
            if roots[i] == roots[j] {
                assert forall|lab: spec_fn(int) -> int| #[trigger] g.consistent(lab) implies lab(i)
                    == lab(j) by {
                    assert(lab(i) == lab(roots[i]));
                    assert(lab(j) == lab(roots[j]));
                }
            }
        }
    }
    uf
}

/// Row and column extents of every class of a partition, keyed by the
/// class's root, with the positions that attain each extent.
struct Extents {
    /// Top row, left column, bottom row and right column of each class met.
    by_root: HashMap<usize, (usize, usize, usize, usize)>,
    /// Positions attaining the four extents of each class, indexed by root.
    witness: Ghost<Seq<(int, int, int, int)>>,
}

impl Extents {
    /// The recorded extents of root `t`.
    spec fn entry(&self, t: int) -> (usize, usize, usize, usize) {
        self.by_root@[t as usize]
    }

    /// Top rows, indexed by root.
    spec fn min_r(&self) -> Seq<usize> {
        Seq::new(self.witness@.len(), |t: int| self.entry(t).0)
    }

    /// Left columns, indexed by root.
    spec fn min_c(&self) -> Seq<usize> {
        Seq::new(self.witness@.len(), |t: int| self.entry(t).1)
    }

    /// Bottom rows, indexed by root.
    spec fn max_r(&self) -> Seq<usize> {
        Seq::new(self.witness@.len(), |t: int| self.entry(t).2)
    }

    /// Right columns, indexed by root.
    spec fn max_c(&self) -> Seq<usize> {
        Seq::new(self.witness@.len(), |t: int| self.entry(t).3)
    }

    /// Position `j`, whose class has root `t`, lies within the extents of `t`.
    spec fn covers(&self, n_cols: int, t: int, j: int) -> bool {
        &&& self.entry(t).0 <= j / n_cols <= self.entry(t).2
        &&& self.entry(t).1 <= j % n_cols <= self.entry(t).3
    }

    /// The extents of root `t` are attained by members of its class among
    /// the first `k` positions.
    spec fn attained(&self, roots: Seq<int>, n_cols: int, k: int, t: int) -> bool {
        let w = self.witness@[t];
        &&& 0 <= w.0 < k && roots[w.0] == t && w.0 / n_cols == self.entry(t).0
        &&& 0 <= w.1 < k && roots[w.1] == t && w.1 % n_cols == self.entry(t).1
        &&& 0 <= w.2 < k && roots[w.2] == t && w.2 / n_cols == self.entry(t).2
        &&& 0 <= w.3 < k && roots[w.3] == t && w.3 % n_cols == self.entry(t).3
    }
}

/// Extents of the classes of the partition of an `n_rows` by `n_cols` grid.
fn group_extents(uf: &mut UnionFind, n_rows: usize, n_cols: usize) -> (ext: Extents)
    requires
        old(uf).inv(),
        old(uf).size() == n_rows * n_cols,
    ensures
        final(uf).inv(),
        final(uf).size() == old(uf).size(),
        final(uf).roots() == old(uf).roots(),
        ext.witness@.len() == old(uf).size(),
        forall|j: int|
            0 <= j < old(uf).size() ==> ext.by_root@.contains_key(#[trigger] old(uf).roots()[j] as usize),
        forall|j: int|
            0 <= j < old(uf).size() ==> ext.covers(n_cols as int, #[trigger] old(uf).roots()[j], j),
        forall|j: int|
            0 <= j < old(uf).size() ==> ext.attained(
                old(uf).roots(),
                n_cols as int,
                old(uf).size() as int,
                #[trigger] old(uf).roots()[j],
            ),
{
    broadcast use vstd::std_specs::hash::group_hash_axioms;

    proof {
        uf.lemma_roots();
    }
    let n = n_rows * n_cols;
    let ghost roots = uf.roots();
    let mut ext = Extents {
        by_root: HashMap::new(),
        witness: Ghost(Seq::new(n as nat, |i: int| (0int, 0int, 0int, 0int))),
    };
    let mut r: usize = 0;
    while r < n_rows
        invariant
            uf.inv(),
            uf.size() == n,
            n == n_rows * n_cols,
            uf.roots() == roots,
            roots.len() == n,
            forall|i: int| 0 <= i < n ==> 0 <= #[trigger] roots[i] < n,
            0 <= r <= n_rows,
            ext.witness@.len() == n,
            forall|j: int| 0 <= j < r * n_cols ==> ext.by_root@.contains_key(#[trigger] roots[j] as usize),
            forall|j: int| 0 <= j < r * n_cols ==> ext.covers(n_cols as int, #[trigger] roots[j], j),
            forall|t: usize|
                t < n && #[trigger] ext.by_root@.contains_key(t) ==> ext.attained(
                    roots,
                    n_cols as int,
                    r * n_cols,
                    t as int,
                ),
        decreases n_rows - r,
    {
        let mut c: usize = 0;
        while c < n_cols
            invariant
                uf.inv(),
                uf.size() == n,
                n == n_rows * n_cols,
                uf.roots() == roots,
                roots.len() == n,
                forall|i: int| 0 <= i < n ==> 0 <= #[trigger] roots[i] < n,
                0 <= r < n_rows,
                0 <= c <= n_cols,
                ext.witness@.len() == n,
                forall|j: int|
                    0 <= j < r * n_cols + c ==> ext.by_root@.contains_key(#[trigger] roots[j] as usize),
                forall|j: int|
                    0 <= j < r * n_cols + c ==> ext.covers(n_cols as int, #[trigger] roots[j], j),
                forall|t: usize|
                    t < n && #[trigger] ext.by_root@.contains_key(t) ==> ext.attained(
                        roots,
                        n_cols as int,
                        r * n_cols + c,
                        t as int,
                    ),
            decreases n_cols - c,
        {
            proof {
                lemma_cell_id_bounds(n_rows as int, n_cols as int, r as int, c as int);
            }
            let k = r * n_cols + c;
            let t = uf.find(k);
            let current: Option<(usize, usize, usize, usize)> = match ext.by_root.get(&t) {
                Some(e) => Some(*e),
                None => None,
            };
            match current {
                None => {
                    ext.by_root.insert(t, (r, c, r, c));
                    proof {
                        ext.witness@ = ext.witness@.update(t as int, (k as int, k as int, k as int, k as int));
                    }
                },
                Some(e) => {
                    let ghost w = ext.witness@[t as int];
                    let ghost mut nw = w;
                    let (mut top, mut left, mut bottom, mut right) = e;
                    if r < top {
                        top = r;
                        proof { nw.0 = k as int; }
                    }
                    if r > bottom {
                        bottom = r;
                        proof { nw.2 = k as int; }
                    }
                    if c < left {
                        left = c;
                        proof { nw.1 = k as int; }
                    }
                    if c > right {
                        right = c;
                        proof { nw.3 = k as int; }
                    }
                    ext.by_root.insert(t, (top, left, bottom, right));
                    proof {
                        ext.witness@ = ext.witness@.update(t as int, nw);
                    }
                },
            }
            assert(r * n_cols + c + 1 == r * n_cols + (c + 1));
            c += 1;
        }
        assert(r * n_cols + n_cols == (r + 1) * n_cols) by (nonlinear_arith);
        r += 1;
    }
    assert forall|j: int| 0 <= j < n implies ext.attained(
        roots,
        n_cols as int,
        n as int,
        #[trigger] roots[j],
    ) by {
        assert(ext.by_root@.contains_key(roots[j] as usize));
    }
    ext
}

/// The extents recorded for root `t`, as a tuple.
spec fn extent_tuple(mr: Seq<usize>, mc: Seq<usize>, xr: Seq<usize>, xc: Seq<usize>, t: int) -> (
    int,
    int,
    int,
    int,
) {
    (mr[t] as int, mc[t] as int, xr[t] as int, xc[t] as int)
}

/// The cell built for the class of position `x` from the recorded extents.
spec fn cell_from_extents(
    mr: Seq<usize>,
    mc: Seq<usize>,
    xr: Seq<usize>,
    xc: Seq<usize>,
    roots: Seq<int>,
    rows: Seq<u32>,
    cols: Seq<u32>,
    x: int,
) -> Cell {
    let t = roots[x];
    Cell {
        row: mr[t] as u32,
        col: mc[t] as u32,
        row_span: (xr[t] - mr[t] + 1) as u32,
        col_span: (xc[t] - mc[t] + 1) as u32,
        bbox: BBox {
            x1: cols[mc[t] as int],
            y1: rows[mr[t] as int],
            x2: cols[xc[t] + 1],
            y2: rows[xr[t] + 1],
        },
    }
}

/// Cell order over the recorded extents.
spec fn before_by_extents(mr: Seq<usize>, mc: Seq<usize>, roots: Seq<int>, a: int, b: int) -> bool {
    key_before(mr[roots[a]] as int, mc[roots[a]] as int, a, mr[roots[b]] as int, mc[roots[b]] as int, b)
}

/// No earlier position shares the root of `x`.
spec fn first_by_roots(roots: Seq<int>, x: int) -> bool {
    forall|j: int| 0 <= j < x ==> roots[j] != roots[x]
}

/// The recorded extents of the class of `i` are the extents of its group.
proof fn lemma_group_box(g: MergeGrid, roots: Seq<int>, ext: &Extents, i: int)
    requires
        g.n_cols > 0,
        0 <= i < g.size(),
        roots.len() == g.size(),
        forall|a: int, b: int|
            0 <= a < g.size() && 0 <= b < g.size() ==> (roots[a] == roots[b] <==> #[trigger] g.connected(
                a,
                b,
            )),
        forall|j: int| 0 <= j < g.size() ==> 0 <= #[trigger] roots[j] < g.size(),
        ext.witness@.len() == g.size(),
        forall|j: int| 0 <= j < g.size() ==> ext.covers(g.n_cols, #[trigger] roots[j], j),
        forall|j: int|
            0 <= j < g.size() ==> ext.attained(roots, g.n_cols, g.size(), #[trigger] roots[j]),
    ensures
        g.group_box(i) == extent_tuple(ext.min_r(), ext.min_c(), ext.max_r(), ext.max_c(), roots[i]),
{
    let t = roots[i];
    let e = extent_tuple(ext.min_r(), ext.min_c(), ext.max_r(), ext.max_c(), t);
    let w = ext.witness@[t];
    assert(e == (ext.entry(t).0 as int, ext.entry(t).1 as int, ext.entry(t).2 as int, ext.entry(t).3 as int));
    assert(ext.attained(roots, g.n_cols, g.size(), roots[i]));
    assert(g.connected(i, w.0));
    assert(g.connected(i, w.1));
    assert(g.connected(i, w.2));
    assert(g.connected(i, w.3));
    assert forall|j: int| 0 <= j < g.size() && #[trigger] g.connected(i, j) implies e.0 <= j / g.n_cols
        <= e.2 && e.1 <= j % g.n_cols <= e.3 by {
        assert(ext.covers(g.n_cols, roots[j], j));
    }
    assert(g.extents(i, e));
    let f = g.group_box(i);
    assert(g.extents(i, f));
    let j0 = choose|j: int| 0 <= j < g.size() && #[trigger] g.connected(i, j) && j / g.n_cols == f.0;
    let j1 = choose|j: int| 0 <= j < g.size() && #[trigger] g.connected(i, j) && j % g.n_cols == f.1;
    let j2 = choose|j: int| 0 <= j < g.size() && #[trigger] g.connected(i, j) && j / g.n_cols == f.2;
    let j3 = choose|j: int| 0 <= j < g.size() && #[trigger] g.connected(i, j) && j % g.n_cols == f.3;
    assert(e.0 <= j0 / g.n_cols);
    assert(f.0 <= w.0 / g.n_cols);
    assert(e.1 <= j1 % g.n_cols);
    assert(f.1 <= w.1 % g.n_cols);
    assert(j2 / g.n_cols <= e.2);
    assert(w.2 / g.n_cols <= f.2);
    assert(j3 % g.n_cols <= e.3);
    assert(w.3 % g.n_cols <= f.3);
}

/// Build the cells of the grid between the given row and column lines:
/// grid positions not separated by a drawn border merge, and each merged
/// group becomes one cell spanning its rows and columns. Cells come sorted by
/// top row, then left column (groups with the same corner keep the order in
/// which they are first met).
#[verifier::rlimit(40)]
#[verifier::spinoff_prover]
pub fn build_cells(
    row_ys: &Vec<u32>,
    col_xs: &Vec<u32>,
    h_mask: &GrayImage,
    v_mask: &GrayImage,
    min_counts: &Vec<u32>,
) -> (cells: Vec<Cell>)
    requires
        row_ys.len() >= 1,
        col_xs.len() >= 1,
        row_ys.len() <= u32::MAX,
        col_xs.len() <= u32::MAX,
        h_mask.wf(),
        v_mask.wf(),
        (row_ys.len() - 1) * (col_xs.len() - 1) <= usize::MAX,
        forall|k: int| 0 <= k < row_ys.len() ==> #[trigger] row_ys@[k] < min_counts.len(),
        forall|k: int| 0 <= k < col_xs.len() ==> #[trigger] col_xs@[k] < min_counts.len(),
    ensures
        cells@ == grid_cells(
            merge_grid(
                row_ys@,
                col_xs@,
                h_mask@,
                h_mask.width,
                h_mask.height,
                v_mask@,
                v_mask.width,
                v_mask.height,
                min_counts@,
            ),
            row_ys@,
            col_xs@,
        ),
        forall|m: int|
            0 <= m < cells.len() ==> {
                let c = #[trigger] cells@[m];
                &&& c.row_span >= 1
                &&& c.col_span >= 1
                &&& c.row + c.row_span < row_ys.len()
                &&& c.col + c.col_span < col_xs.len()
                &&& c.bbox == (BBox {
                    x1: col_xs@[c.col as int],
                    y1: row_ys@[c.row as int],
                    x2: col_xs@[c.col + c.col_span],
                    y2: row_ys@[c.row + c.row_span],
                })
            },
        forall|i: int, j: int|
            0 <= i < j < cells.len() ==> (#[trigger] cells@[i]).row < (#[trigger] cells@[j]).row || (
            cells@[i].row == cells@[j].row && cells@[i].col <= cells@[j].col),
        forall|r: int, c: int|
            0 <= r < row_ys.len() - 1 && 0 <= c < col_xs.len() - 1 ==> #[trigger] covered(cells@, r, c),
        forall|r: int, c: int|
            0 <= r < row_ys.len() - 1 && 0 <= c < col_xs.len() - 1 ==> cells@.contains(
                #[trigger] cell_at(
                    row_ys@,
                    col_xs@,
                    h_mask@,
                    h_mask.width,
                    h_mask.height,
                    v_mask@,
                    v_mask.width,
                    v_mask.height,
                    min_counts@,
                    r,
                    c,
                ),
            ),
{
    let ghost g = merge_grid(
        row_ys@,
        col_xs@,
        h_mask@,
        h_mask.width,
        h_mask.height,
        v_mask@,
        v_mask.width,
        v_mask.height,
        min_counts@,
    );
    let n_rows = row_ys.len() - 1;
    let n_cols = col_xs.len() - 1;
    let mut uf = merge_cells(row_ys, col_xs, h_mask, v_mask, min_counts);
    let ext = group_extents(&mut uf, n_rows, n_cols);
    let n = n_rows * n_cols;
    let ghost roots = uf.roots();
    let ghost mr = ext.min_r();
    let ghost mc = ext.min_c();
    let ghost xr = ext.max_r();
    let ghost xc = ext.max_c();
    let ghost lt = |a: int, b: int| before_by_extents(mr, mc, roots, a, b);
    proof {
        uf.lemma_roots();
    }
    broadcast use vstd::std_specs::hash::group_hash_axioms;

    let mut emitted: HashSet<usize> = HashSet::new();
    let mut cells: Vec<Cell> = Vec::new();
    let ghost mut reps: Seq<int> = seq![];
    let ghost mut rep_of: Seq<int> = Seq::new(n as nat, |t: int| 0int);
    let mut r: usize = 0;
    while r < n_rows
        invariant
            g.size() == n,
            n == n_rows * n_cols,
            n_rows == row_ys.len() - 1,
            n_cols == col_xs.len() - 1,
            row_ys.len() <= u32::MAX,
            col_xs.len() <= u32::MAX,
            uf.inv(),
            uf.size() == n,
            uf.roots() == roots,
            roots.len() == n,
            forall|i: int| 0 <= i < n ==> 0 <= #[trigger] roots[i] < n,
            mr == ext.min_r(),
            mc == ext.min_c(),
            xr == ext.max_r(),
            xc == ext.max_c(),
            ext.witness@.len() == n,
            forall|j: int| 0 <= j < n ==> ext.by_root@.contains_key(#[trigger] roots[j] as usize),
            forall|j: int| 0 <= j < n ==> ext.covers(n_cols as int, #[trigger] roots[j], j),
            forall|j: int| 0 <= j < n ==> ext.attained(roots, n_cols as int, n as int, #[trigger] roots[j]),
            lt == (|a: int, b: int| before_by_extents(mr, mc, roots, a, b)),
            g == merge_grid(
                row_ys@,
                col_xs@,
                h_mask@,
                h_mask.width,
                h_mask.height,
                v_mask@,
                v_mask.width,
                v_mask.height,
                min_counts@,
            ),
            forall|a: int, b: int|
                0 <= a < n && 0 <= b < n ==> (roots[a] == roots[b] <==> #[trigger] g.connected(a, b)),
            0 <= r <= n_rows,
            forall|j: int| 0 <= j < r * n_cols ==> #[trigger] emitted@.contains(roots[j] as usize),
            forall|t: int|
                0 <= t < n && #[trigger] emitted@.contains(t as usize) ==> exists|j: int|
                    0 <= j < r * n_cols && roots[j] == t,
            cells.len() == reps.len(),
            forall|m: int| 0 <= m < reps.len() ==> 0 <= #[trigger] reps[m] < r * n_cols,
            forall|m: int|
                0 <= m < reps.len() ==> cells@[m] == cell_from_extents(
                    mr,
                    mc,
                    xr,
                    xc,
                    roots,
                    row_ys@,
                    col_xs@,
                    #[trigger] reps[m],
                ),
            forall|x: int| reps.contains(x) <==> (0 <= x < r * n_cols && first_by_roots(roots, x)),
            strictly_sorted(reps, lt),
            rep_of.len() == n,
            forall|t: int|
                0 <= t < n && #[trigger] emitted@.contains(t as usize) ==> reps.contains(rep_of[t]) && roots[rep_of[t]]
                    == t,
        decreases n_rows - r,
    {
        let mut c: usize = 0;
        while c < n_cols
            invariant
                g.size() == n,
                n == n_rows * n_cols,
                n_rows == row_ys.len() - 1,
                n_cols == col_xs.len() - 1,
                row_ys.len() <= u32::MAX,
                col_xs.len() <= u32::MAX,
                uf.inv(),
                uf.size() == n,
                uf.roots() == roots,
                roots.len() == n,
                forall|i: int| 0 <= i < n ==> 0 <= #[trigger] roots[i] < n,
                mr == ext.min_r(),
                mc == ext.min_c(),
                xr == ext.max_r(),
                xc == ext.max_c(),
                ext.witness@.len() == n,
                forall|j: int| 0 <= j < n ==> ext.by_root@.contains_key(#[trigger] roots[j] as usize),
                forall|j: int| 0 <= j < n ==> ext.covers(n_cols as int, #[trigger] roots[j], j),
                forall|j: int|
                    0 <= j < n ==> ext.attained(roots, n_cols as int, n as int, #[trigger] roots[j]),
                lt == (|a: int, b: int| before_by_extents(mr, mc, roots, a, b)),
                g == merge_grid(
                    row_ys@,
                    col_xs@,
                    h_mask@,
                    h_mask.width,
                    h_mask.height,
                    v_mask@,
                    v_mask.width,
                    v_mask.height,
                    min_counts@,
                ),
                forall|a: int, b: int|
                    0 <= a < n && 0 <= b < n ==> (roots[a] == roots[b] <==> #[trigger] g.connected(a, b)),
                0 <= r < n_rows,
                0 <= c <= n_cols,
                    forall|j: int| 0 <= j < r * n_cols + c ==> #[trigger] emitted@.contains(roots[j] as usize),
                forall|t: int|
                    0 <= t < n && #[trigger] emitted@.contains(t as usize) ==> exists|j: int|
                        0 <= j < r * n_cols + c && roots[j] == t,
                cells.len() == reps.len(),
                forall|m: int| 0 <= m < reps.len() ==> 0 <= #[trigger] reps[m] < r * n_cols + c,
                forall|m: int|
                    0 <= m < reps.len() ==> cells@[m] == cell_from_extents(
                        mr,
                        mc,
                        xr,
                        xc,
                        roots,
                        row_ys@,
                        col_xs@,
                        #[trigger] reps[m],
                    ),
                forall|x: int|
                    reps.contains(x) <==> (0 <= x < r * n_cols + c && first_by_roots(roots, x)),
                strictly_sorted(reps, lt),
                rep_of.len() == n,
                forall|t: int|
                    0 <= t < n && #[trigger] emitted@.contains(t as usize) ==> reps.contains(rep_of[t])
                        && roots[rep_of[t]] == t,
            decreases n_cols - c,
        {
            proof {
                lemma_cell_id_bounds(n_rows as int, n_cols as int, r as int, c as int);
            }
            let k = r * n_cols + c;
            let t = uf.find(k);
            let ghost before = emitted@;
            let newly = emitted.insert(t);
            if newly {
                assert forall|j: int| 0 <= j < k implies roots[j] != roots[k as int] by {
                    assert(before.contains(roots[j] as usize));
                }
                let ghost wit = ext.witness@[t as int];
                assert(ext.attained(roots, n_cols as int, n as int, roots[k as int]));
                assert(ext.covers(n_cols as int, roots[k as int], k as int));
                proof {
                    vstd::arithmetic::mul::lemma_mul_is_commutative(n_rows as int, n_cols as int);
                    vstd::arithmetic::div_mod::lemma_multiply_divide_lt(wit.2, n_cols as int, n_rows as int);
                    vstd::arithmetic::div_mod::lemma_mod_bound(wit.3, n_cols as int);
                }
                let (min_r, min_c, max_r, max_c) = *ext.by_root.get(&t).unwrap();
                let cell = Cell {
                    row: min_r as u32,
                    col: min_c as u32,
                    row_span: (max_r - min_r + 1) as u32,
                    col_span: (max_c - min_c + 1) as u32,
                    bbox: BBox::new(col_xs[min_c], row_ys[min_r], col_xs[max_c + 1], row_ys[max_r + 1]),
                };
                assert(cell == cell_from_extents(mr, mc, xr, xc, roots, row_ys@, col_xs@, k as int));
                let mut p = cells.len();
                while p > 0 && (cells[p - 1].row > cell.row || (cells[p - 1].row == cell.row
                    && cells[p - 1].col > cell.col))
                    invariant
                        0 <= p <= cells.len(),
                        forall|m: int|
                            p <= m < cells.len() ==> ((#[trigger] cells@[m]).row > cell.row || (
                            cells@[m].row == cell.row && cells@[m].col > cell.col)),
                    decreases p,
                {
                    p -= 1;
                }
                let ghost old_reps = reps;
                let ghost old_cells = cells@;
                cells.insert(p, cell);
                proof {
                    reps = reps.insert(p as int, k as int);
                    rep_of = rep_of.update(t as int, k as int);
                    assert(reps[p as int] == k);
                    assert(first_by_roots(roots, k as int));
                    assert forall|m: int| 0 <= m < old_reps.len() implies (#[trigger] mr[roots[old_reps[m]]])
                        < n_rows && mc[roots[old_reps[m]]] < n_cols by {
                        let tt = roots[old_reps[m]];
                        assert(ext.attained(roots, n_cols as int, n as int, roots[old_reps[m]]));
                        let ww = ext.witness@[tt];
                        vstd::arithmetic::div_mod::lemma_multiply_divide_lt(ww.0, n_cols as int, n_rows as int);
                        vstd::arithmetic::div_mod::lemma_mod_bound(ww.1, n_cols as int);
                    }
                    assert(min_r < n_rows && min_c < n_cols);
                    assert forall|i: int, j: int|
                        #![trigger reps[i], reps[j]]
                        0 <= i < j < reps.len() implies lt(reps[i], reps[j]) by {
                        if j < p {
                            assert(lt(old_reps[i], old_reps[j]));
                        } else if j == p {
                            assert(old_cells[p - 1] == cell_from_extents(mr, mc, xr, xc, roots, row_ys@, col_xs@, old_reps[p - 1]));
                            if i < p - 1 {
                                assert(lt(old_reps[i], old_reps[p - 1]));
                            }
                        } else if i == p {
                            assert(old_cells[j - 1] == cell_from_extents(mr, mc, xr, xc, roots, row_ys@, col_xs@, old_reps[j - 1]));
                        } else if i < p {
                            assert(lt(old_reps[i], old_reps[j - 1]));
                        } else {
                            assert(lt(old_reps[i - 1], old_reps[j - 1]));
                        }
                    }
                    assert forall|tt: int|
                        0 <= tt < n && #[trigger] emitted@.contains(tt as usize) implies reps.contains(rep_of[tt])
                            && roots[rep_of[tt]] == tt by {
                        if tt != t {
                            let m = choose|m: int| 0 <= m < old_reps.len() && old_reps[m] == rep_of[tt];
                            if m < p {
                                assert(reps[m] == rep_of[tt]);
                            } else {
                                assert(reps[m + 1] == rep_of[tt]);
                            }
                        }
                    }
                    assert forall|x: int| reps.contains(x) <==> (0 <= x < k + 1 && first_by_roots(roots, x)) by {
                        if x == k {
                            assert(reps[p as int] == k);
                        }
                        if old_reps.contains(x) {
                            let m = choose|m: int| 0 <= m < old_reps.len() && old_reps[m] == x;
                            if m < p {
                                assert(reps[m] == x);
                            } else {
                                assert(reps[m + 1] == x);
                            }
                        }
                        if reps.contains(x) && x != k {
                            let m = choose|m: int| 0 <= m < reps.len() && reps[m] == x;
                            if m < p {
                                assert(old_reps[m] == x);
                            } else {
                                assert(old_reps[m - 1] == x);
                            }
                        }
                    }
                }
            } else {
                proof {
                    assert(before.contains((t as int) as usize));
                    let j = choose|j: int| 0 <= j < r * n_cols + c && roots[j] == t;
                    assert(!first_by_roots(roots, k as int));
                }
            }
            c += 1;
        }
        assert(r * n_cols + n_cols == (r + 1) * n_cols) by (nonlinear_arith);
        r += 1;
    }
    proof {
        let lt_g = |a: int, b: int| g.before(a, b);
        assert(r * n_cols == n);
        assert(n > 0 ==> n_cols > 0) by (nonlinear_arith)
            requires
                r * n_cols == n,
        ;
        if n_cols > 0 {
            assert forall|i: int| 0 <= i < n implies g.group_box(i) == #[trigger] extent_tuple(
                mr,
                mc,
                xr,
                xc,
                roots[i],
            ) by {
                lemma_group_box(g, roots, &ext, i);
            }
        }
        assert forall|x: int| reps.contains(x) <==> g.is_first(x) by {
            if 0 <= x < n {
                if first_by_roots(roots, x) {
                    assert forall|j: int| 0 <= j < x implies !#[trigger] g.connected(x, j) by {
                        assert(roots[j] != roots[x]);
                    }
                }
                if g.is_first(x) {
                    assert forall|j: int| 0 <= j < x implies roots[j] != roots[x] by {
                        assert(!g.connected(x, j));
                    }
                }
            }
        }
        assert forall|i: int, j: int|
            #![trigger reps[i], reps[j]]
            0 <= i < j < reps.len() implies lt_g(reps[i], reps[j]) by {
            assert(lt(reps[i], reps[j]));
            assert(g.group_box(reps[i]) == extent_tuple(mr, mc, xr, xc, roots[reps[i]]));
            assert(g.group_box(reps[j]) == extent_tuple(mr, mc, xr, xc, roots[reps[j]]));
        }
        assert(g.cell_order(reps));
        let reps0 = choose|reps: Seq<int>| g.cell_order(reps);
        assert(g.cell_order(reps0));
        assert forall|x: int, y: int| #[trigger] lt_g(x, y) implies !lt_g(y, x) by {}
        lemma_sorted_unique(reps, reps0, lt_g);
        let want = reps0.map_values(|i: int| group_cell(g, row_ys@, col_xs@, i));
        assert forall|m: int| 0 <= m < cells.len() implies cells@[m] == want[m] by {
            assert(g.group_box(reps[m]) == extent_tuple(mr, mc, xr, xc, roots[reps[m]]));
        }
        assert(cells@ =~= want);
        assert forall|m: int| 0 <= m < cells.len() implies {
            let c = #[trigger] cells@[m];
            &&& c.row_span >= 1
            &&& c.col_span >= 1
            &&& c.row + c.row_span < row_ys.len()
            &&& c.col + c.col_span < col_xs.len()
            &&& c.bbox == (BBox {
                x1: col_xs@[c.col as int],
                y1: row_ys@[c.row as int],
                x2: col_xs@[c.col + c.col_span],
                y2: row_ys@[c.row + c.row_span],
            })
        } by {
            let rep = reps[m];
            let t = roots[rep];
            assert(ext.covers(n_cols as int, roots[rep], rep));
            assert(ext.attained(roots, n_cols as int, n as int, roots[rep]));
            let ww = ext.witness@[t];
            vstd::arithmetic::mul::lemma_mul_is_commutative(n_rows as int, n_cols as int);
            vstd::arithmetic::div_mod::lemma_multiply_divide_lt(ww.2, n_cols as int, n_rows as int);
            vstd::arithmetic::div_mod::lemma_mod_bound(ww.3, n_cols as int);
        }
        assert forall|i: int, j: int|
            0 <= i < j < cells.len() implies (#[trigger] cells@[i]).row < (#[trigger] cells@[j]).row || (
            cells@[i].row == cells@[j].row && cells@[i].col <= cells@[j].col) by {
            assert(lt(reps[i], reps[j]));
            let ti = roots[reps[i]];
            let tj = roots[reps[j]];
            assert(ext.attained(roots, n_cols as int, n as int, roots[reps[i]]));
            assert(ext.attained(roots, n_cols as int, n as int, roots[reps[j]]));
            vstd::arithmetic::mul::lemma_mul_is_commutative(n_rows as int, n_cols as int);
            vstd::arithmetic::div_mod::lemma_multiply_divide_lt(ext.witness@[ti].0, n_cols as int, n_rows as int);
            vstd::arithmetic::div_mod::lemma_multiply_divide_lt(ext.witness@[tj].0, n_cols as int, n_rows as int);
            vstd::arithmetic::div_mod::lemma_mod_bound(ext.witness@[ti].1, n_cols as int);
            vstd::arithmetic::div_mod::lemma_mod_bound(ext.witness@[tj].1, n_cols as int);
        }
        assert forall|r: int, c: int|
            0 <= r < row_ys.len() - 1 && 0 <= c < col_xs.len() - 1 implies #[trigger] covered(
            cells@,
            r,
            c,
        ) by {
            lemma_cell_id_bounds(n_rows as int, n_cols as int, r, c);
            let p = cell_id(n_cols as int, r, c);
            let t = roots[p];
            assert(emitted@.contains(roots[p] as usize));
            let rep = rep_of[t];
            let m = choose|m: int| 0 <= m < reps.len() && reps[m] == rep;
            assert(ext.covers(n_cols as int, roots[p], p));
            assert(ext.attained(roots, n_cols as int, n as int, roots[p]));
            let ww = ext.witness@[t];
            vstd::arithmetic::mul::lemma_mul_is_commutative(n_rows as int, n_cols as int);
            vstd::arithmetic::div_mod::lemma_multiply_divide_lt(ww.2, n_cols as int, n_rows as int);
            vstd::arithmetic::div_mod::lemma_mod_bound(ww.3, n_cols as int);
            assert(cells@[m] == cell_from_extents(mr, mc, xr, xc, roots, row_ys@, col_xs@, reps[m]));
            assert(cells@[m].spans(r, c));
        }
        assert forall|r: int, c: int|
            0 <= r < row_ys.len() - 1 && 0 <= c < col_xs.len() - 1 implies cells@.contains(
            #[trigger] cell_at(
                row_ys@,
                col_xs@,
                h_mask@,
                h_mask.width,
                h_mask.height,
                v_mask@,
                v_mask.width,
                v_mask.height,
                min_counts@,
                r,
                c,
            ),
        ) by {
            assert(g.cell_order(reps));
            lemma_cell_at_listed(
                row_ys@,
                col_xs@,
                h_mask@,
                h_mask.width,
                h_mask.height,
                v_mask@,
                v_mask.width,
                v_mask.height,
                min_counts@,
                r,
                c,
            );
        }
    }
    cells
}

/// The cell that holds grid position `(r, c)` of the merge grid between
/// the given row and column lines.
pub open spec fn cell_at(
    rows: Seq<u32>,
    cols: Seq<u32>,
    h: Seq<Seq<u8>>,
    hw: u32,
    hh: u32,
    v: Seq<Seq<u8>>,
    vw: u32,
    vh: u32,
    min_counts: Seq<u32>,
    r: int,
    c: int,
) -> Cell {
    let g = merge_grid(rows, cols, h, hw, hh, v, vw, vh, min_counts);
    group_cell(g, rows, cols, cell_id(g.n_cols, r, c))
}

/// Some position below `n` that satisfies `p` minimises `f` among them.
proof fn lemma_min_attained(p: spec_fn(int) -> bool, f: spec_fn(int) -> int, n: int) -> (m: int)
    requires
        exists|j: int| 0 <= j < n && #[trigger] p(j),
    ensures
        0 <= m < n,
        p(m),
        forall|j: int| 0 <= j < n && #[trigger] p(j) ==> f(m) <= f(j),
    decreases n,
{
    if exists|j: int| 0 <= j < n - 1 && #[trigger] p(j) {
        let m0 = lemma_min_attained(p, f, n - 1);
        if p(n - 1) && f(n - 1) < f(m0) {
            n - 1
        } else {
            m0
        }
    } else {
        let j = choose|j: int| 0 <= j < n && #[trigger] p(j);
        assert(j == n - 1);
        n - 1
    }
}

/// Every position of the grid has the extents of its group, and only one.
proof fn lemma_group_box_extents(g: MergeGrid, i: int)
    requires
        g.n_cols > 0,
        0 <= i < g.size(),
    ensures
        g.extents(i, g.group_box(i)),
        forall|e: (int, int, int, int)| #[trigger] g.extents(i, e) ==> e == g.group_box(i),
{
    let nc = g.n_cols;
    let p = |j: int| g.connected(i, j);
    assert(p(i));
    let a = lemma_min_attained(p, |j: int| j / nc, g.size());
    let b = lemma_min_attained(p, |j: int| j % nc, g.size());
    let c = lemma_min_attained(p, |j: int| -(j / nc), g.size());
    let d = lemma_min_attained(p, |j: int| -(j % nc), g.size());
    let e = (a / nc, b % nc, c / nc, d % nc);
    assert forall|j: int| 0 <= j < g.size() && #[trigger] g.connected(i, j) implies e.0 <= j / nc <= e.2
        && e.1 <= j % nc <= e.3 by {
        assert(p(j));
    }
    assert(g.extents(i, e));
    assert forall|f: (int, int, int, int)| #[trigger] g.extents(i, f) implies f == e by {
        let j0 = choose|j: int| 0 <= j < g.size() && #[trigger] g.connected(i, j) && j / nc == f.0;
        let j1 = choose|j: int| 0 <= j < g.size() && #[trigger] g.connected(i, j) && j % nc == f.1;
        let j2 = choose|j: int| 0 <= j < g.size() && #[trigger] g.connected(i, j) && j / nc == f.2;
        let j3 = choose|j: int| 0 <= j < g.size() && #[trigger] g.connected(i, j) && j % nc == f.3;
        assert(p(j0) && p(j1) && p(j2) && p(j3));
        assert(f.0 <= a / nc && f.1 <= b % nc && c / nc <= f.2 && d % nc <= f.3);
    }
}

/// Positions linked by a chain of joins have the same group, hence the
/// same cell.
proof fn lemma_connected_same_cell(g: MergeGrid, rows: Seq<u32>, cols: Seq<u32>, i: int, j: int)
    requires
        g.n_cols > 0,
        0 <= i < g.size(),
        0 <= j < g.size(),
        g.connected(i, j),
    ensures
        group_cell(g, rows, cols, i) == group_cell(g, rows, cols, j),
{
    assert forall|k: int| g.connected(i, k) == g.connected(j, k) by {
        if g.connected(i, k) {
            assert forall|lab: spec_fn(int) -> int| #[trigger] g.consistent(lab) implies lab(j) == lab(k) by {
                assert(lab(i) == lab(j));
                assert(lab(i) == lab(k));
            }
        }
        if g.connected(j, k) {
            assert forall|lab: spec_fn(int) -> int| #[trigger] g.consistent(lab) implies lab(i) == lab(k) by {
                assert(lab(i) == lab(j));
                assert(lab(j) == lab(k));
            }
        }
    }
    lemma_group_box_extents(g, i);
    lemma_group_box_extents(g, j);
    let e = g.group_box(j);
    assert(g.extents(j, e));
    assert(g.extents(i, e));
}

/// Being linked by a chain of joins is transitive.
proof fn lemma_connected_trans(g: MergeGrid, i: int, j: int, k: int)
    requires
        g.connected(i, j),
        g.connected(j, k),
    ensures
        g.connected(i, k),
{
    assert forall|lab: spec_fn(int) -> int| #[trigger] g.consistent(lab) implies lab(i) == lab(k) by {
        assert(lab(i) == lab(j));
        assert(lab(j) == lab(k));
    }
}

/// The group of every grid position has a first position.
proof fn lemma_first_of_group(g: MergeGrid, p: int) -> (m: int)
    requires
        0 <= p < g.size(),
    ensures
        g.is_first(m),
        g.connected(p, m),
{
    let pred = |j: int| g.connected(p, j);
    assert(pred(p));
    let m = lemma_min_attained(pred, |j: int| j, g.size());
    assert forall|j: int| 0 <= j < m implies !#[trigger] g.connected(m, j) by {
        if g.connected(m, j) {
            lemma_connected_trans(g, p, m, j);
            assert(pred(j));
        }
    }
    m
}

/// The cell holding any grid position is among the cells of the grid.
pub proof fn lemma_cell_at_listed(
    rows: Seq<u32>,
    cols: Seq<u32>,
    h: Seq<Seq<u8>>,
    hw: u32,
    hh: u32,
    v: Seq<Seq<u8>>,
    vw: u32,
    vh: u32,
    min_counts: Seq<u32>,
    r: int,
    c: int,
)
    requires
        0 <= r,
        r + 1 < rows.len(),
        0 <= c,
        c + 1 < cols.len(),
        exists|reps: Seq<int>| merge_grid(rows, cols, h, hw, hh, v, vw, vh, min_counts).cell_order(reps),
    ensures
        grid_cells(merge_grid(rows, cols, h, hw, hh, v, vw, vh, min_counts), rows, cols).contains(
            cell_at(rows, cols, h, hw, hh, v, vw, vh, min_counts, r, c),
        ),
{
    let g = merge_grid(rows, cols, h, hw, hh, v, vw, vh, min_counts);
    let reps = choose|reps: Seq<int>| g.cell_order(reps);
    assert(g.cell_order(reps));
    lemma_cell_id_bounds(g.n_rows, g.n_cols, r, c);
    let p = cell_id(g.n_cols, r, c);
    let m = lemma_first_of_group(g, p);
    assert(reps.contains(m));
    let k = choose|k: int| 0 <= k < reps.len() && reps[k] == m;
    assert(0 <= m < g.size());
    lemma_connected_same_cell(g, rows, cols, p, m);
    let cells = grid_cells(g, rows, cols);
    assert(cells[k] == group_cell(g, rows, cols, m));
    assert(cells[k] == cell_at(rows, cols, h, hw, hh, v, vw, vh, min_counts, r, c));
}

/// A horizontal border that is not drawn between rows `r` and `r + 1` of
/// column `c` puts grid positions `(r, c)` and `(r + 1, c)` in one cell, in
/// every column of the grid.
pub proof fn lemma_missing_h_border_merges(
    rows: Seq<u32>,
    cols: Seq<u32>,
    h: Seq<Seq<u8>>,
    hw: u32,
    hh: u32,
    v: Seq<Seq<u8>>,
    vw: u32,
    vh: u32,
    min_counts: Seq<u32>,
    r: int,
    c: int,
)
    requires
        0 <= r,
        r + 2 < rows.len(),
        0 <= c,
        c + 1 < cols.len(),
        !h_line_present_spec(h, hw, hh, rows[r + 1], cols[c], cols[c + 1], min_counts),
    ensures
        cell_at(rows, cols, h, hw, hh, v, vw, vh, min_counts, r, c) == cell_at(
            rows,
            cols,
            h,
            hw,
            hh,
            v,
            vw,
            vh,
            min_counts,
            r + 1,
            c,
        ),
{
    let g = merge_grid(rows, cols, h, hw, hh, v, vw, vh, min_counts);
    let i = cell_id(g.n_cols, r, c);
    let j = cell_id(g.n_cols, r + 1, c);
    assert(g.down[r][c]);
    assert forall|lab: spec_fn(int) -> int| #[trigger] g.consistent(lab) implies lab(i) == lab(j) by {
        assert(g.down[r][c]);
    }
    lemma_cell_id_bounds(g.n_rows, g.n_cols, r, c);
    lemma_cell_id_bounds(g.n_rows, g.n_cols, r + 1, c);
    lemma_connected_same_cell(g, rows, cols, i, j);
}

/// A vertical border that is not drawn between columns `c` and `c + 1` of
/// row `r` puts grid positions `(r, c)` and `(r, c + 1)` in one cell, in
/// every row of the grid.
pub proof fn lemma_missing_v_border_merges(
    rows: Seq<u32>,
    cols: Seq<u32>,
    h: Seq<Seq<u8>>,
    hw: u32,
    hh: u32,
    v: Seq<Seq<u8>>,
    vw: u32,
    vh: u32,
    min_counts: Seq<u32>,
    r: int,
    c: int,
)
    requires
        0 <= r,
        r + 1 < rows.len(),
        0 <= c,
        c + 2 < cols.len(),
        !v_line_present_spec(v, vw, vh, cols[c + 1], rows[r], rows[r + 1], min_counts),
    ensures
        cell_at(rows, cols, h, hw, hh, v, vw, vh, min_counts, r, c) == cell_at(
            rows,
            cols,
            h,
            hw,
            hh,
            v,
            vw,
            vh,
            min_counts,
            r,
            c + 1,
        ),
{
    let g = merge_grid(rows, cols, h, hw, hh, v, vw, vh, min_counts);
    let i = cell_id(g.n_cols, r, c);
    let j = cell_id(g.n_cols, r, c + 1);
    assert(g.right[r][c]);
    assert forall|lab: spec_fn(int) -> int| #[trigger] g.consistent(lab) implies lab(i) == lab(j) by {
        assert(g.right[r][c]);
    }
    lemma_cell_id_bounds(g.n_rows, g.n_cols, r, c);
    lemma_cell_id_bounds(g.n_rows, g.n_cols, r, c + 1);
    lemma_connected_same_cell(g, rows, cols, i, j);
}

/// When every inner border of the grid is drawn, no grid squares merge:
/// the cell holding `(r, c)` is that square alone.
pub proof fn lemma_all_borders_drawn(
    rows: Seq<u32>,
    cols: Seq<u32>,
    h: Seq<Seq<u8>>,
    hw: u32,
    hh: u32,
    v: Seq<Seq<u8>>,
    vw: u32,
    vh: u32,
    min_counts: Seq<u32>,
    r: int,
    c: int,
)
    requires
        0 <= r,
        r + 1 < rows.len(),
        0 <= c,
        c + 1 < cols.len(),
        forall|k: int, j: int|
            #![trigger rows[k], cols[j]]
            1 <= k && k + 1 < rows.len() && 0 <= j && j + 1 < cols.len() ==> h_line_present_spec(
                h,
                hw,
                hh,
                rows[k],
                cols[j],
                cols[j + 1],
                min_counts,
            ),
        forall|k: int, j: int|
            #![trigger rows[k], cols[j]]
            0 <= k && k + 1 < rows.len() && 1 <= j && j + 1 < cols.len() ==> v_line_present_spec(
                v,
                vw,
                vh,
                cols[j],
                rows[k],
                rows[k + 1],
                min_counts,
            ),
    ensures
        cell_at(rows, cols, h, hw, hh, v, vw, vh, min_counts, r, c) == (Cell {
            row: r as u32,
            col: c as u32,
            row_span: 1,
            col_span: 1,
            bbox: BBox { x1: cols[c], y1: rows[r], x2: cols[c + 1], y2: rows[r + 1] },
        }),
{
    let g = merge_grid(rows, cols, h, hw, hh, v, vw, vh, min_counts);
    assert forall|rr: int, cc: int| 0 <= rr < g.n_rows && 0 <= cc < g.n_cols implies !(#[trigger] g.down[rr][cc])
        && !g.right[rr][cc] by {
        if rr + 2 < rows.len() {
            assert(rows[rr + 1] == rows[rr + 1] && cols[cc] == cols[cc]);
        }
        if cc + 2 < cols.len() {
            assert(rows[rr] == rows[rr] && cols[cc + 1] == cols[cc + 1]);
        }
    }
    let ident = |x: int| x;
    assert(g.consistent(ident));
    lemma_cell_id_bounds(g.n_rows, g.n_cols, r, c);
    let i = cell_id(g.n_cols, r, c);
    let e = (r, c, r, c);
    assert forall|j: int| 0 <= j < g.size() && #[trigger] g.connected(i, j) implies e.0 <= j / g.n_cols
        <= e.2 && e.1 <= j % g.n_cols <= e.3 by {
        assert(ident(i) == ident(j));
    }
    assert(g.connected(i, i));
    assert(g.extents(i, e));
    lemma_group_box_extents(g, i);
}

} // verus!
