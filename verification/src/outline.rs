//! The changed-area outline of the diff viewer, on the integer side: the changed-pixel grid
//! shrunk onto a coarse cell grid, and the unit edges that separate changed cells from
//! unchanged ones (the outline's segments). Vertices are numbered row by row on the
//! `(gw + 1) x (gh + 1)` lattice of cell corners.

use vstd::prelude::*;

verus! {

/// The coarse cell a fine coordinate `v` (of `n`) falls in, on a grid of `g` cells.
pub open spec fn cell_of(v: int, n: int, g: int) -> int {
    if (v * g) / n < g - 1 { (v * g) / n } else { g - 1 }
}

/// Whether coarse cell `(cx, cy)` holds some changed pixel of the `w` x `h` grid.
pub open spec fn cell_changed(grid: Seq<bool>, w: int, h: int, gw: int, gh: int, cx: int, cy: int) -> bool {
    exists|x: int, y: int|
        0 <= x < w && 0 <= y < h && #[trigger] grid[y * w + x] && cell_of(x, w, gw) == cx && cell_of(y, h, gh) == cy
}

/// The number of the lattice vertex `(x, y)`.
pub open spec fn vertex(x: int, y: int, gw: int) -> int {
    y * (gw + 1) + x
}

/// Whether coarse cell `(x, y)` is inside the grid and changed.
pub open spec fn on(cells: Seq<bool>, gw: int, gh: int, x: int, y: int) -> bool {
    0 <= x < gw && 0 <= y < gh && cells[y * gw + x]
}

/// The boundary edges of cell `(x, y)`: for a changed cell, each side whose neighbour is not
/// changed, in the order top, bottom, left, right.
pub open spec fn cell_edges(cells: Seq<bool>, gw: int, gh: int, x: int, y: int) -> Seq<(int, int)> {
    if !on(cells, gw, gh, x, y) {
        Seq::empty()
    } else {
        (if !on(cells, gw, gh, x, y - 1) { seq![(vertex(x, y, gw), vertex(x + 1, y, gw))] } else { Seq::empty() })
            + (if !on(cells, gw, gh, x, y + 1) { seq![(vertex(x, y + 1, gw), vertex(x + 1, y + 1, gw))] } else { Seq::empty() })
            + (if !on(cells, gw, gh, x - 1, y) { seq![(vertex(x, y, gw), vertex(x, y + 1, gw))] } else { Seq::empty() })
            + (if !on(cells, gw, gh, x + 1, y) { seq![(vertex(x + 1, y, gw), vertex(x + 1, y + 1, gw))] } else { Seq::empty() })
    }
}

/// The boundary edges of the first `k` cells of row `y`.
pub open spec fn row_edges(cells: Seq<bool>, gw: int, gh: int, y: int, k: int) -> Seq<(int, int)>
    decreases k,
{
    if k <= 0 {
        Seq::empty()
    } else {
        row_edges(cells, gw, gh, y, k - 1) + cell_edges(cells, gw, gh, k - 1, y)
    }
}

/// The boundary edges of the first `rows` rows, row by row.
pub open spec fn grid_edges(cells: Seq<bool>, gw: int, gh: int, rows: int) -> Seq<(int, int)>
    decreases rows,
{
    if rows <= 0 {
        Seq::empty()
    } else {
        grid_edges(cells, gw, gh, rows - 1) + row_edges(cells, gw, gh, rows - 1, gw)
    }
}

/// The edges as plain numbers.
pub open spec fn edges_view(e: Seq<(usize, usize)>) -> Seq<(int, int)> {
    e.map_values(|p: (usize, usize)| (p.0 as int, p.1 as int))
}

proof fn lemma_index(x: int, y: int, w: int, h: int)
    requires
        0 <= x < w,
        0 <= y < h,
    ensures
        0 <= y * w + x < w * h,
{
    assert(y * w + x < (y + 1) * w) by (nonlinear_arith)
        requires
            x < w,
    ;
    assert((y + 1) * w <= h * w) by (nonlinear_arith)
        requires
            y + 1 <= h,
            w > 0,
    ;
    assert(0 <= y * w) by (nonlinear_arith)
        requires
            y >= 0,
            w > 0,
    ;
    assert(h * w == w * h) by (nonlinear_arith);
}

fn on_exec(cells: &Vec<bool>, gw: usize, gh: usize, x: usize, y: usize, dx: i8, dy: i8) -> (r: bool)
    requires
        cells@.len() == gw * gh,
        x < gw,
        y < gh,
        -1 <= dx <= 1,
        -1 <= dy <= 1,
    ensures
        r == on(cells@, gw as int, gh as int, x + dx, y + dy),
{
    if (dx < 0 && x == 0) || (dy < 0 && y == 0) {
        return false;
    }
    let nx: usize = if dx < 0 { x - 1 } else if dx > 0 { x + 1 } else { x };
    let ny: usize = if dy < 0 { y - 1 } else if dy > 0 { y + 1 } else { y };
    if nx >= gw || ny >= gh {
        return false;
    }
    let n = cells.len();
    proof {
        lemma_index(nx as int, ny as int, gw as int, gh as int);
        assert(ny * gw <= ny * gw + nx);
        assert(ny * gw + nx < n);
    }
    let i = ny * gw + nx;
    cells[i]
}

/// The unit edges between changed and unchanged cells of a `gw` x `gh` cell grid (the grid's
/// edge counting as unchanged), cell by cell in row order, each cell's in the order top,
/// bottom, left, right, as pairs of lattice vertex numbers.
pub fn boundary_edges(cells: &Vec<bool>, gw: usize, gh: usize) -> (r: Vec<(usize, usize)>)
    requires
        cells@.len() == gw * gh,
        (gw + 1) * (gh + 1) <= usize::MAX,
    ensures
        edges_view(r@) == grid_edges(cells@, gw as int, gh as int, gh as int),
{
    let mut out: Vec<(usize, usize)> = Vec::new();
    let mut y: usize = 0;
    while y < gh
        invariant
            cells@.len() == gw * gh,
            (gw + 1) * (gh + 1) <= usize::MAX,
            y <= gh,
            edges_view(out@) == grid_edges(cells@, gw as int, gh as int, y as int),
        decreases gh - y,
    {
        let ghost before_row = edges_view(out@);
        let mut x: usize = 0;
        while x < gw
            invariant
                cells@.len() == gw * gh,
                (gw + 1) * (gh + 1) <= usize::MAX,
                y < gh,
                x <= gw,
                edges_view(out@) == before_row + row_edges(cells@, gw as int, gh as int, y as int, x as int),
            decreases gw - x,
        {
            let ghost pre = edges_view(out@);
            proof {
                assert((y + 1) * (gw + 1) + (x + 1) <= (gw + 1) * (gh + 1)) by (nonlinear_arith)
                    requires
                        x < gw,
                        y < gh,
                ;
                assert(y * (gw + 1) + (gw + 1) == (y + 1) * (gw + 1)) by (nonlinear_arith);
                assert(0 <= y * (gw + 1)) by (nonlinear_arith)
                    requires
                        y >= 0,
                ;
            }
            let v00 = y * (gw + 1) + x;
            let v10 = y * (gw + 1) + x + 1;
            let v01 = (y + 1) * (gw + 1) + x;
            let v11 = (y + 1) * (gw + 1) + x + 1;
            if on_exec(cells, gw, gh, x, y, 0, 0) {
                if !on_exec(cells, gw, gh, x, y, 0, -1) {
                    out.push((v00, v10));
                }
                if !on_exec(cells, gw, gh, x, y, 0, 1) {
                    out.push((v01, v11));
                }
                if !on_exec(cells, gw, gh, x, y, -1, 0) {
                    out.push((v00, v01));
                }
                if !on_exec(cells, gw, gh, x, y, 1, 0) {
                    out.push((v10, v11));
                }
            }
            proof {
                assert(edges_view(out@) =~= pre + cell_edges(cells@, gw as int, gh as int, x as int, y as int));
            }
            x += 1;
        }
        y += 1;
    }
    out
}

/// The coarse cells after marking the changed pixels among the first `k` of row `y`, starting
/// from `cells`: each changed pixel `(x, y)` marks the cell it falls in.
pub open spec fn mark_row(cells: Seq<bool>, grid: Seq<bool>, w: int, h: int, gw: int, gh: int, y: int, k: int) -> Seq<bool>
    decreases k,
{
    if k <= 0 {
        cells
    } else {
        let before = mark_row(cells, grid, w, h, gw, gh, y, k - 1);
        if grid[y * w + (k - 1)] {
            before.update(cell_of(y, h, gh) * gw + cell_of(k - 1, w, gw), true)
        } else {
            before
        }
    }
}

/// The coarse cells after marking the changed pixels of the first `rows` rows.
pub open spec fn mark_rows(grid: Seq<bool>, w: int, h: int, gw: int, gh: int, rows: int) -> Seq<bool>
    decreases rows,
{
    if rows <= 0 {
        Seq::new((gw * gh) as nat, |i: int| false)
    } else {
        mark_row(mark_rows(grid, w, h, gw, gh, rows - 1), grid, w, h, gw, gh, rows - 1, w)
    }
}

proof fn lemma_cell_of_bounds(v: int, n: int, g: int)
    requires
        0 <= v < n,
        1 <= g,
    ensures
        0 <= cell_of(v, n, g) < g,
{
    assert(0 <= (v * g) / n) by (nonlinear_arith)
        requires
            0 <= v,
            1 <= g,
            0 < n,
    ;
}

/// Shrink a `w` x `h` changed-pixel grid onto `gw` x `gh` coarse cells: a cell is marked when a
/// changed pixel falls in it (pixel `(x, y)` falls in cell `(x * gw / w, y * gh / h)`, clamped
/// to the last cell).
pub fn downsample(grid: &Vec<bool>, w: usize, h: usize, gw: usize, gh: usize) -> (r: Vec<bool>)
    requires
        grid@.len() == w * h,
        1 <= gw,
        1 <= gh,
        gw * gh <= usize::MAX,
        w * gw <= usize::MAX,
        h * gh <= usize::MAX,
    ensures
        r@ == mark_rows(grid@, w as int, h as int, gw as int, gh as int, h as int),
{
    let glen = grid.len();
    assert(w * h <= usize::MAX);
    let mut cells: Vec<bool> = Vec::new();
    let mut i: usize = 0;
    while i < gw * gh
        invariant
            gw * gh <= usize::MAX,
            i <= gw * gh,
            cells@.len() == i,
            forall|j: int| 0 <= j < i ==> !(#[trigger] cells@[j]),
        decreases gw * gh - i,
    {
        cells.push(false);
        i += 1;
    }
    assert(cells@ =~= mark_rows(grid@, w as int, h as int, gw as int, gh as int, 0));
    let mut y: usize = 0;
    while y < h
        invariant
            grid@.len() == w * h,
            1 <= gw,
            1 <= gh,
            gw * gh <= usize::MAX,
            w * gw <= usize::MAX,
            h * gh <= usize::MAX,
            w * h <= usize::MAX,
            y <= h,
            cells@.len() == gw * gh,
            cells@ == mark_rows(grid@, w as int, h as int, gw as int, gh as int, y as int),
        decreases h - y,
    {
        proof {
            assert(y * gh <= h * gh) by (nonlinear_arith)
                requires
                    y <= h,
            ;
            lemma_cell_of_bounds(y as int, h as int, gh as int);
        }
        let q: usize = y * gh / h;
        let gy: usize = if q < gh - 1 { q } else { gh - 1 };
        let ghost start = cells@;
        let mut x: usize = 0;
        while x < w
            invariant
                grid@.len() == w * h,
                1 <= gw,
                1 <= gh,
                gw * gh <= usize::MAX,
                w * gw <= usize::MAX,
                w * h <= usize::MAX,
                y < h,
                x <= w,
                gy == cell_of(y as int, h as int, gh as int),
                gy < gh,
                cells@.len() == gw * gh,
                cells@ == mark_row(start, grid@, w as int, h as int, gw as int, gh as int, y as int, x as int),
            decreases w - x,
        {
            proof {
                lemma_index(x as int, y as int, w as int, h as int);
                assert(x * gw <= w * gw) by (nonlinear_arith)
                    requires
                        x <= w,
                ;
                lemma_cell_of_bounds(x as int, w as int, gw as int);
            }
            let p = y * w + x;
            if grid[p] {
                let r = x * gw / w;
                let gx: usize = if r < gw - 1 { r } else { gw - 1 };
                proof {
                    lemma_index(gx as int, gy as int, gw as int, gh as int);
                    assert(gy * gw <= gy * gw + gx);
                }
                let c = gy * gw + gx;
                cells.set(c, true);
            }
            x += 1;
        }
        y += 1;
    }
    cells
}

} // verus!
