use vstd::prelude::*;
use crate::grid::Grid;
use crate::mesh_tree::pow2;

verus! {

/// A triangle of grid points, each given as `[row, col]`.
#[derive(Clone, Copy, Debug)]
pub struct Triangle {
    pub points: [[usize; 2]; 3],
}

/// A list of triangles covering a square patch.
#[derive(Debug)]
pub struct Triangulation {
    pub triangles: Vec<Triangle>,
}

/// The triangle with corners `p`, `q` and `r` (each `(row, col)`).
pub open spec fn tri(p: (int, int), q: (int, int), r: (int, int)) -> Triangle {
    Triangle {
        points: [
            [p.0 as usize, p.1 as usize],
            [q.0 as usize, q.1 as usize],
            [r.0 as usize, r.1 as usize],
        ],
    }
}

/// Triangle `k` of the two-per-cell triangulation of a grid whose rows of
/// cells are `cols` cells wide: cell `k / 2` in row-major order, upper-left
/// half for even `k`, lower-right half for odd `k`.
pub open spec fn basic_tri(cols: int, k: int) -> Triangle {
    let cell = k / 2;
    let i = cell / cols;
    let j = cell % cols;
    if k % 2 == 0 {
        tri((i, j), (i, j + 1), (i + 1, j))
    } else {
        tri((i + 1, j), (i, j + 1), (i + 1, j + 1))
    }
}

/// Two triangles for every cell of the patch, cells in row-major order.
pub fn triangulate_basic<T>(points: &Grid<T>) -> (r: Triangulation)
    requires
        points.wf(),
        points.height_spec() >= 1,
        points.width_spec() >= 1,
    ensures
        r.triangles@.len() == 2 * (points.height_spec() - 1) * (points.width_spec() - 1),
        forall|k: int|
            0 <= k < r.triangles@.len() ==> #[trigger] r.triangles@[k] == basic_tri(
                points.width_spec() - 1,
                k,
            ),
{
    let (h, w) = points.dim();
    let rows = h - 1;
    let cols = w - 1;
    let mut triangles: Vec<Triangle> = Vec::new();
    let mut i: usize = 0;
    assert(2 * 0 * cols == 0) by (nonlinear_arith);
    while i < rows
        invariant
            rows == points.height_spec() - 1,
            cols == points.width_spec() - 1,
            i <= rows,
            triangles@.len() == 2 * i * cols,
            forall|k: int| 0 <= k < triangles@.len() ==> #[trigger] triangles@[k] == basic_tri(cols as int, k),
        decreases rows - i,
    {
        let mut j: usize = 0;
        assert(2 * i * cols == 2 * (i * cols)) by (nonlinear_arith);
        while j < cols
            invariant
                rows == points.height_spec() - 1,
                cols == points.width_spec() - 1,
                i < rows,
                j <= cols,
                triangles@.len() == 2 * (i * cols + j),
                forall|k: int| 0 <= k < triangles@.len() ==> #[trigger] triangles@[k] == basic_tri(cols as int, k),
            decreases cols - j,
        {
            assert(i * cols + j < rows * cols + 1 && (i + 1) * cols <= rows * cols) by (nonlinear_arith)
                requires i < rows, j < cols;
            let v1 = [i, j];
            let v2 = [i, j + 1];
            let v3 = [i + 1, j];
            let v4 = [i + 1, j + 1];
            let n = triangles.len();
            proof {
                vstd::arithmetic::div_mod::lemma_fundamental_div_mod_converse(
                    (i * cols + j) as int, cols as int, i as int, j as int);
                assert(n / 2 == i * cols + j && (n + 1) / 2 == i * cols + j);
            }
            triangles.push(Triangle { points: [v1, v2, v3] });
            triangles.push(Triangle { points: [v3, v2, v4] });
            j += 1;
        }
        assert(2 * (i * cols + cols) == 2 * (i + 1) * cols) by (nonlinear_arith);
        i += 1;
    }
    Triangulation { triangles }
}


pub open spec fn abs_diff(a: int, b: int) -> int {
    if a >= b { a - b } else { b - a }
}

/// The triangles emitted for the triangle with hypotenuse `a`-`b` and right
/// angle at `c` (points as `(x, y)` = (column, row)).  The triangle is split
/// at the midpoint of its hypotenuse while its legs are longer than one cell,
/// `split` marks that midpoint, and `depth` splits remain.
pub open spec fn rtin_tris(
    ax: int,
    ay: int,
    bx: int,
    by: int,
    cx: int,
    cy: int,
    depth: nat,
    split: Seq<Seq<bool>>,
) -> Seq<Triangle>
    decreases depth,
{
    let mx = (ax + bx) / 2;
    let my = (ay + by) / 2;
    if depth > 0 && abs_diff(ax, cx) + abs_diff(ay, cy) > 1 && split[my][mx] {
        rtin_tris(cx, cy, ax, ay, mx, my, (depth - 1) as nat, split) + rtin_tris(
            bx,
            by,
            cx,
            cy,
            mx,
            my,
            (depth - 1) as nat,
            split,
        )
    } else {
        seq![tri((ay, ax), (by, bx), (cy, cx))]
    }
}

/// The mesh of a square patch of `tile + 1` points a side: the two root
/// triangles that halve the square along its diagonal, refined.
pub open spec fn rtin_mesh(tile: int, split: Seq<Seq<bool>>) -> Seq<Triangle> {
    let depth = (2 * tile) as nat;
    rtin_tris(0, 0, tile, tile, tile, 0, depth, split) + rtin_tris(tile, tile, 0, 0, 0, tile, depth, split)
}

fn process_triangle(
    ax: usize,
    ay: usize,
    bx: usize,
    by: usize,
    cx: usize,
    cy: usize,
    depth: usize,
    split: &Grid<bool>,
    triangles: &mut Vec<Triangle>,
)
    requires
        split.wf(),
        split.width_spec() <= usize::MAX / 2,
        split.height_spec() <= usize::MAX / 2,
        ax < split.width_spec() && bx < split.width_spec() && cx < split.width_spec(),
        ay < split.height_spec() && by < split.height_spec() && cy < split.height_spec(),
    ensures
        final(triangles)@ == old(triangles)@ + rtin_tris(
            ax as int,
            ay as int,
            bx as int,
            by as int,
            cx as int,
            cy as int,
            depth as nat,
            split@,
        ),
    decreases depth,
{
    // middle of the long edge
    let mx = (ax + bx) / 2;
    let my = (ay + by) / 2;
    let dx = if ax >= cx { ax - cx } else { cx - ax };
    let dy = if ay >= cy { ay - cy } else { cy - ay };
    if depth > 0 && dx + dy > 1 && split.get(my, mx) {
        // not a good enough approximation: split in two
        let ghost t0 = triangles@;
        process_triangle(cx, cy, ax, ay, mx, my, depth - 1, split, triangles);
        process_triangle(bx, by, cx, cy, mx, my, depth - 1, split, triangles);
        proof {
            assert(triangles@ =~= t0 + rtin_tris(
                ax as int, ay as int, bx as int, by as int, cx as int, cy as int, depth as nat, split@));
        }
    } else {
        let t = Triangle { points: [[ay, ax], [by, bx], [cy, cx]] };
        triangles.push(t);
        proof {
            assert(t == tri((ay as int, ax as int), (by as int, bx as int), (cy as int, cx as int)));
        }
    }
}

/// Extracts the mesh of a square patch of `n` x `n` points, `n >= 2`, from
/// the map of which hypotenuse midpoints carry an error above the threshold:
/// a triangle is split while its legs are longer than one cell and its
/// midpoint is marked, and emitted whole otherwise.
pub fn build_rtin_mesh(split: &Grid<bool>) -> (r: Vec<Triangle>)
    requires
        split.wf(),
        split.height_spec() == split.width_spec(),
        split.height_spec() >= 2,
        2 * split.height_spec() <= usize::MAX,
    ensures
        r@ == rtin_mesh(split.height_spec() - 1, split@),
{
    let (n, _) = split.dim();
    let tile_size = n - 1;
    let depth = 2 * tile_size;
    let mut triangles: Vec<Triangle> = Vec::new();
    process_triangle(0, 0, tile_size, tile_size, tile_size, 0, depth, split, &mut triangles);
    process_triangle(tile_size, tile_size, 0, 0, 0, tile_size, depth, split, &mut triangles);
    assert(triangles@ =~= rtin_mesh(tile_size as int, split@));
    triangles
}

proof fn lemma_rtin_nonempty(ax: int, ay: int, bx: int, by: int, cx: int, cy: int, depth: nat, split: Seq<Seq<bool>>)
    ensures
        rtin_tris(ax, ay, bx, by, cx, cy, depth, split).len() >= 1,
    decreases depth,
{
    let mx = (ax + bx) / 2;
    let my = (ay + by) / 2;
    if depth > 0 && abs_diff(ax, cx) + abs_diff(ay, cy) > 1 && split[my][mx] {
        lemma_rtin_nonempty(cx, cy, ax, ay, mx, my, (depth - 1) as nat, split);
        lemma_rtin_nonempty(bx, by, cx, cy, mx, my, (depth - 1) as nat, split);
    }
}

proof fn lemma_rtin_tris_monotone(
    ax: int,
    ay: int,
    bx: int,
    by: int,
    cx: int,
    cy: int,
    depth: nat,
    fine: Seq<Seq<bool>>,
    coarse: Seq<Seq<bool>>,
    tile: int,
)
    requires
        0 <= ax <= tile && 0 <= ay <= tile && 0 <= bx <= tile,
        0 <= by <= tile && 0 <= cx <= tile && 0 <= cy <= tile,
        forall|i: int, j: int| 0 <= i <= tile && 0 <= j <= tile && #[trigger] coarse[i][j] ==> fine[i][j],
    ensures
        rtin_tris(ax, ay, bx, by, cx, cy, depth, fine).len() >= rtin_tris(ax, ay, bx, by, cx, cy, depth, coarse).len(),
    decreases depth,
{
    let mx = (ax + bx) / 2;
    let my = (ay + by) / 2;
    if depth > 0 && abs_diff(ax, cx) + abs_diff(ay, cy) > 1 {
        lemma_rtin_tris_monotone(cx, cy, ax, ay, mx, my, (depth - 1) as nat, fine, coarse, tile);
        lemma_rtin_tris_monotone(bx, by, cx, cy, mx, my, (depth - 1) as nat, fine, coarse, tile);
        lemma_rtin_nonempty(cx, cy, ax, ay, mx, my, (depth - 1) as nat, fine);
        lemma_rtin_nonempty(bx, by, cx, cy, mx, my, (depth - 1) as nat, fine);
    }
}

/// A lower threshold never gives fewer triangles: when every midpoint marked
/// for splitting in `coarse` (errors above the higher threshold) is marked in
/// `fine` too (errors above the lower threshold), the mesh extracted from
/// `fine` has at least as many triangles as the one from `coarse`.  Only
/// the points of the patch, `0..=tile` in each direction, are compared.
pub proof fn lemma_threshold_monotone(tile: int, fine: Seq<Seq<bool>>, coarse: Seq<Seq<bool>>)
    requires
        tile >= 0,
        forall|i: int, j: int| 0 <= i <= tile && 0 <= j <= tile && #[trigger] coarse[i][j] ==> fine[i][j],
    ensures
        rtin_mesh(tile, fine).len() >= rtin_mesh(tile, coarse).len(),
{
    let depth = (2 * tile) as nat;
    lemma_rtin_tris_monotone(0, 0, tile, tile, tile, 0, depth, fine, coarse, tile);
    lemma_rtin_tris_monotone(tile, tile, 0, 0, 0, tile, depth, fine, coarse, tile);
}


/// Corners `(ax, ay, bx, by, cx, cy)` of the triangle reached from the
/// triangle `(a, b, c)` by the remaining bits of `id`, lowest bit first: a
/// set bit picks the half on the `a` side, a clear bit the half on the `b`
/// side.
pub open spec fn id_walk(id: nat, ax: int, ay: int, bx: int, by: int, cx: int, cy: int) -> (int, int, int, int, int, int)
    decreases id,
{
    let next = id / 2;
    if next <= 1 {
        (ax, ay, bx, by, cx, cy)
    } else {
        let mx = (ax + bx) / 2;
        let my = (ay + by) / 2;
        if next % 2 == 1 {
            id_walk(next, cx, cy, ax, ay, mx, my)
        } else {
            id_walk(next, bx, by, cx, cy, mx, my)
        }
    }
}

/// Corners of triangle `i` of the implicit binary tree of a patch `tile`
/// cells wide.  The tree's node ids start at 2: the lowest bit of `i + 2`
/// picks one of the two root triangles (set: corners `(0, 0)`, `(tile,
/// tile)`, right angle at `(tile, 0)`; clear: `(tile, tile)`, `(0, 0)`, right
/// angle at `(0, tile)`), and each further bit picks a half.
pub open spec fn triangle_of_id(i: int, tile: int) -> (int, int, int, int, int, int) {
    let id = (i + 2) as nat;
    if id % 2 == 1 {
        id_walk(id, 0, 0, tile, tile, tile, 0)
    } else {
        id_walk(id, tile, tile, 0, 0, 0, tile)
    }
}

/// Corners `[ax, ay, bx, by, cx, cy]` of triangle `i` of the implicit tree
/// (hypotenuse `a`-`b`, right angle at `c`); every coordinate lies in
/// `[0, tile_size]`.
pub fn triangle_coords(i: usize, tile_size: usize) -> (r: [usize; 6])
    requires
        i + 2 <= usize::MAX,
        tile_size <= usize::MAX / 2,
    ensures
        ({
            let t = triangle_of_id(i as int, tile_size as int);
            r@ == seq![t.0 as usize, t.1 as usize, t.2 as usize, t.3 as usize, t.4 as usize, t.5 as usize]
        }),
        forall|k: int| 0 <= k < 6 ==> #[trigger] r@[k] <= tile_size,
{
    let mut id = i + 2;
    let (mut ax, mut ay, mut bx, mut by, mut cx, mut cy): (usize, usize, usize, usize, usize, usize) =
        if id % 2 == 1 {
            (0, 0, tile_size, tile_size, tile_size, 0)
        } else {
            (tile_size, tile_size, 0, 0, 0, tile_size)
        };
    loop
        invariant_except_break
            id_walk(id as nat, ax as int, ay as int, bx as int, by as int, cx as int, cy as int)
                == triangle_of_id(i as int, tile_size as int),
        invariant
            tile_size <= usize::MAX / 2,
            ax <= tile_size && ay <= tile_size && bx <= tile_size,
            by <= tile_size && cx <= tile_size && cy <= tile_size,
        ensures
            (ax as int, ay as int, bx as int, by as int, cx as int, cy as int) == triangle_of_id(i as int, tile_size as int),
        decreases id,
    {
        let ghost prev = id;
        id = id / 2;
        if id <= 1 {
            assert(id_walk(prev as nat, ax as int, ay as int, bx as int, by as int, cx as int, cy as int)
                == (ax as int, ay as int, bx as int, by as int, cx as int, cy as int));
            break;
        }
        let mx = (ax + bx) / 2;
        let my = (ay + by) / 2;
        if id % 2 == 1 {
            bx = ax;
            by = ay;
            ax = cx;
            ay = cy;
        } else {
            ax = bx;
            ay = by;
            bx = cx;
            by = cy;
        }
        cx = mx;
        cy = my;
    }
    let r = [ax, ay, bx, by, cx, cy];
    assert(r@ =~= seq![ax, ay, bx, by, cx, cy]);
    r
}

} // verus!
