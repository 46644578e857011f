use vstd::prelude::*;

verus! {

/// The eight neighbour offsets `(row, col)`, row by row.
pub open spec fn offsets() -> Seq<(int, int)> {
    seq![(-1, -1), (-1, 0), (-1, 1), (0, -1), (0, 1), (1, -1), (1, 0), (1, 1)]
}

/// Whether `(r, c)` is a cell of a grid of `dims` (rows, columns).
pub open spec fn in_grid(r: int, c: int, dims: (usize, usize)) -> bool {
    0 <= r < dims.0 && 0 <= c < dims.1
}

/// `v + d` when it lies in `[0, limit)`.
fn shift(v: usize, d: i8, limit: usize) -> (r: Option<usize>)
    requires
        -1 <= d <= 1,
    ensures
        r.is_some() <==> 0 <= v + d < limit,
        r.is_some() ==> r.unwrap() == v + d,
{
    if d < 0 {
        if v >= 1 && v - 1 < limit { Some(v - 1) } else { None }
    } else if d == 0 {
        if v < limit { Some(v) } else { None }
    } else {
        if v < limit && v + 1 < limit { Some(v + 1) } else { None }
    }
}

/// The 8-connected neighbours of `(row, col)` that lie inside a grid of
/// `dims` (rows, columns), in the order of `offsets`.
pub fn neighbours(row: usize, col: usize, dims: (usize, usize)) -> (r: Vec<(usize, usize)>)
    ensures
        r@.len() <= 8,
        forall|p: (usize, usize)| #[trigger] r@.contains(p) <==> exists|k: int|
            0 <= k < 8 && p.0 == row + (#[trigger] offsets()[k]).0 && p.1 == col + offsets()[k].1 && in_grid(
                row + offsets()[k].0,
                col + offsets()[k].1,
                dims,
            ),
{
    let adjustments: [(i8, i8); 8] = [(-1, -1), (-1, 0), (-1, 1), (0, -1), (0, 1), (1, -1), (1, 0), (1, 1)];
    let mut out: Vec<(usize, usize)> = Vec::new();
    let mut k: usize = 0;
    while k < 8
        invariant
            k <= 8,
            out@.len() <= k,
            forall|m: int| 0 <= m < 8 ==> (#[trigger] adjustments@[m]).0 == offsets()[m].0 && adjustments@[m].1 == offsets()[m].1,
            forall|p: (usize, usize)| #[trigger] out@.contains(p) <==> exists|m: int|
                0 <= m < k && p.0 == row + (#[trigger] offsets()[m]).0 && p.1 == col + offsets()[m].1 && in_grid(
                    row + offsets()[m].0,
                    col + offsets()[m].1,
                    dims,
                ),
        decreases 8 - k,
    {
        let (dr, dc) = adjustments[k];
        let ghost prev = out@;
        match (shift(row, dr, dims.0), shift(col, dc, dims.1)) {
            (Some(r), Some(c)) => {
                out.push((r, c));
                proof {
                    assert(out@[prev.len() as int] == (r, c));
                    assert forall|p: (usize, usize)| prev.contains(p) implies #[trigger] out@.contains(p) by {
                        let w = choose|w: int| 0 <= w < prev.len() && prev[w] == p;
                        assert(out@[w] == p);
                    }
                    assert forall|p: (usize, usize)| #[trigger] out@.contains(p) && p != (r, c) implies prev.contains(p) by {
                        let w = choose|w: int| 0 <= w < out@.len() && out@[w] == p;
                        assert(prev[w] == p);
                    }
                }
            },
            _ => {
                assert(!in_grid(row + offsets()[k as int].0, col + offsets()[k as int].1, dims));
            },
        }
        k += 1;
    }
    out
}

} // verus!
