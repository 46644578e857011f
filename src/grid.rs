use std::ops::Range;
use vstd::prelude::*;
use crate::utils::{clip_hi, clip_lo, get_copyable_range, Range2};

verus! {

/// A dense two-dimensional array stored row by row.
pub struct Grid<T> {
    rows: Vec<Vec<T>>,
    width: usize,
}

impl<T> View for Grid<T> {
    type V = Seq<Seq<T>>;

    closed spec fn view(&self) -> Seq<Seq<T>> {
        Seq::new(self.rows@.len(), |i: int| self.rows@[i]@)
    }
}

/// The destination rectangle that a `src_h` x `src_w` patch placed at
/// `(off_r, off_c)` covers inside a `dst_h` x `dst_w` grid, if any.
pub open spec fn landing(src_h: int, src_w: int, dst_h: int, dst_w: int, off_r: int, off_c: int) -> Option<Range2> {
    let lo_r = clip_lo(off_r);
    let hi_r = clip_hi(off_r, src_h, dst_h);
    let lo_c = clip_lo(off_c);
    let hi_c = clip_hi(off_c, src_w, dst_w);
    if lo_r < hi_r && lo_c < hi_c {
        Some(Range2(Range { start: lo_r as usize, end: hi_r as usize }, Range { start: lo_c as usize, end: hi_c as usize }))
    } else {
        None
    }
}

impl<T> Grid<T> {
    /// Every row has the grid's width.
    pub closed spec fn wf(&self) -> bool {
        &&& self.rows@.len() <= usize::MAX
        &&& forall|i: int| 0 <= i < self.rows@.len() ==> (#[trigger] self.rows@[i])@.len() == self.width
    }

    /// The dimensions of a well-formed grid fit in `usize`.
    pub proof fn lemma_dims_fit(&self)
        requires
            self.wf(),
        ensures
            self.height_spec() <= usize::MAX,
            self.width_spec() <= usize::MAX,
    {
    }

    pub closed spec fn height_spec(&self) -> nat {
        self.rows@.len()
    }

    pub closed spec fn width_spec(&self) -> nat {
        self.width as nat
    }

    /// The cell at `(r, c)`.
    pub open spec fn at(&self, r: int, c: int) -> T {
        self@[r][c]
    }

    pub open spec fn in_bounds(&self, r: int, c: int) -> bool {
        0 <= r < self.height_spec() && 0 <= c < self.width_spec()
    }

    proof fn lemma_view(&self)
        requires
            self.wf(),
        ensures
            self@.len() == self.height_spec(),
            forall|i: int| 0 <= i < self.height_spec() ==> #[trigger] self@[i] == self.rows@[i]@,
            forall|i: int| 0 <= i < self.height_spec() ==> (#[trigger] self@[i]).len() == self.width_spec(),
    {
    }

    /// `(rows, columns)`.
    pub fn dim(&self) -> (r: (usize, usize))
        ensures
            r.0 == self.height_spec(),
            r.1 == self.width_spec(),
    {
        (self.rows.len(), self.width)
    }

    /// Builds a grid from rows that all hold `width` cells.
    pub fn from_parts(rows: Vec<Vec<T>>, width: usize) -> (g: Grid<T>)
        requires
            forall|i: int| 0 <= i < rows@.len() ==> (#[trigger] rows@[i])@.len() == width,
        ensures
            g.wf(),
            g.height_spec() == rows@.len(),
            g.width_spec() == width,
            forall|i: int, j: int| g.in_bounds(i, j) ==> #[trigger] g.at(i, j) == rows@[i]@[j],
    {
        // asking a Vec for its length shows that the length fits in usize
        let _n_rows = rows.len();
        let g = Grid { rows, width };
        proof { g.lemma_view(); }
        g
    }

    /// A reference to the cell at `(r, c)`.
    pub fn get_ref(&self, r: usize, c: usize) -> (v: &T)
        requires
            self.wf(),
            self.in_bounds(r as int, c as int),
        ensures
            *v == self.at(r as int, c as int),
    {
        proof { self.lemma_view(); }
        &self.rows[r][c]
    }

    /// Builds a grid from its rows; `None` when they differ in length.
    pub fn from_rows(rows: Vec<Vec<T>>) -> (r: Option<Grid<T>>)
        ensures
            (forall|i: int| 0 <= i < rows@.len() ==> (#[trigger] rows@[i])@.len() == rows@[0]@.len())
                <==> r.is_some(),
            r.is_some() ==> r.unwrap().wf() && r.unwrap().height_spec() == rows@.len()
                && (rows@.len() > 0 ==> r.unwrap().width_spec() == rows@[0]@.len())
                && forall|i: int, j: int|
                0 <= i < rows@.len() && 0 <= j < rows@[i]@.len() ==> #[trigger] r.unwrap().at(i, j)
                == rows@[i]@[j],
    {
        let width = if rows.len() == 0 { 0 } else { rows[0].len() };
        let mut i: usize = 0;
        while i < rows.len()
            invariant
                i <= rows@.len(),
                rows@.len() > 0 ==> width == rows@[0]@.len(),
                forall|k: int| 0 <= k < i ==> (#[trigger] rows@[k])@.len() == width,
            decreases rows@.len() - i,
        {
            if rows[i].len() != width {
                return None;
            }
            i += 1;
        }
        // asking a Vec for its length shows that the length fits in usize
        let _n_rows = rows.len();
        let g = Grid { rows, width };
        proof { g.lemma_view(); }
        Some(g)
    }
}

impl<T: Copy> Grid<T> {
    /// A `height` x `width` grid holding `value` everywhere.
    pub fn filled(height: usize, width: usize, value: T) -> (g: Grid<T>)
        ensures
            g.wf(),
            g.height_spec() == height,
            g.width_spec() == width,
            forall|i: int, j: int| g.in_bounds(i, j) ==> #[trigger] g.at(i, j) == value,
    {
        let mut rows: Vec<Vec<T>> = Vec::new();
        let mut i: usize = 0;
        while i < height
            invariant
                i <= height,
                rows@.len() == i,
                forall|k: int| 0 <= k < i ==> (#[trigger] rows@[k])@.len() == width,
                forall|k: int, j: int| 0 <= k < i && 0 <= j < width ==> #[trigger] rows@[k]@[j] == value,
            decreases height - i,
        {
            let mut row: Vec<T> = Vec::new();
            let mut j: usize = 0;
            while j < width
                invariant
                    j <= width,
                    row@.len() == j,
                    forall|l: int| 0 <= l < j ==> #[trigger] row@[l] == value,
                decreases width - j,
            {
                row.push(value);
                j += 1;
            }
            rows.push(row);
            i += 1;
        }
        let g = Grid { rows, width };
        proof { g.lemma_view(); }
        g
    }

    /// Whether `(r, c)` of a destination falls on a cell of a `src` placed
    /// with its origin at `(off_r, off_c)`.
    pub open spec fn covers(src: &Grid<T>, off_r: int, off_c: int, r: int, c: int) -> bool {
        src.in_bounds(r - off_r, c - off_c)
    }

    /// Copies the part of `src` that lands inside this grid when its origin
    /// is placed at `offset` (which may be negative or overhang).  Returns the
    /// destination rectangle written, or `None` when nothing lands inside, in
    /// which case the grid is unchanged.
    pub fn copy_patch(&mut self, src: &Grid<T>, offset: (isize, isize)) -> (written: Option<Range2>)
        requires
            old(self).wf(),
            src.wf(),
            old(self).height_spec() <= isize::MAX,
            old(self).width_spec() <= isize::MAX,
            src.height_spec() <= isize::MAX,
            src.width_spec() <= isize::MAX,
            offset.0 > isize::MIN,
            offset.1 > isize::MIN,
            offset.0 + src.height_spec() <= isize::MAX,
            offset.1 + src.width_spec() <= isize::MAX,
        ensures
            final(self).wf(),
            final(self).height_spec() == old(self).height_spec(),
            final(self).width_spec() == old(self).width_spec(),
            forall|r: int, c: int|
                #![trigger final(self).at(r, c)]
                final(self).in_bounds(r, c) ==> final(self).at(r, c) == if Self::covers(
                    src,
                    offset.0 as int,
                    offset.1 as int,
                    r,
                    c,
                ) {
                    src.at(r - offset.0, c - offset.1)
                } else {
                    old(self).at(r, c)
                },
            written.is_none() ==> final(self)@ == old(self)@,
            written == landing(
                src.height_spec() as int,
                src.width_spec() as int,
                old(self).height_spec() as int,
                old(self).width_spec() as int,
                offset.0 as int,
                offset.1 as int,
            ),
    {
        let (src_h, src_w) = src.dim();
        let (dst_h, dst_w) = self.dim();
        let (from_rows, to_rows) = get_copyable_range(src_h, offset.0, dst_h);
        let (from_cols, to_cols) = get_copyable_range(src_w, offset.1, dst_w);
        if from_rows.start >= from_rows.end || from_cols.start >= from_cols.end {
            return None;
        }
        let n_rows = to_rows.end - to_rows.start;
        let n_cols = to_cols.end - to_cols.start;
        let ghost old_g = *self;
        let mut i: usize = 0;
        while i < n_rows
            invariant
                self.wf(),
                self.height_spec() == old_g.height_spec(),
                self.width_spec() == old_g.width_spec(),
                src.wf(),
                i <= n_rows,
                n_rows == to_rows.end - to_rows.start,
                n_cols == to_cols.end - to_cols.start,
                to_rows.end <= dst_h == old_g.height_spec(),
                to_cols.end <= dst_w == old_g.width_spec(),
                from_rows.end <= src_h == src.height_spec(),
                from_cols.end <= src_w == src.width_spec(),
                to_rows.start == from_rows.start + offset.0,
                to_cols.start == from_cols.start + offset.1,
                from_rows.end - from_rows.start == n_rows,
                from_cols.end - from_cols.start == n_cols,
                forall|r: int, c: int|
                    #![trigger self.at(r, c)]
                    self.in_bounds(r, c) ==> self.at(r, c) == if to_rows.start <= r < to_rows.start + i
                        && to_cols.start <= c < to_cols.end {
                        src.at(r - offset.0, c - offset.1)
                    } else {
                        old_g.at(r, c)
                    },
            decreases n_rows - i,
        {
            let mut j: usize = 0;
            while j < n_cols
                invariant
                    self.wf(),
                    self.height_spec() == old_g.height_spec(),
                    self.width_spec() == old_g.width_spec(),
                    src.wf(),
                    i < n_rows,
                    j <= n_cols,
                    n_rows == to_rows.end - to_rows.start,
                    n_cols == to_cols.end - to_cols.start,
                    to_rows.end <= dst_h == old_g.height_spec(),
                    to_cols.end <= dst_w == old_g.width_spec(),
                    from_rows.end <= src_h == src.height_spec(),
                    from_cols.end <= src_w == src.width_spec(),
                    to_rows.start == from_rows.start + offset.0,
                    to_cols.start == from_cols.start + offset.1,
                    from_rows.end - from_rows.start == n_rows,
                    from_cols.end - from_cols.start == n_cols,
                    forall|r: int, c: int|
                        #![trigger self.at(r, c)]
                        self.in_bounds(r, c) ==> self.at(r, c) == if (to_rows.start <= r < to_rows.start + i
                            && to_cols.start <= c < to_cols.end) || (r == to_rows.start + i
                            && to_cols.start <= c < to_cols.start + j) {
                            src.at(r - offset.0, c - offset.1)
                        } else {
                            old_g.at(r, c)
                        },
                decreases n_cols - j,
            {
                let v = src.get(from_rows.start + i, from_cols.start + j);
                let ghost prev = *self;
                proof { self.lemma_view(); }
                self.set(to_rows.start + i, to_cols.start + j, v);
                proof {
                    self.lemma_view();
                    assert forall|r: int, c: int| #![trigger self.at(r, c)] self.in_bounds(r, c) implies
                        self.at(r, c) == if r == to_rows.start + i && c == to_cols.start + j {
                            v
                        } else {
                            prev.at(r, c)
                        } by {}
                }
                j += 1;
            }
            i += 1;
        }
        proof {
            assert forall|r: int, c: int| #![trigger self.at(r, c)] self.in_bounds(r, c) implies
                (to_rows.start <= r < to_rows.end && to_cols.start <= c < to_cols.end)
                == Self::covers(src, offset.0 as int, offset.1 as int, r, c) by {}
        }
        Some(Range2(to_rows, to_cols))
    }

    /// Every `spacing`-th index of `[start, end)` from `start` on, counted.
    pub open spec fn strided_len(start: int, end: int, spacing: int, n: int) -> bool {
        n >= 0 && n * spacing >= end - start && (n == 0 || (n - 1) * spacing < end - start)
    }

    /// One row of a strided copy: the cells `(r, c0), (r, c0 + spacing), ...`
    /// with columns below `c1`.
    fn sample_row(&self, r: usize, c0: usize, c1: usize, spacing: usize) -> (out: Vec<T>)
        requires
            self.wf(),
            r < self.height_spec(),
            c0 <= c1 <= self.width_spec(),
            spacing > 0,
        ensures
            Self::strided_len(c0 as int, c1 as int, spacing as int, out@.len() as int),
            forall|j: int| 0 <= j < out@.len() ==> #[trigger] out@[j] == self.at(r as int, c0 + j * spacing),
    {
        proof { self.lemma_view(); }
        let mut out: Vec<T> = Vec::new();
        let mut c: usize = c0;
        proof {
            assert(0 * spacing == 0) by (nonlinear_arith);
        }
        while c < c1
            invariant
                self.wf(),
                r < self.height_spec(),
                c1 <= self.width_spec(),
                spacing > 0,
                c0 <= c <= c1,
                c < c1 ==> c == c0 + out@.len() * spacing,
                c == c1 ==> out@.len() * spacing >= c1 - c0,
                out@.len() == 0 || (out@.len() - 1) * spacing < c1 - c0,
                forall|j: int| 0 <= j < out@.len() ==> #[trigger] out@[j] == self.at(r as int, c0 + j * spacing),
            decreases c1 - c,
        {
            proof { self.lemma_view(); }
            let ghost n = out@.len();
            out.push(self.rows[r][c]);
            proof {
                assert(c + spacing == c0 + (n + 1) * spacing) by (nonlinear_arith)
                    requires c == c0 + n * spacing;
            }
            if c1 - c <= spacing {
                c = c1;
            } else {
                c = c + spacing;
            }
        }
        out
    }

    proof fn lemma_strided_len_unique(start: int, end: int, spacing: int, n1: int, n2: int)
        requires
            spacing > 0,
            Self::strided_len(start, end, spacing, n1),
            Self::strided_len(start, end, spacing, n2),
        ensures
            n1 == n2,
    {
        if n1 < n2 {
            assert(n1 * spacing <= (n2 - 1) * spacing) by (nonlinear_arith)
                requires n1 <= n2 - 1, spacing > 0;
        } else if n2 < n1 {
            assert(n2 * spacing <= (n1 - 1) * spacing) by (nonlinear_arith)
                requires n2 <= n1 - 1, spacing > 0;
        }
    }

    /// A copy of the cells of `range` taken every `spacing` rows and columns,
    /// starting at the rectangle's first row and column.
    pub fn sample(&self, range: &Range2, spacing: usize) -> (out: Grid<T>)
        requires
            self.wf(),
            range.0.start <= range.0.end <= self.height_spec(),
            range.1.start <= range.1.end <= self.width_spec(),
            spacing > 0,
        ensures
            out.wf(),
            Self::strided_len(range.0.start as int, range.0.end as int, spacing as int, out.height_spec() as int),
            Self::strided_len(range.1.start as int, range.1.end as int, spacing as int, out.width_spec() as int),
            forall|i: int, j: int|
                #![trigger out.at(i, j)]
                out.in_bounds(i, j) ==> out.at(i, j) == self.at(range.0.start + i * spacing, range.1.start + j * spacing),
    {
        let r0 = range.0.start;
        let r1 = range.0.end;
        let c0 = range.1.start;
        let c1 = range.1.end;
        let width: usize = if c0 == c1 { 0 } else { (c1 - c0 - 1) / spacing + 1 };
        proof {
            assert(Self::strided_len(c0 as int, c1 as int, spacing as int, width as int)) by (nonlinear_arith)
                requires width == if c0 == c1 { 0 } else { (c1 - c0 - 1) / spacing as int + 1 }, c0 <= c1, spacing > 0;
            assert(0 * spacing == 0) by (nonlinear_arith);
        }
        let mut rows: Vec<Vec<T>> = Vec::new();
        let mut r: usize = r0;
        while r < r1
            invariant
                self.wf(),
                r1 <= self.height_spec(),
                c0 <= c1 <= self.width_spec(),
                spacing > 0,
                Self::strided_len(c0 as int, c1 as int, spacing as int, width as int),
                r0 <= r <= r1,
                r < r1 ==> r == r0 + rows@.len() * spacing,
                r == r1 ==> rows@.len() * spacing >= r1 - r0,
                rows@.len() == 0 || (rows@.len() - 1) * spacing < r1 - r0,
                forall|i: int| 0 <= i < rows@.len() ==> (#[trigger] rows@[i])@.len() == width,
                forall|i: int, j: int|
                    0 <= i < rows@.len() && 0 <= j < width ==> #[trigger] rows@[i]@[j] == self.at(
                        r0 + i * spacing,
                        c0 + j * spacing,
                    ),
            decreases r1 - r,
        {
            let ghost n = rows@.len();
            let row = self.sample_row(r, c0, c1, spacing);
            proof {
                Self::lemma_strided_len_unique(c0 as int, c1 as int, spacing as int, row@.len() as int, width as int);
                assert(r + spacing == r0 + (n + 1) * spacing) by (nonlinear_arith)
                    requires r == r0 + n * spacing;
            }
            rows.push(row);
            if r1 - r <= spacing {
                r = r1;
            } else {
                r = r + spacing;
            }
        }
        // asking a Vec for its length shows that the length fits in usize
        let _n_rows = rows.len();
        let g = Grid { rows, width };
        proof { g.lemma_view(); }
        g
    }

    /// The cell at `(r, c)`.
    pub fn get(&self, r: usize, c: usize) -> (v: T)
        requires
            self.wf(),
            self.in_bounds(r as int, c as int),
        ensures
            v == self.at(r as int, c as int),
    {
        proof { self.lemma_view(); }
        self.rows[r][c]
    }

    /// Stores `v` at `(r, c)`, leaving every other cell as it was.
    pub fn set(&mut self, r: usize, c: usize, v: T)
        requires
            old(self).wf(),
            old(self).in_bounds(r as int, c as int),
        ensures
            final(self).wf(),
            final(self).height_spec() == old(self).height_spec(),
            final(self).width_spec() == old(self).width_spec(),
            final(self)@ == old(self)@.update(r as int, old(self)@[r as int].update(c as int, v)),
            forall|i: int, j: int|
                #![trigger final(self).at(i, j)]
                final(self).in_bounds(i, j) ==> final(self).at(i, j) == if i == r && j == c {
                    v
                } else {
                    old(self).at(i, j)
                },
    {
        proof { self.lemma_view(); }
        self.rows[r].set(c, v);
        proof {
            self.lemma_view();
            assert(self@ =~= old(self)@.update(r as int, old(self)@[r as int].update(c as int, v)));
        }
    }
}

} // verus!
