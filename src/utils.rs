use std::ops::Range;
use vstd::prelude::*;

verus! {

/// A rectangle of grid cells: half-open row and column ranges.
#[derive(Debug, Default)]
pub struct Range2(pub Range<usize>, pub Range<usize>);

/// Whether a half-open range holds no index.
pub open spec fn range_empty(r: Range<usize>) -> bool {
    r.start >= r.end
}

/// Whether two half-open ranges share an index.
pub open spec fn ranges_meet(a: Range<usize>, b: Range<usize>) -> bool {
    a.start < b.end && a.end > b.start
}

impl Range2 {
    pub open spec fn empty_spec(&self) -> bool {
        range_empty(self.0) || range_empty(self.1)
    }

    /// Whether the cell `(row, col)` lies inside the rectangle.
    pub open spec fn holds(&self, row: int, col: int) -> bool {
        self.0.start <= row < self.0.end && self.1.start <= col < self.1.end
    }

    /// Whether the two rectangles share a cell: both are non-empty and
    /// their row and column ranges meet.
    pub open spec fn overlaps_spec(&self, other: &Range2) -> bool {
        !self.empty_spec() && !other.empty_spec() && ranges_meet(self.0, other.0) && ranges_meet(self.1, other.1)
    }

    /// `overlaps_spec` is exactly "some cell lies in both rectangles".
    pub proof fn lemma_overlaps_shared_cell(&self, other: &Range2)
        ensures
            self.overlaps_spec(other) <==> exists|r: int, c: int| self.holds(r, c) && other.holds(r, c),
    {
        if self.overlaps_spec(other) {
            let r = if self.0.start >= other.0.start { self.0.start as int } else { other.0.start as int };
            let c = if self.1.start >= other.1.start { self.1.start as int } else { other.1.start as int };
            assert(self.holds(r, c) && other.holds(r, c));
        }
    }

    /// Rectangle intersection test: true exactly when some cell lies in
    /// both rectangles.
    pub fn overlaps(&self, other: &Range2) -> (r: bool)
        ensures
            r == self.overlaps_spec(other),
            r <==> exists|i: int, j: int| self.holds(i, j) && other.holds(i, j),
    {
        proof { self.lemma_overlaps_shared_cell(other); }
        !self.is_empty() && !other.is_empty() && self.0.start < other.0.end && self.0.end > other.0.start
            && self.1.start < other.1.end && self.1.end > other.1.start
    }

    pub fn is_empty(&self) -> (r: bool)
        ensures
            r == self.empty_spec(),
    {
        self.0.start >= self.0.end || self.1.start >= self.1.end
    }

    /// Grows the bounding box so that it holds the cell `(row, col)`.  On an
    /// empty rectangle the result is the 1x1 rectangle of that cell.
    pub fn expand_to(&mut self, row: usize, col: usize)
        requires
            row < usize::MAX,
            col < usize::MAX,
        ensures
            old(self).empty_spec() ==> *final(self) == Range2(row..(row + 1) as usize, col..(col + 1) as usize),
            !old(self).empty_spec() ==> {
                &&& final(self).0.start == if row < old(self).0.start { row } else { old(self).0.start }
                &&& final(self).0.end == if row + 1 > old(self).0.end { (row + 1) as usize } else { old(self).0.end }
                &&& final(self).1.start == if col < old(self).1.start { col } else { old(self).1.start }
                &&& final(self).1.end == if col + 1 > old(self).1.end { (col + 1) as usize } else { old(self).1.end }
            },
            final(self).holds(row as int, col as int),
            forall|r: int, c: int| old(self).holds(r, c) ==> final(self).holds(r, c),
    {
        if self.is_empty() {
            self.0 = row..row + 1;
            self.1 = col..col + 1;
        } else {
            if row < self.0.start {
                self.0.start = row;
            }
            if row + 1 > self.0.end {
                self.0.end = row + 1;
            }
            if col < self.1.start {
                self.1.start = col;
            }
            if col + 1 > self.1.end {
                self.1.end = col + 1;
            }
        }
    }
}

/// The part of `[offset, offset + width)` that lies in `[0, limit)`, as
/// destination bounds; empty when the two do not meet.
pub open spec fn clip_lo(offset: int) -> int {
    if offset < 0 { 0 } else { offset }
}

pub open spec fn clip_hi(offset: int, width: int, limit: int) -> int {
    if offset + width > limit { limit } else { offset + width }
}

/// Trims a source range and the destination range it is copied to, by the
/// same amounts at each end, so that the destination lies in `[0, limit)`.
/// When either becomes empty both are set to `0..0`.
pub fn restrict_ranges(from_r: &mut Range<isize>, to_r: &mut Range<isize>, limit: isize)
    requires
        old(to_r).start > isize::MIN,
        old(to_r).start < 0 ==> old(from_r).start - old(to_r).start <= isize::MAX,
        old(to_r).end > limit ==> old(to_r).end - limit <= isize::MAX,
        old(to_r).end > limit ==> old(from_r).end - (old(to_r).end - limit) >= isize::MIN,
    ensures
        ({
            let shift_lo: int = if old(to_r).start < 0 { -old(to_r).start } else { 0 };
            let shift_hi: int = if old(to_r).end > limit { old(to_r).end - limit } else { 0 };
            let fs = old(from_r).start + shift_lo;
            let fe = old(from_r).end - shift_hi;
            let ts = old(to_r).start + shift_lo;
            let te = old(to_r).end - shift_hi;
            if fs >= fe || ts >= te {
                final(from_r).start == 0 && final(from_r).end == 0 && final(to_r).start == 0
                    && final(to_r).end == 0
            } else {
                final(from_r).start == fs && final(from_r).end == fe && final(to_r).start == ts
                    && final(to_r).end == te
            }
        }),
{
    if to_r.start < 0 {
        let excess = -to_r.start;
        from_r.start = from_r.start + excess;
        to_r.start = to_r.start + excess;
    }
    if to_r.end > limit {
        let excess = to_r.end - limit;
        from_r.end = from_r.end - excess;
        to_r.end = to_r.end - excess;
    }
    if from_r.start >= from_r.end || to_r.start >= to_r.end {
        *from_r = 0..0;
        *to_r = 0..0;
    }
}

/// For a source of `src_width` cells placed at `offset` in a destination of
/// `dest_width` cells: the source indices that land inside the destination,
/// and the destination indices they land on.  Both are empty when nothing
/// lands inside.
pub fn get_copyable_range(src_width: usize, offset: isize, dest_width: usize) -> (r: (
    Range<usize>,
    Range<usize>,
))
    requires
        src_width <= isize::MAX,
        offset > isize::MIN,
        dest_width <= isize::MAX,
        offset + src_width <= isize::MAX,
    ensures
        ({
            let lo = clip_lo(offset as int);
            let hi = clip_hi(offset as int, src_width as int, dest_width as int);
            if lo < hi {
                r.0.start == lo - offset && r.0.end == hi - offset && r.1.start == lo && r.1.end
                    == hi
            } else {
                r.0.start == 0 && r.0.end == 0 && r.1.start == 0 && r.1.end == 0
            }
        }),
{
    let mut from_r: Range<isize> = 0..src_width as isize;
    let mut to_r: Range<isize> = offset..offset + src_width as isize;
    restrict_ranges(&mut from_r, &mut to_r, dest_width as isize);
    (from_r.start as usize..from_r.end as usize, to_r.start as usize..to_r.end as usize)
}

} // verus!
