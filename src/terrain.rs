use vstd::prelude::*;
use crate::grid::{landing, Grid};
use crate::utils::Range2;

verus! {

/// Cells along each edge of a finest-level block.
pub const BLOCK_SIZE: usize = 64;

/// An independent elevation grid of the map.
#[derive(Clone, Copy, Debug, PartialEq, Eq, Hash, Structural)]
pub enum TerrainLayer {
    Elevation,
    Structure,
}

/// Dirty-tracking record of one finest-level block.
#[derive(Debug, Default)]
pub struct BlockInfo {
    pub block_num: (usize, usize),
    pub range: Range2,
    pub dirty: bool,
}

/// Grid layout of the map.  Row 0 is the northern edge, rows run
/// north to south and columns west to east.  Neighbouring blocks share their
/// edge points, so each axis holds `num_blocks * block_size + 1` points.
#[derive(Debug, Default)]
pub struct Terrain {
    pub size: [usize; 2],
    pub block_size: usize,
    pub num_blocks: [usize; 2],
    pub point_dims: [usize; 2],
}

/// The point rectangle of block `(r, c)` for blocks of `bs` cells.
pub open spec fn block_rect(r: int, c: int, bs: int) -> Range2 {
    Range2(
        std::ops::Range { start: (r * bs) as usize, end: ((r + 1) * bs + 1) as usize },
        std::ops::Range { start: (c * bs) as usize, end: ((c + 1) * bs + 1) as usize },
    )
}

impl Terrain {
    /// Whether the derived fields agree with `size` and `block_size`.
    pub open spec fn wf(&self) -> bool {
        &&& self.block_size > 0
        &&& self.num_blocks[0] == self.size[0] / self.block_size
        &&& self.num_blocks[1] == self.size[1] / self.block_size
        &&& self.point_dims[0] == self.num_blocks[0] * self.block_size + 1
        &&& self.point_dims[1] == self.num_blocks[1] * self.block_size + 1
    }

    /// Lays the map out anew for a grid of `size` cells.
    pub fn reset(&mut self, size: [usize; 2])
        requires
            size[0] < usize::MAX,
            size[1] < usize::MAX,
        ensures
            final(self).wf(),
            final(self).size == size,
            final(self).block_size == BLOCK_SIZE,
    {
        self.size = size;
        self.block_size = BLOCK_SIZE;
        let nb0 = size[0] / BLOCK_SIZE;
        let nb1 = size[1] / BLOCK_SIZE;
        self.num_blocks = [nb0, nb1];
        self.point_dims = [nb0 * BLOCK_SIZE + 1, nb1 * BLOCK_SIZE + 1];
    }

    /// Grid offset of a map coordinate given relative to the map's
    /// south-west corner (`x` eastwards, `y` northwards), in whole cells.
    pub fn coord_to_offset(&self, x: isize, y: isize) -> (r: (isize, isize))
        requires
            self.size[0] <= isize::MAX,
            y >= 0,
        ensures
            r.0 == self.size[0] - y,
            r.1 == x,
    {
        (self.size[0] as isize - y, x)
    }
}

/// The elevation grids of every layer and the dirty flags of every block.
pub struct TerrainData<T> {
    pub layers: Vec<(TerrainLayer, Grid<T>)>,
    pub block_info: Vec<Vec<BlockInfo>>,
}

/// Position of the last entry for `layer`, or -1.
pub open spec fn layer_pos<T>(s: Seq<(TerrainLayer, Grid<T>)>, layer: TerrainLayer) -> int
    decreases s.len(),
{
    if s.len() == 0 {
        -1
    } else if s.last().0 == layer {
        s.len() - 1
    } else {
        layer_pos(s.drop_last(), layer)
    }
}

pub proof fn lemma_layer_pos<T>(s: Seq<(TerrainLayer, Grid<T>)>, layer: TerrainLayer)
    ensures
        -1 <= layer_pos(s, layer) < s.len(),
        layer_pos(s, layer) >= 0 ==> s[layer_pos(s, layer)].0 == layer,
        forall|k: int| layer_pos(s, layer) < k < s.len() ==> s[k].0 != layer,
    decreases s.len(),
{
    if s.len() > 0 && s.last().0 != layer {
        lemma_layer_pos(s.drop_last(), layer);
        assert forall|k: int| 0 <= k < s.len() - 1 implies s.drop_last()[k] == s[k] by {}
    }
}

proof fn lemma_layer_pos_update<T>(s: Seq<(TerrainLayer, Grid<T>)>, i: int, e: (TerrainLayer, Grid<T>), l: TerrainLayer)
    requires
        0 <= i < s.len(),
        e.0 == s[i].0,
    ensures
        layer_pos(s.update(i, e), l) == layer_pos(s, l),
    decreases s.len(),
{
    let t = s.update(i, e);
    if i < s.len() - 1 {
        assert(t.last() == s.last());
        if s.last().0 != l {
            lemma_layer_pos_update(s.drop_last(), i, e, l);
            assert(t.drop_last() =~= s.drop_last().update(i, e));
        }
    } else {
        assert(t.drop_last() =~= s.drop_last());
    }
}

proof fn lemma_layer_pos_push<T>(s: Seq<(TerrainLayer, Grid<T>)>, e: (TerrainLayer, Grid<T>), l: TerrainLayer)
    ensures
        layer_pos(s.push(e), l) == if e.0 == l { s.len() as int } else { layer_pos(s, l) },
{
    assert(s.push(e).drop_last() =~= s);
}

/// The records of the blocks of row `r`: `nb` blocks of `bs` cells.
fn block_row(r: usize, nb: usize, bs: usize) -> (out: Vec<BlockInfo>)
    requires
        bs > 0,
        (r + 1) * bs + 1 <= usize::MAX,
        nb * bs + 1 <= usize::MAX,
    ensures
        out@.len() == nb,
        forall|j: int|
            0 <= j < nb ==> #[trigger] out@[j] == (BlockInfo {
                block_num: (r, j as usize),
                range: block_rect(r as int, j, bs as int),
                dirty: false,
            }),
{
    assert(r * bs <= (r + 1) * bs && r * bs + bs == (r + 1) * bs) by (nonlinear_arith)
        requires bs > 0;
    let row_start = r * bs;
    let row_end = row_start + bs + 1;
    let mut out: Vec<BlockInfo> = Vec::new();
    let mut c: usize = 0;
    let mut col_start: usize = 0;
    assert(r * bs + bs == (r + 1) * bs) by (nonlinear_arith);
    while c < nb
        invariant
            bs > 0,
            row_start == r * bs,
            row_end == (r + 1) * bs + 1,
            nb * bs + 1 <= usize::MAX,
            c <= nb,
            col_start == c * bs,
            out@.len() == c,
            forall|j: int|
                0 <= j < c ==> #[trigger] out@[j] == (BlockInfo {
                    block_num: (r, j as usize),
                    range: block_rect(r as int, j, bs as int),
                    dirty: false,
                }),
        decreases nb - c,
    {
        assert((c + 1) * bs <= nb * bs && c * bs + bs == (c + 1) * bs) by (nonlinear_arith)
            requires c < nb, bs > 0;
        let info = BlockInfo {
            block_num: (r, c),
            range: Range2(row_start..row_end, col_start..col_start + bs + 1),
            dirty: false,
        };
        out.push(info);
        c += 1;
        col_start = col_start + bs;
    }
    out
}

impl<T> TerrainData<T> {
    /// The grid of `layer`, if the map has that layer.
    pub open spec fn layer_grid(&self, layer: TerrainLayer) -> Option<Grid<T>> {
        let p = layer_pos(self.layers@, layer);
        if p >= 0 { Some(self.layers@[p].1) } else { None }
    }

    /// Every grid is rectangular, no layer has two grids, and the block
    /// table is rectangular.
    pub open spec fn wf(&self) -> bool {
        &&& forall|i: int| 0 <= i < self.layers@.len() ==> (#[trigger] self.layers@[i]).1.wf()
        &&& forall|i: int, j: int| 0 <= i < j < self.layers@.len() ==> (#[trigger] self.layers@[i]).0 != (#[trigger] self.layers@[j]).0
        &&& forall|i: int| 0 <= i < self.block_info@.len() ==> (#[trigger] self.block_info@[i])@.len()
            == self.block_info@[0]@.len()
    }

    /// The record of block `(i, j)`.
    pub open spec fn block(&self, i: int, j: int) -> BlockInfo {
        self.block_info@[i]@[j]
    }

    pub open spec fn block_rows(&self) -> int {
        self.block_info@.len() as int
    }

    pub open spec fn block_cols(&self) -> int {
        if self.block_info@.len() == 0 { 0 } else { self.block_info@[0]@.len() as int }
    }

    pub open spec fn has_block(&self, i: int, j: int) -> bool {
        0 <= i < self.block_rows() && 0 <= j < self.block_cols()
    }

    /// A map with no layers and no blocks.
    pub fn new() -> (r: TerrainData<T>)
        ensures
            r.wf(),
            r.layers@.len() == 0,
            r.block_info@.len() == 0,
    {
        TerrainData { layers: Vec::new(), block_info: Vec::new() }
    }

    /// Position in `layers` of the grid of `layer`.
    pub fn find_layer(&self, layer: TerrainLayer) -> (r: Option<usize>)
        ensures
            r.is_some() <==> layer_pos(self.layers@, layer) >= 0,
            r.is_some() ==> r.unwrap() == layer_pos(self.layers@, layer),
    {
        let mut i: usize = self.layers.len();
        assert(self.layers@.subrange(0, i as int) =~= self.layers@);
        while i > 0
            invariant
                i <= self.layers@.len(),
                layer_pos(self.layers@, layer) == layer_pos(self.layers@.subrange(0, i as int), layer),
            decreases i,
        {
            let ghost s = self.layers@.subrange(0, i as int);
            if self.layers[i - 1].0 == layer {
                return Some(i - 1);
            }
            assert(s.drop_last() =~= self.layers@.subrange(0, i - 1));
            i -= 1;
        }
        None
    }

    /// Marks the listed blocks clean, once their rebuild is scheduled.
    pub fn clear_dirty(&mut self, blocks: &Vec<(usize, usize)>)
        requires
            old(self).wf(),
            forall|k: int| 0 <= k < blocks@.len() ==> old(self).has_block(#[trigger] blocks@[k].0 as int, blocks@[k].1 as int),
        ensures
            final(self).wf(),
            final(self).layers == old(self).layers,
            final(self).block_rows() == old(self).block_rows(),
            final(self).block_cols() == old(self).block_cols(),
            forall|i: int, j: int|
                #![trigger final(self).block(i, j)]
                old(self).has_block(i, j) ==> final(self).block(i, j).range == old(self).block(i, j).range
                    && final(self).block(i, j).block_num == old(self).block(i, j).block_num
                    && final(self).block(i, j).dirty == (old(self).block(i, j).dirty
                    && !blocks@.contains((i as usize, j as usize))),
    {
        let ghost old_s = *self;
        let n_rows = self.block_info.len();
        let n_cols = if n_rows > 0 { self.block_info[0].len() } else { 0 };
        let mut k: usize = 0;
        while k < blocks.len()
            invariant
                self.wf(),
                n_rows == old_s.block_rows(),
                n_cols == old_s.block_cols(),
                k <= blocks@.len(),
                self.block_rows() == old_s.block_rows(),
                self.block_cols() == old_s.block_cols(),
                self.layers == old_s.layers,
                forall|m: int| 0 <= m < blocks@.len() ==> old_s.has_block(#[trigger] blocks@[m].0 as int, blocks@[m].1 as int),
                forall|a: int, b: int|
                    #![trigger self.block(a, b)]
                    old_s.has_block(a, b) ==> self.block(a, b).range == old_s.block(a, b).range
                        && self.block(a, b).block_num == old_s.block(a, b).block_num
                        && self.block(a, b).dirty == (old_s.block(a, b).dirty
                        && !blocks@.subrange(0, k as int).contains((a as usize, b as usize))),
            decreases blocks@.len() - k,
        {
            let (i, j) = blocks[k];
            assert(old_s.has_block(i as int, j as int));
            let ghost before = *self;
            self.block_info[i][j].dirty = false;
            proof {
                assert forall|a: int| 0 <= a < self.block_info@.len() implies
                    (#[trigger] self.block_info@[a])@ == if a == i {
                        before.block_info@[a]@.update(j as int, BlockInfo { dirty: false, ..before.block(a, j as int) })
                    } else {
                        before.block_info@[a]@
                    } by {}
                assert forall|a: int, b: int| #![trigger self.block(a, b)] old_s.has_block(a, b) implies
                    self.block(a, b).range == old_s.block(a, b).range
                        && self.block(a, b).block_num == old_s.block(a, b).block_num
                        && self.block(a, b).dirty == (old_s.block(a, b).dirty
                        && !blocks@.subrange(0, k + 1).contains((a as usize, b as usize))) by {
                    assert(before.has_block(a, b));
                    assert(self.block(a, b) == if a == i && b == j {
                        BlockInfo { dirty: false, ..before.block(a, b) }
                    } else {
                        before.block(a, b)
                    });
                    let p = (a as usize, b as usize);
                    assert(blocks@.subrange(0, k + 1) =~= blocks@.subrange(0, k as int).push((i, j)));
                    if blocks@.subrange(0, k as int).contains(p) {
                        let w = choose|w: int| 0 <= w < k && #[trigger] blocks@.subrange(0, k as int)[w] == p;
                        assert(blocks@.subrange(0, k + 1)[w] == p);
                    }
                    if blocks@.subrange(0, k + 1).contains(p) && p != (i, j) {
                        let w = choose|w: int| 0 <= w < k + 1 && #[trigger] blocks@.subrange(0, k + 1)[w] == p;
                        assert(blocks@.subrange(0, k as int)[w] == p);
                    }
                    if p == (i, j) {
                        assert(blocks@.subrange(0, k + 1)[k as int] == p);
                        assert(!self.block(a, b).dirty);
                    } else {
                        assert(blocks@.subrange(0, k + 1).contains(p) == blocks@.subrange(0, k as int).contains(p));
                        assert(self.block(a, b).dirty == before.block(a, b).dirty);
                        assert(before.block(a, b).dirty == (old_s.block(a, b).dirty
                            && !blocks@.subrange(0, k as int).contains(p)));
                    }
                }
            }
            k += 1;
        }
        assert(blocks@.subrange(0, blocks@.len() as int) =~= blocks@);
    }

    /// Marks dirty every block whose rectangle meets `range`.
    pub fn dirty_range(&mut self, range: &Range2)
        requires
            old(self).wf(),
        ensures
            final(self).wf(),
            final(self).layers == old(self).layers,
            final(self).block_rows() == old(self).block_rows(),
            final(self).block_cols() == old(self).block_cols(),
            forall|i: int, j: int|
                #![trigger final(self).block(i, j)]
                old(self).has_block(i, j) ==> final(self).block(i, j).range == old(self).block(i, j).range
                    && final(self).block(i, j).block_num == old(self).block(i, j).block_num
                    && final(self).block(i, j).dirty == (old(self).block(i, j).dirty
                    || old(self).block(i, j).range.overlaps_spec(range)),
    {
        let ghost old_s = *self;
        let n_rows = self.block_info.len();
        let mut i: usize = 0;
        while i < n_rows
            invariant
                self.wf(),
                n_rows == old_s.block_rows() == self.block_rows(),
                self.block_cols() == old_s.block_cols(),
                self.layers == old_s.layers,
                i <= n_rows,
                forall|a: int, b: int|
                    #![trigger self.block(a, b)]
                    old_s.has_block(a, b) ==> self.block(a, b).range == old_s.block(a, b).range
                        && self.block(a, b).block_num == old_s.block(a, b).block_num
                        && self.block(a, b).dirty == (old_s.block(a, b).dirty || (a < i
                        && old_s.block(a, b).range.overlaps_spec(range))),
            decreases n_rows - i,
        {
            let n_cols = self.block_info[i].len();
            let mut j: usize = 0;
            while j < n_cols
                invariant
                    self.wf(),
                    n_rows == old_s.block_rows() == self.block_rows(),
                    self.block_cols() == old_s.block_cols(),
                    self.layers == old_s.layers,
                    i < n_rows,
                    n_cols == self.block_info@[i as int]@.len() == self.block_cols(),
                    j <= n_cols,
                    forall|a: int, b: int|
                        #![trigger self.block(a, b)]
                        old_s.has_block(a, b) ==> self.block(a, b).range == old_s.block(a, b).range
                            && self.block(a, b).block_num == old_s.block(a, b).block_num
                            && self.block(a, b).dirty == (old_s.block(a, b).dirty || ((a < i || (a == i
                            && b < j)) && old_s.block(a, b).range.overlaps_spec(range))),
                decreases n_cols - j,
            {
                let ghost before = *self;
                let hit = self.block_info[i][j].range.overlaps(range);
                if hit {
                    self.block_info[i][j].dirty = true;
                    assert forall|a: int| 0 <= a < self.block_info@.len() implies
                        (#[trigger] self.block_info@[a])@ == if a == i {
                            before.block_info@[a]@.update(j as int, BlockInfo { dirty: true, ..before.block(a, j as int) })
                        } else {
                            before.block_info@[a]@
                        } by {}
                }
                assert forall|a: int, b: int| #![trigger self.block(a, b)] old_s.has_block(a, b) implies
                    self.block(a, b) == if a == i && b == j && hit {
                        BlockInfo { dirty: true, ..before.block(a, b) }
                    } else {
                        before.block(a, b)
                    } by {
                    assert(before.has_block(a, b));
                }
                j += 1;
            }
            i += 1;
        }
    }
}

/// `new` is `old` after copying `data` into the grid of `layer` at
/// `offset`: the cells it covers take its values, every other cell and
/// every other layer stay, and exactly the blocks meeting the destination
/// rectangle written become dirty (those already dirty stay dirty).
pub open spec fn elevation_written<T: Copy>(
    old: &TerrainData<T>,
    new: &TerrainData<T>,
    offset: (isize, isize),
    data: &Grid<T>,
    layer: TerrainLayer,
) -> bool {
    let g0 = old.layer_grid(layer).unwrap();
    let g1 = new.layer_grid(layer).unwrap();
    let w = landing(
        data.height_spec() as int,
        data.width_spec() as int,
        g0.height_spec() as int,
        g0.width_spec() as int,
        offset.0 as int,
        offset.1 as int,
    );
    &&& new.layer_grid(layer).is_some()
    &&& new.layers@.len() == old.layers@.len()
    &&& forall|i: int| 0 <= i < old.layers@.len() ==> (#[trigger] new.layers@[i]).0 == old.layers@[i].0
    &&& g1.height_spec() == g0.height_spec()
    &&& g1.width_spec() == g0.width_spec()
    &&& forall|r: int, c: int|
        #![trigger g1.at(r, c)]
        g1.in_bounds(r, c) ==> g1.at(r, c) == if Grid::<T>::covers(data, offset.0 as int, offset.1 as int, r, c) {
            data.at(r - offset.0, c - offset.1)
        } else {
            g0.at(r, c)
        }
    &&& forall|l: TerrainLayer| #![trigger new.layer_grid(l)] l != layer ==> new.layer_grid(l) == old.layer_grid(l)
    &&& new.block_rows() == old.block_rows()
    &&& new.block_cols() == old.block_cols()
    &&& forall|i: int, j: int|
        #![trigger new.block(i, j)]
        old.has_block(i, j) ==> new.block(i, j).range == old.block(i, j).range
            && new.block(i, j).block_num == old.block(i, j).block_num
            && new.block(i, j).dirty == (old.block(i, j).dirty || (w.is_some()
            && old.block(i, j).range.overlaps_spec(&w.unwrap())))
}

impl<T: Copy> TerrainData<T> {
    /// Gives each layer of `layers` a grid of the terrain's point dimensions
    /// holding `fill`, and rebuilds the block table with every block clean.
    pub fn reset(&mut self, terrain: &Terrain, layers: &Vec<TerrainLayer>, fill: T)
        requires
            old(self).wf(),
            terrain.wf(),
        ensures
            final(self).wf(),
            forall|l: TerrainLayer| #![trigger final(self).layer_grid(l)] layers@.contains(l) ==> {
                let g = final(self).layer_grid(l).unwrap();
                &&& final(self).layer_grid(l).is_some()
                &&& g.height_spec() == terrain.point_dims[0]
                &&& g.width_spec() == terrain.point_dims[1]
                &&& forall|r: int, c: int| g.in_bounds(r, c) ==> #[trigger] g.at(r, c) == fill
            },
            forall|l: TerrainLayer| #![trigger final(self).layer_grid(l)] !layers@.contains(l) ==>
                final(self).layer_grid(l) == old(self).layer_grid(l),
            final(self).block_rows() == terrain.num_blocks[0],
            forall|i: int| 0 <= i < final(self).block_rows() ==> (#[trigger] final(self).block_info@[i])@.len() == terrain.num_blocks[1],
            forall|i: int, j: int|
                #![trigger final(self).block(i, j)]
                0 <= i < terrain.num_blocks[0] && 0 <= j < terrain.num_blocks[1] ==> final(self).block(i, j)
                    == (BlockInfo {
                    block_num: (i as usize, j as usize),
                    range: block_rect(i, j, terrain.block_size as int),
                    dirty: false,
                }),
    {
        let ghost old_s = *self;
        let mut k: usize = 0;
        while k < layers.len()
            invariant
                k <= layers@.len(),
                self.wf(),
                terrain.wf(),
                forall|l: TerrainLayer| #![trigger self.layer_grid(l)] layers@.subrange(0, k as int).contains(l) ==> {
                    let g = self.layer_grid(l).unwrap();
                    &&& self.layer_grid(l).is_some()
                    &&& g.height_spec() == terrain.point_dims[0]
                    &&& g.width_spec() == terrain.point_dims[1]
                    &&& forall|r: int, c: int| g.in_bounds(r, c) ==> #[trigger] g.at(r, c) == fill
                },
                forall|l: TerrainLayer| #![trigger self.layer_grid(l)] !layers@.subrange(0, k as int).contains(l) ==>
                    self.layer_grid(l) == old_s.layer_grid(l),
            decreases layers@.len() - k,
        {
            let layer = layers[k];
            let grid = Grid::filled(terrain.point_dims[0], terrain.point_dims[1], fill);
            let ghost before = *self;
            proof { lemma_layer_pos(before.layers@, layer); }
            match self.find_layer(layer) {
                Some(idx) => {
                    self.layers.set(idx, (layer, grid));
                    proof {
                        lemma_layer_pos(before.layers@, layer);
                        assert forall|l: TerrainLayer| layer_pos(self.layers@, l) == layer_pos(before.layers@, l) by {
                            lemma_layer_pos_update(before.layers@, idx as int, (layer, grid), l);
                        }
                    }
                },
                None => {
                    self.layers.push((layer, grid));
                    proof {
                        assert forall|l: TerrainLayer| layer_pos(self.layers@, l) == if layer == l { before.layers@.len() as int } else { layer_pos(before.layers@, l) } by {
                            lemma_layer_pos_push(before.layers@, (layer, grid), l);
                        }
                    }
                },
            }
            proof {
                assert(layers@.subrange(0, k + 1) =~= layers@.subrange(0, k as int).push(layer));
                assert forall|l: TerrainLayer| layers@.subrange(0, k + 1).contains(l) <==> (layers@.subrange(0, k as int).contains(l) || l == layer) by {
                    if layers@.subrange(0, k as int).contains(l) {
                        let w = choose|w: int| 0 <= w < k && #[trigger] layers@.subrange(0, k as int)[w] == l;
                        assert(layers@.subrange(0, k + 1)[w] == l);
                    }
                    if l == layer {
                        assert(layers@.subrange(0, k + 1)[k as int] == l);
                    }
                    if layers@.subrange(0, k + 1).contains(l) && l != layer {
                        let w = choose|w: int| 0 <= w < k + 1 && #[trigger] layers@.subrange(0, k + 1)[w] == l;
                        assert(layers@.subrange(0, k as int)[w] == l);
                    }
                }
                lemma_layer_pos(self.layers@, layer);
                assert forall|l: TerrainLayer| #![trigger self.layer_grid(l)] l != layer ==> self.layer_grid(l) == before.layer_grid(l) by {
                    lemma_layer_pos(self.layers@, l);
                    lemma_layer_pos(before.layers@, l);
                }
            }
            k += 1;
        }
        assert(layers@.subrange(0, layers@.len() as int) =~= layers@);
        let nb0 = terrain.num_blocks[0];
        let nb1 = terrain.num_blocks[1];
        let bs = terrain.block_size;
        let mut table: Vec<Vec<BlockInfo>> = Vec::new();
        let mut r: usize = 0;
        while r < nb0
            invariant
                terrain.wf(),
                nb0 == terrain.num_blocks[0],
                nb1 == terrain.num_blocks[1],
                bs == terrain.block_size,
                r <= nb0,
                table@.len() == r,
                forall|i: int| 0 <= i < r ==> (#[trigger] table@[i])@.len() == nb1,
                forall|i: int, j: int|
                    0 <= i < r && 0 <= j < nb1 ==> #[trigger] table@[i]@[j] == (BlockInfo {
                        block_num: (i as usize, j as usize),
                        range: block_rect(i, j, bs as int),
                        dirty: false,
                    }),
            decreases nb0 - r,
        {
            assert((r + 1) * bs <= nb0 * bs) by (nonlinear_arith)
                requires r < nb0, bs > 0;
            table.push(block_row(r, nb1, bs));
            r += 1;
        }
        let ghost mid = *self;
        self.block_info = table;
        assert(self.layers == mid.layers);
        assert forall|l: TerrainLayer| #[trigger] self.layer_grid(l) == mid.layer_grid(l) by {}
    }

    /// Copies the part of `data` that lands inside the grid of `layer` when
    /// `data`'s origin is placed at `offset` (row, column; either may be
    /// negative or overhang), then marks dirty every block whose rectangle
    /// meets the destination rectangle written.  Nothing happens when no cell
    /// lands inside.
    pub fn set_elevation(&mut self, offset: (isize, isize), data: &Grid<T>, layer: TerrainLayer)
        requires
            old(self).wf(),
            data.wf(),
            old(self).layer_grid(layer).is_some(),
            old(self).layer_grid(layer).unwrap().height_spec() <= isize::MAX,
            old(self).layer_grid(layer).unwrap().width_spec() <= isize::MAX,
            data.height_spec() <= isize::MAX,
            data.width_spec() <= isize::MAX,
            offset.0 > isize::MIN,
            offset.1 > isize::MIN,
            offset.0 + data.height_spec() <= isize::MAX,
            offset.1 + data.width_spec() <= isize::MAX,
        ensures
            final(self).wf(),
            elevation_written(old(self), final(self), offset, data, layer),
    {
        let ghost old_s = *self;
        proof { lemma_layer_pos(self.layers@, layer); }
        let idx = match self.find_layer(layer) {
            Some(idx) => idx,
            None => { return; },
        };
        let ghost g0 = self.layers@[idx as int].1;
        let written = self.layers[idx].1.copy_patch(data, offset);
        proof {
            let g1 = self.layers@[idx as int].1;
            assert(self.layers@ == old_s.layers@.update(idx as int, (layer, g1)));
            assert forall|l: TerrainLayer| layer_pos(self.layers@, l) == layer_pos(old_s.layers@, l) by {
                lemma_layer_pos_update(old_s.layers@, idx as int, (layer, g1), l);
            }
            assert forall|l: TerrainLayer| #![trigger self.layer_grid(l)] l != layer ==> self.layer_grid(l) == old_s.layer_grid(l) by {
                lemma_layer_pos(self.layers@, l);
                lemma_layer_pos(old_s.layers@, l);
            }
        }
        let ghost mid = *self;
        match written {
            Some(w) => { self.dirty_range(&w); },
            None => {},
        }
        assert forall|l: TerrainLayer| #[trigger] self.layer_grid(l) == mid.layer_grid(l) by {}
    }

    /// The elevation stored at `(row, col)`, or `None` when the map has no
    /// elevation layer or the point lies outside it.
    pub fn elevation_at(&self, row: usize, col: usize) -> (r: Option<T>)
        requires
            self.wf(),
        ensures
            r == (match self.layer_grid(TerrainLayer::Elevation) {
                Some(g) => if g.in_bounds(row as int, col as int) { Some(g.at(row as int, col as int)) } else { None },
                None => None,
            }),
    {
        proof { lemma_layer_pos(self.layers@, TerrainLayer::Elevation); }
        match self.find_layer(TerrainLayer::Elevation) {
            Some(idx) => {
                let (h, w) = self.layers[idx].1.dim();
                if row < h && col < w {
                    Some(self.layers[idx].1.get(row, col))
                } else {
                    None
                }
            },
            None => None,
        }
    }
}

} // verus!
