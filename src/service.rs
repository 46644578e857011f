use vstd::prelude::*;
use crate::grid::Grid;
use crate::mesh_tree::{
    halved, lemma_halved_pow2, lemma_pow2_pos, pow2, BlockId, BlockKind, MeshId, MeshTree,
};
use crate::rendering::{
    block_range, blocks_needed, dirty_blocks, first_dirty, level_span, needed_for, select_meshes, shown,
    MAX_MESH_TREE_LEVEL, RENDERS_PER_FRAME,
};
use crate::terrain::{block_rect, BLOCK_SIZE, elevation_written, lemma_layer_pos, layer_pos, Terrain, TerrainData, TerrainLayer};
use crate::utils::Range2;

verus! {

/// A mesh to build: block `block` of layer `layer`, from the points of
/// `range` taken every `spacing` points.
#[derive(Debug)]
pub struct BuildOrder {
    pub layer: TerrainLayer,
    pub block: BlockId,
    pub range: Range2,
    pub spacing: usize,
}

/// The build order for `block` with finest blocks of `bs` cells.
pub open spec fn order_for(layer: TerrainLayer, block: BlockId, bs: int) -> BuildOrder {
    BuildOrder {
        layer,
        block,
        range: block_rect(block.row as int, block.col as int, pow2(block.level as nat) * bs),
        spacing: pow2(block.level as nat) as usize,
    }
}

/// A block inside the map of a tree over `nb0` x `nb1` finest blocks of
/// `bs` cells covers points inside the map.
proof fn lemma_block_fits(t: &MeshTree, b: BlockId, bs: int, nb0: int, nb1: int)
    requires
        t.wf(),
        t.has(b),
        !(t.kind(b) is Invalid),
        t.height == nb0,
        t.width == nb1,
        bs > 0,
        nb0 * bs + 1 <= usize::MAX,
        nb1 * bs + 1 <= usize::MAX,
    ensures
        (b.row + 1) * pow2(b.level as nat) * bs + 1 <= nb0 * bs + 1,
        (b.col + 1) * pow2(b.level as nat) * bs + 1 <= nb1 * bs + 1,
        pow2(b.level as nat) <= usize::MAX,
{
    let p = pow2(b.level as nat);
    lemma_pow2_pos(b.level as nat);
    lemma_halved_pow2(nb0, b.level as nat);
    lemma_halved_pow2(nb1, b.level as nat);
    let h0 = halved(nb0, b.level as nat);
    let h1 = halved(nb1, b.level as nat);
    assert(b.row + 1 <= h0 && b.col + 1 <= h1);
    assert((b.row + 1) * p * bs <= nb0 * bs) by (nonlinear_arith)
        requires b.row + 1 <= h0, h0 * p <= nb0, p >= 1, bs > 0;
    assert((b.col + 1) * p * bs <= nb1 * bs) by (nonlinear_arith)
        requires b.col + 1 <= h1, h1 * p <= nb1, p >= 1, bs > 0;
    assert(p <= (b.row + 1) * p * bs) by (nonlinear_arith)
        requires p >= 1, bs > 0;
}

/// The map's terrain: layout, elevation grids with their dirty tracking,
/// and one mesh tree per layer.
pub struct TerrainService<T> {
    pub terrain: Terrain,
    pub data: TerrainData<T>,
    /// `trees[i]` belongs to the layer of `data.layers[i]`.
    pub trees: Vec<(TerrainLayer, MeshTree)>,
}

impl<T> TerrainService<T> {
    pub open spec fn wf(&self) -> bool {
        &&& self.terrain.wf()
        &&& self.data.wf()
        &&& self.trees@.len() == self.data.layers@.len()
        &&& forall|i: int|
            0 <= i < self.trees@.len() ==> {
                let t = (#[trigger] self.trees@[i]).1;
                &&& self.trees@[i].0 == self.data.layers@[i].0
                &&& t.wf()
                &&& t.height == self.terrain.num_blocks[0]
                &&& t.width == self.terrain.num_blocks[1]
            }
        &&& self.data.block_rows() == self.terrain.num_blocks[0]
        &&& self.terrain.num_blocks[0] > 0 ==> self.data.block_cols() == self.terrain.num_blocks[1]
        &&& forall|i: int, j: int|
            #[trigger] self.data.has_block(i, j) ==> self.data.block(i, j).block_num == (i as usize, j as usize)
                && self.data.block(i, j).range == block_rect(i, j, self.terrain.block_size as int)
        &&& forall|l: TerrainLayer| #[trigger] self.data.layer_grid(l).is_some() ==> {
            &&& self.data.layer_grid(l).unwrap().height_spec() == self.terrain.point_dims[0]
            &&& self.data.layer_grid(l).unwrap().width_spec() == self.terrain.point_dims[1]
        }
    }

    /// The mesh tree of `layer`, if the map has that layer.
    pub open spec fn tree(&self, layer: TerrainLayer) -> Option<MeshTree> {
        let p = layer_pos(self.data.layers@, layer);
        if p >= 0 { Some(self.trees@[p].1) } else { None }
    }

    /// An empty map: no cells, no layers.
    pub fn new() -> (r: TerrainService<T>)
        ensures
            r.wf(),
            r.terrain.size == [0usize, 0usize],
            r.data.layers@.len() == 0,
    {
        let terrain = Terrain { size: [0, 0], block_size: BLOCK_SIZE, num_blocks: [0, 0], point_dims: [1, 1] };
        TerrainService { terrain, data: TerrainData::new(), trees: Vec::new() }
    }
}

impl<T: Copy> TerrainService<T> {
    /// Lays out a map of `size` cells with the given layers, every point at
    /// `fill`, every block clean and every mesh tree empty.
    pub fn reset(&mut self, size: [usize; 2], layers: &Vec<TerrainLayer>, fill: T)
        requires
            size[0] < usize::MAX,
            size[1] < usize::MAX,
        ensures
            final(self).wf(),
            final(self).terrain.size == size,
            forall|l: TerrainLayer| #[trigger] final(self).data.layer_grid(l).is_some() <==> layers@.contains(l),
            forall|l: TerrainLayer, r: int, c: int|
                layers@.contains(l) && final(self).data.layer_grid(l).unwrap().in_bounds(r, c)
                    ==> #[trigger] final(self).data.layer_grid(l).unwrap().at(r, c) == fill,
            forall|i: int, j: int| #[trigger] final(self).data.has_block(i, j) ==> !final(self).data.block(i, j).dirty,
            forall|l: TerrainLayer| #[trigger] layers@.contains(l) ==> final(self).tree(l).is_some()
                && final(self).tree(l).unwrap().is_fresh(final(self).terrain.num_blocks, MAX_MESH_TREE_LEVEL),
    {
        self.terrain.reset(size);
        assert(self.terrain.num_blocks[0] <= usize::MAX / 4 && self.terrain.num_blocks[1] <= usize::MAX / 4);
        let mut data = TerrainData::new();
        let ghost empty = data;
        data.reset(&self.terrain, layers, fill);
        let mut trees: Vec<(TerrainLayer, MeshTree)> = Vec::new();
        let mut k: usize = 0;
        while k < data.layers.len()
            invariant
                self.terrain.wf(),
                self.terrain.num_blocks[0] <= usize::MAX / 4,
                self.terrain.num_blocks[1] <= usize::MAX / 4,
                data.wf(),
                k <= data.layers@.len(),
                trees@.len() == k,
                forall|i: int|
                    0 <= i < k ==> {
                        let t = (#[trigger] trees@[i]).1;
                        &&& trees@[i].0 == data.layers@[i].0
                        &&& t.is_fresh(self.terrain.num_blocks, MAX_MESH_TREE_LEVEL)
                    },
            decreases data.layers@.len() - k,
        {
            let layer = data.layers[k].0;
            trees.push((layer, MeshTree::new(self.terrain.num_blocks, MAX_MESH_TREE_LEVEL)));
            k += 1;
        }
        self.data = data;
        self.trees = trees;
        proof {
            assert forall|l: TerrainLayer| #[trigger] self.data.layer_grid(l).is_some() <==> layers@.contains(l) by {
                assert(empty.layer_grid(l).is_none());
            }
            assert forall|l: TerrainLayer| #[trigger] layers@.contains(l) implies self.tree(l).is_some()
                && self.tree(l).unwrap().is_fresh(self.terrain.num_blocks, MAX_MESH_TREE_LEVEL) by {
                assert(self.data.layer_grid(l).is_some());
                lemma_layer_pos(self.data.layers@, l);
            }
            assert forall|i: int, j: int| #[trigger] self.data.has_block(i, j) implies self.data.block(i, j).block_num == (i as usize, j as usize)
                && self.data.block(i, j).range == block_rect(i, j, self.terrain.block_size as int) by {
                assert(self.data.block_info@[i]@.len() == self.terrain.num_blocks[1]);
            }
        }
    }

    /// Whether the map has `layer`.
    pub fn has_layer(&self, layer: TerrainLayer) -> (r: bool)
        ensures
            r == self.data.layer_grid(layer).is_some(),
    {
        self.data.find_layer(layer).is_some()
    }

    /// Whether a patch of `data` placed at `offset` can be copied into
    /// `layer` without any index leaving `isize`.
    pub open spec fn can_copy(&self, layer: TerrainLayer, offset: (isize, isize), data: &Grid<T>) -> bool {
        &&& self.data.layer_grid(layer).is_some()
        &&& self.data.layer_grid(layer).unwrap().height_spec() <= isize::MAX
        &&& self.data.layer_grid(layer).unwrap().width_spec() <= isize::MAX
        &&& data.height_spec() <= isize::MAX
        &&& data.width_spec() <= isize::MAX
        &&& offset.0 > isize::MIN
        &&& offset.1 > isize::MIN
        &&& offset.0 + data.height_spec() <= isize::MAX
        &&& offset.1 + data.width_spec() <= isize::MAX
    }

    /// Copies elevation data into `layer` at `offset` and marks the blocks it
    /// touches dirty.  Returns `false`, changing nothing, when the map has no
    /// such layer or the indices would not fit in `isize`.
    pub fn set_elevation(&mut self, layer: TerrainLayer, offset: (isize, isize), data: &Grid<T>) -> (r: bool)
        requires
            old(self).wf(),
            data.wf(),
        ensures
            final(self).wf(),
            r == old(self).can_copy(layer, offset, data),
            r ==> elevation_written(&old(self).data, &final(self).data, offset, data, layer),
            !r ==> *final(self) == *old(self),
            final(self).terrain == old(self).terrain,
            final(self).trees == old(self).trees,
    {
        proof { lemma_layer_pos(self.data.layers@, layer); }
        let idx = match self.data.find_layer(layer) {
            Some(i) => i,
            None => { return false; },
        };
        let (gh, gw) = self.data.layers[idx].1.dim();
        let (dh, dw) = data.dim();
        let max = isize::MAX as usize;
        if gh > max || gw > max || dh > max || dw > max || offset.0 == isize::MIN || offset.1 == isize::MIN {
            return false;
        }
        if offset.0 > isize::MAX - dh as isize || offset.1 > isize::MAX - dw as isize {
            return false;
        }
        let ghost old_s = *self;
        self.data.set_elevation(offset, data, layer);
        proof {
            assert forall|i: int, j: int| #[trigger] self.data.has_block(i, j) implies self.data.block(i, j).block_num == (i as usize, j as usize)
                && self.data.block(i, j).range == block_rect(i, j, self.terrain.block_size as int) by {
                assert(old_s.data.has_block(i, j));
            }
            assert forall|l: TerrainLayer| #[trigger] self.data.layer_grid(l).is_some() implies {
                &&& self.data.layer_grid(l).unwrap().height_spec() == self.terrain.point_dims[0]
                &&& self.data.layer_grid(l).unwrap().width_spec() == self.terrain.point_dims[1]
            } by {
                if l != layer {
                    assert(old_s.data.layer_grid(l).is_some());
                } else {
                    assert(old_s.data.layer_grid(layer).is_some());
                }
            }
        }
        true
    }

    /// The elevation stored at `(row, col)`, if the map has an elevation
    /// layer and the point lies on it.
    pub fn elevation_at(&self, row: usize, col: usize) -> (r: Option<T>)
        requires
            self.wf(),
        ensures
            r == (match self.data.layer_grid(TerrainLayer::Elevation) {
                Some(g) => if g.in_bounds(row as int, col as int) { Some(g.at(row as int, col as int)) } else { None },
                None => None,
            }),
    {
        self.data.elevation_at(row, col)
    }

    /// The first dirty blocks, at most one frame's budget, in row-major
    /// order.
    pub fn dirty_batch(&self) -> (r: Vec<(usize, usize)>)
        requires
            self.wf(),
        ensures
            first_dirty(&self.data, RENDERS_PER_FRAME, r@),
    {
        dirty_blocks(&self.data, RENDERS_PER_FRAME)
    }

    /// The meshes to build in `layer` for a batch of dirty blocks: one per
    /// block of the batch and per ancestor inside the map, coarsest first.
    pub fn build_orders(&self, layer: TerrainLayer, batch: &Vec<(usize, usize)>) -> (r: Vec<BuildOrder>)
        requires
            self.wf(),
            self.data.layer_grid(layer).is_some(),
        ensures
            exists|needed: Seq<BlockId>| {
                &&& #[trigger] needed_for(&self.tree(layer).unwrap(), batch@, needed)
                &&& r@.len() == needed.len()
                &&& forall|i: int| 0 <= i < needed.len() ==> #[trigger] r@[i] == order_for(layer, needed[i], self.terrain.block_size as int)
            },
    {
        proof { lemma_layer_pos(self.data.layers@, layer); }
        let idx = match self.data.find_layer(layer) {
            Some(i) => i,
            None => { return Vec::new(); },
        };
        let tree = &self.trees[idx].1;
        let needed = blocks_needed(tree, batch);
        let bs = self.terrain.block_size;
        let mut out: Vec<BuildOrder> = Vec::new();
        let mut k: usize = 0;
        while k < needed.len()
            invariant
                self.wf(),
                idx == layer_pos(self.data.layers@, layer),
                0 <= idx < self.trees@.len(),
                *tree == self.trees@[idx as int].1,
                bs == self.terrain.block_size,
                needed_for(tree, batch@, needed@),
                k <= needed@.len(),
                out@.len() == k,
                forall|i: int| 0 <= i < k ==> #[trigger] out@[i] == order_for(layer, needed@[i], bs as int),
            decreases needed@.len() - k,
        {
            let b = needed[k];
            proof { lemma_block_fits(tree, b, bs as int, self.terrain.num_blocks[0] as int, self.terrain.num_blocks[1] as int); }
            let range = block_range(bs, b);
            let spacing = level_span(b.level);
            out.push(BuildOrder { layer, block: b, range, spacing });
            k += 1;
        }
        proof {
            assert(self.tree(layer).unwrap() == *tree);
            assert(needed_for(&self.tree(layer).unwrap(), batch@, needed@));
        }
        out
    }

    /// Marks a batch clean once its meshes are scheduled in every layer.
    pub fn finish_batch(&mut self, batch: &Vec<(usize, usize)>)
        requires
            old(self).wf(),
            forall|k: int| 0 <= k < batch@.len() ==> old(self).data.has_block(#[trigger] batch@[k].0 as int, batch@[k].1 as int),
        ensures
            final(self).wf(),
            final(self).terrain == old(self).terrain,
            final(self).trees == old(self).trees,
            final(self).data.layers == old(self).data.layers,
            forall|i: int, j: int|
                #![trigger final(self).data.block(i, j)]
                old(self).data.has_block(i, j) ==> final(self).data.block(i, j).range == old(self).data.block(i, j).range
                    && final(self).data.block(i, j).dirty == (old(self).data.block(i, j).dirty
                    && !batch@.contains((i as usize, j as usize))),
    {
        let ghost old_s = *self;
        self.data.clear_dirty(batch);
        proof {
            assert forall|l: TerrainLayer| #[trigger] self.data.layer_grid(l) == old_s.data.layer_grid(l) by {}
            assert forall|i: int, j: int| #[trigger] self.data.has_block(i, j) implies self.data.block(i, j).block_num == (i as usize, j as usize)
                && self.data.block(i, j).range == block_rect(i, j, self.terrain.block_size as int) by {
                assert(old_s.data.has_block(i, j));
            }
        }
    }

    /// Installs mesh `id` for `block` of `layer` and hands back the mesh it
    /// replaces, if any.  Does nothing and returns `None` when the map has no
    /// such layer or the block is not a node of its tree inside the map.
    pub fn install_mesh(&mut self, layer: TerrainLayer, block: BlockId, id: MeshId) -> (r: Option<MeshId>)
        requires
            old(self).wf(),
        ensures
            final(self).wf(),
            final(self).terrain == old(self).terrain,
            final(self).data == old(self).data,
            ({
                let ok = old(self).tree(layer).is_some() && old(self).tree(layer).unwrap().has(block)
                    && !(old(self).tree(layer).unwrap().kind(block) is Invalid);
                &&& !ok ==> *final(self) == *old(self) && r.is_none()
                &&& ok ==> {
                    let t0 = old(self).tree(layer).unwrap();
                    let t1 = final(self).tree(layer).unwrap();
                    &&& final(self).tree(layer).is_some()
                    &&& t1.kind(block) == BlockKind::Populated(id)
                    &&& forall|b: BlockId| #[trigger] t0.has(b) && b != block ==> t1.has(b) && t1.kind(b) == t0.kind(b)
                    &&& r == (match t0.kind(block) {
                        BlockKind::Populated(old_id) => Some(old_id),
                        _ => None,
                    })
                }
            }),
            forall|l: TerrainLayer| l != layer ==> #[trigger] final(self).tree(l) == old(self).tree(l),
    {
        proof { lemma_layer_pos(self.data.layers@, layer); }
        let idx = match self.data.find_layer(layer) {
            Some(i) => i,
            None => { return None; },
        };
        if !self.trees[idx].1.contains_block(block) || !self.trees[idx].1.valid(block) {
            return None;
        }
        let ghost old_s = *self;
        let previous = self.trees[idx].1.set_mesh(block, BlockKind::Populated(id));
        proof {
            let t0 = old_s.trees@[idx as int].1;
            let t1 = self.trees@[idx as int].1;
            assert forall|i: int| 0 <= i < self.trees@.len() implies #[trigger] self.trees@[i] == if i == idx {
                (layer, t1)
            } else {
                old_s.trees@[i]
            } by {}
            assert forall|b: BlockId| #[trigger] t0.has(b) implies t1.has(b) by {
                assert(t1.levels@.len() == t0.levels@.len());
                assert(t1.rows_at(b.level as int) == t0.rows_at(b.level as int));
                assert(t1.cols_at(b.level as int) == t0.cols_at(b.level as int));
            }
            assert forall|l: TerrainLayer| l != layer implies #[trigger] self.tree(l) == old_s.tree(l) by {
                lemma_layer_pos(self.data.layers@, l);
            }
        }
        previous
    }

    /// The blocks of `layer` whose meshes are shown for a camera `near` the
    /// listed blocks.
    pub fn select(&self, layer: TerrainLayer, near: &Vec<BlockId>) -> (r: Vec<BlockId>)
        requires
            self.wf(),
            self.data.layer_grid(layer).is_some(),
        ensures
            forall|x: BlockId| #[trigger] r@.contains(x) <==> shown(&self.tree(layer).unwrap(), near@, x),
    {
        proof { lemma_layer_pos(self.data.layers@, layer); }
        let idx = match self.data.find_layer(layer) {
            Some(i) => i,
            None => { return Vec::new(); },
        };
        let r = select_meshes(&self.trees[idx].1, near);
        proof { assert(self.tree(layer).unwrap() == self.trees@[idx as int].1); }
        r
    }
}

} // verus!
