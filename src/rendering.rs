use vstd::prelude::*;
use crate::mesh_tree::{
    ancestor, ancestor_at, children_of, lemma_ancestor_level, lemma_child_parent, lemma_row_bound,
    lemma_under_child, lemma_under_parent, parent_of, pow2, under, BlockId, MeshTree,
};
use crate::terrain::{block_rect, TerrainData};
use crate::utils::Range2;

verus! {

/// Dirty blocks rebuilt per frame at most.
pub const RENDERS_PER_FRAME: usize = 16;

/// Deepest level a mesh tree is built with.
pub const MAX_MESH_TREE_LEVEL: usize = 4;

/// `2^level`: the number of finest blocks along each edge of a block of
/// that level, and the sampling stride used to mesh it.
pub fn level_span(level: usize) -> (r: usize)
    requires
        pow2(level as nat) <= usize::MAX,
    ensures
        r == pow2(level as nat),
{
    let mut span: usize = 1;
    let mut i: usize = 0;
    while i < level
        invariant
            i <= level,
            span == pow2(i as nat),
            pow2(level as nat) <= usize::MAX,
        decreases level - i,
    {
        proof { crate::mesh_tree::lemma_pow2_mono((i + 1) as nat, level as nat); }
        span = span * 2;
        i += 1;
    }
    span
}

/// The point rectangle covered by a block of any level, for finest blocks of
/// `block_size` cells.
pub fn block_range(block_size: usize, block_id: BlockId) -> (r: Range2)
    requires
        block_size >= 1,
        (block_id.row + 1) * pow2(block_id.level as nat) * block_size + 1 <= usize::MAX,
        (block_id.col + 1) * pow2(block_id.level as nat) * block_size + 1 <= usize::MAX,
    ensures
        r == block_rect(block_id.row as int, block_id.col as int, pow2(block_id.level as nat) * block_size),
{
    let ghost p = pow2(block_id.level as nat);
    proof {
        crate::mesh_tree::lemma_pow2_pos(block_id.level as nat);
        assert(p <= p * block_size && p * block_size <= (block_id.row + 1) * p * block_size
            && block_id.row + 1 <= (block_id.row + 1) * p * block_size
            && block_id.col + 1 <= (block_id.col + 1) * p * block_size) by (nonlinear_arith)
            requires p >= 1, block_size >= 1;
        assert((block_id.row + 1) * (p * block_size) == (block_id.row + 1) * p * block_size
            && (block_id.col + 1) * (p * block_size) == (block_id.col + 1) * p * block_size) by (nonlinear_arith);
        assert((block_id.row + 1) * p * block_size == block_id.row * (p * block_size) + p * block_size
            && (block_id.col + 1) * p * block_size == block_id.col * (p * block_size) + p * block_size)
            by (nonlinear_arith);
        assert(block_id.row * (p * block_size) <= (block_id.row + 1) * p * block_size
            && block_id.col * (p * block_size) <= (block_id.col + 1) * p * block_size) by (nonlinear_arith)
            requires p >= 1;
    }
    let level_block_size = level_span(block_id.level) * block_size;
    let (row, col) = (block_id.row, block_id.col);
    Range2(
        row * level_block_size..(row + 1) * level_block_size + 1,
        col * level_block_size..(col + 1) * level_block_size + 1,
    )
}


/// Row-major order on block coordinates.
pub open spec fn before(a: (usize, usize), b: (usize, usize)) -> bool {
    a.0 < b.0 || (a.0 == b.0 && a.1 < b.1)
}

/// `r` lists the first `limit` dirty blocks of `data` in row-major order
/// (all of them when there are fewer).
pub open spec fn first_dirty<T>(data: &TerrainData<T>, limit: usize, r: Seq<(usize, usize)>) -> bool {
    &&& r.len() <= limit
    &&& forall|k: int| 0 <= k < r.len() ==> data.has_block(#[trigger] r[k].0 as int, r[k].1 as int)
        && data.block(r[k].0 as int, r[k].1 as int).dirty
    &&& forall|k: int, m: int| 0 <= k < m < r.len() ==> before(#[trigger] r[k], #[trigger] r[m])
    &&& forall|i: int, j: int|
        #![trigger data.block(i, j)]
        data.has_block(i, j) && data.block(i, j).dirty && (r.len() < limit || (r.len() > 0 && before(
            (i as usize, j as usize),
            r.last(),
        ))) ==> r.contains((i as usize, j as usize))
}

/// The first `limit` dirty blocks in row-major order (all of them when there
/// are fewer).
pub fn dirty_blocks<T>(data: &TerrainData<T>, limit: usize) -> (r: Vec<(usize, usize)>)
    requires
        data.wf(),
    ensures
        first_dirty(data, limit, r@),
{
    let mut out: Vec<(usize, usize)> = Vec::new();
    if limit == 0 {
        return out;
    }
    let n_rows = data.block_info.len();
    let mut i: usize = 0;
    while i < n_rows
        invariant
            data.wf(),
            limit > 0,
            n_rows == data.block_rows(),
            i <= n_rows,
            out@.len() < limit,
            forall|k: int| 0 <= k < out@.len() ==> data.has_block(#[trigger] out@[k].0 as int, out@[k].1 as int)
                && data.block(out@[k].0 as int, out@[k].1 as int).dirty && out@[k].0 < i,
            forall|k: int, m: int| 0 <= k < m < out@.len() ==> before(#[trigger] out@[k], #[trigger] out@[m]),
            forall|a: int, b: int|
                #![trigger data.block(a, b)]
                data.has_block(a, b) && data.block(a, b).dirty && a < i ==> out@.contains((a as usize, b as usize)),
        decreases n_rows - i,
    {
        let n_cols = data.block_info[i].len();
        let mut j: usize = 0;
        while j < n_cols
            invariant
                data.wf(),
                limit > 0,
                n_rows == data.block_rows(),
                i < n_rows,
                n_cols == data.block_cols(),
                j <= n_cols,
                out@.len() < limit,
                forall|k: int| 0 <= k < out@.len() ==> data.has_block(#[trigger] out@[k].0 as int, out@[k].1 as int)
                    && data.block(out@[k].0 as int, out@[k].1 as int).dirty && before(out@[k], (i, j)),
                forall|k: int, m: int| 0 <= k < m < out@.len() ==> before(#[trigger] out@[k], #[trigger] out@[m]),
                forall|a: int, b: int|
                    #![trigger data.block(a, b)]
                    data.has_block(a, b) && data.block(a, b).dirty && before((a as usize, b as usize), (i, j))
                        ==> out@.contains((a as usize, b as usize)),
            decreases n_cols - j,
        {
            if data.block_info[i][j].dirty {
                let ghost prev = out@;
                out.push((i, j));
                proof {
                    assert forall|a: int, b: int|
                        #![trigger data.block(a, b)]
                        data.has_block(a, b) && data.block(a, b).dirty && before((a as usize, b as usize), (i, (j + 1) as usize))
                            implies out@.contains((a as usize, b as usize)) by {
                        if a == i && b == j {
                            assert(out@[prev.len() as int] == (i, j));
                        } else {
                            assert(prev.contains((a as usize, b as usize)));
                            let w = choose|w: int| 0 <= w < prev.len() && prev[w] == (a as usize, b as usize);
                            assert(out@[w] == prev[w]);
                        }
                    }
                }
                if out.len() == limit {
                    proof {
                        assert forall|a: int, b: int|
                            #![trigger data.block(a, b)]
                            data.has_block(a, b) && data.block(a, b).dirty && before((a as usize, b as usize), out@.last())
                                implies out@.contains((a as usize, b as usize)) by {
                            assert(before((a as usize, b as usize), (i, (j + 1) as usize)));
                        }
                    }
                    return out;
                }
            }
            j += 1;
        }
        proof {
            assert forall|a: int, b: int|
                #![trigger data.block(a, b)]
                data.has_block(a, b) && data.block(a, b).dirty && a < i + 1 implies out@.contains((a as usize, b as usize)) by {
                if a == i {
                    assert(before((a as usize, b as usize), (i, j)));
                }
            }
        }
        i += 1;
    }
    out
}


/// The finest-level node of block `(row, col)`.
pub open spec fn leaf(p: (usize, usize)) -> BlockId {
    BlockId { row: p.0, col: p.1, level: 0 }
}

fn contains_id(v: &Vec<BlockId>, b: BlockId) -> (r: bool)
    ensures
        r == v@.contains(b),
{
    let mut i: usize = 0;
    while i < v.len()
        invariant
            i <= v@.len(),
            forall|k: int| 0 <= k < i ==> v@[k] != b,
        decreases v@.len() - i,
    {
        if v[i] == b {
            return true;
        }
        i += 1;
    }
    false
}

/// `r` lists, each once and coarsest level first, the finest `blocks` and
/// all their ancestors that lie inside the map.
pub open spec fn needed_for(tree: &MeshTree, blocks: Seq<(usize, usize)>, r: Seq<BlockId>) -> bool {
    &&& forall|k: int| 0 <= k < r.len() ==> tree.has(#[trigger] r[k]) && !(tree.kind(r[k]) is Invalid)
        && exists|m: int| 0 <= m < blocks.len() && r[k] == #[trigger] ancestor_at(leaf(blocks[m]), r[k].level as nat)
    &&& forall|k: int, m: int| 0 <= k < m < r.len() ==> #[trigger] r[k] != #[trigger] r[m] && r[k].level >= r[m].level
    &&& forall|m: int, l: nat|
        0 <= m < blocks.len() && l <= tree.top() && tree.has(#[trigger] ancestor_at(leaf(blocks[m]), l))
            && !(tree.kind(ancestor_at(leaf(blocks[m]), l)) is Invalid) ==> r.contains(ancestor_at(leaf(blocks[m]), l))
}

/// The nodes to rebuild for the dirty finest `blocks`: each block and all
/// its ancestors that lie inside the map, each once, coarsest level first.
pub fn blocks_needed(tree: &MeshTree, blocks: &Vec<(usize, usize)>) -> (r: Vec<BlockId>)
    requires
        tree.wf(),
    ensures
        needed_for(tree, blocks@, r@),
{
    let mut out: Vec<BlockId> = Vec::new();
    let n_levels = tree.levels.len();
    let top = n_levels - 1;
    let mut d: usize = 0;
    while d <= top
        invariant
            tree.wf(),
            top == tree.top(),
            top + 1 == tree.levels@.len(),
            tree.levels@.len() <= usize::MAX,
            d <= top + 1,
            forall|k: int| 0 <= k < out@.len() ==> tree.has(#[trigger] out@[k]) && !(tree.kind(out@[k]) is Invalid)
                && out@[k].level > top - d
                && exists|m: int| 0 <= m < blocks@.len() && out@[k] == #[trigger] ancestor_at(leaf(blocks@[m]), out@[k].level as nat),
            forall|k: int, m: int| 0 <= k < m < out@.len() ==> #[trigger] out@[k] != #[trigger] out@[m] && out@[k].level >= out@[m].level,
            forall|m: int, l: nat|
                0 <= m < blocks@.len() && top - d < l <= top && tree.has(#[trigger] ancestor_at(leaf(blocks@[m]), l))
                    && !(tree.kind(ancestor_at(leaf(blocks@[m]), l)) is Invalid) ==> out@.contains(ancestor_at(leaf(blocks@[m]), l)),
        decreases top + 1 - d,
    {
        let lvl = top - d;
        let mut i: usize = 0;
        while i < blocks.len()
            invariant
                tree.wf(),
                top == tree.top(),
                d <= top,
                lvl == top - d,
                i <= blocks@.len(),
                forall|k: int| 0 <= k < out@.len() ==> tree.has(#[trigger] out@[k]) && !(tree.kind(out@[k]) is Invalid)
                    && out@[k].level >= lvl
                    && exists|m: int| 0 <= m < blocks@.len() && out@[k] == #[trigger] ancestor_at(leaf(blocks@[m]), out@[k].level as nat),
                forall|k: int, m: int| 0 <= k < m < out@.len() ==> #[trigger] out@[k] != #[trigger] out@[m] && out@[k].level >= out@[m].level,
                forall|m: int, l: nat|
                    0 <= m < blocks@.len() && lvl < l <= top && tree.has(#[trigger] ancestor_at(leaf(blocks@[m]), l))
                        && !(tree.kind(ancestor_at(leaf(blocks@[m]), l)) is Invalid) ==> out@.contains(ancestor_at(leaf(blocks@[m]), l)),
                forall|m: int|
                    0 <= m < i && tree.has(#[trigger] ancestor_at(leaf(blocks@[m]), lvl as nat))
                        && !(tree.kind(ancestor_at(leaf(blocks@[m]), lvl as nat)) is Invalid) ==> out@.contains(ancestor_at(leaf(blocks@[m]), lvl as nat)),
            decreases blocks@.len() - i,
        {
            let (row, col) = blocks[i];
            let b = ancestor(BlockId { row, col, level: 0 }, lvl);
            assert(BlockId { row, col, level: 0 } == leaf(blocks@[i as int]));
            if tree.contains_block(b) && tree.valid(b) && !contains_id(&out, b) {
                let ghost prev = out@;
                out.push(b);
                proof {
                    assert forall|k: int| 0 <= k < out@.len() implies tree.has(#[trigger] out@[k]) && !(tree.kind(out@[k]) is Invalid)
                        && out@[k].level >= lvl
                        && exists|m: int| 0 <= m < blocks@.len() && out@[k] == #[trigger] ancestor_at(leaf(blocks@[m]), out@[k].level as nat) by {
                        if k < prev.len() {
                            assert(out@[k] == prev[k]);
                        } else {
                            assert(out@[k] == ancestor_at(leaf(blocks@[i as int]), out@[k].level as nat));
                        }
                    }
                    assert forall|k: int, m: int| 0 <= k < m < out@.len() implies #[trigger] out@[k] != #[trigger] out@[m] && out@[k].level >= out@[m].level by {
                        if m == prev.len() {
                            assert(prev[k] == out@[k]);
                            assert(!prev.contains(b));
                        }
                    }
                    assert forall|x: BlockId| prev.contains(x) implies out@.contains(x) by {
                        let w = choose|w: int| 0 <= w < prev.len() && prev[w] == x;
                        assert(out@[w] == x);
                    }
                    assert(out@[prev.len() as int] == b);
                }
            }
            i += 1;
        }
        d += 1;
    }
    out
}


/// Whether the selector looks below `b` rather than showing it: a node with a
/// mesh gives way to its children when it is above level 0, the camera is
/// `near` it, and all four children have meshes; a node without a mesh is
/// always looked through.
pub open spec fn descends(t: &MeshTree, near: Seq<BlockId>, b: BlockId) -> bool {
    if t.is_populated(b) {
        &&& b.level > 0
        &&& near.contains(b)
        &&& forall|k: int| 0 <= k < 4 ==> t.has(#[trigger] children_of(b)[k]) && t.is_populated(children_of(b)[k])
    } else {
        true
    }
}

/// Whether the selector's walk from the top level reaches `b`.
pub open spec fn reached(t: &MeshTree, near: Seq<BlockId>, b: BlockId) -> bool
    decreases t.levels@.len() - b.level when t.levels@.len() <= usize::MAX
{
    if !t.has(b) {
        false
    } else if b.level >= t.top() {
        true
    } else {
        reached(t, near, parent_of(b)) && descends(t, near, parent_of(b))
    }
}

/// Whether the mesh of `b` is shown.
pub open spec fn shown(t: &MeshTree, near: Seq<BlockId>, b: BlockId) -> bool {
    reached(t, near, b) && t.is_populated(b) && !descends(t, near, b)
}

proof fn lemma_reached_ancestors(t: &MeshTree, near: Seq<BlockId>, x: BlockId, n: nat)
    requires
        t.wf(),
        reached(t, near, x),
        0 < n,
        x.level + n <= t.top(),
    ensures
        reached(t, near, ancestor_at(x, n)),
        descends(t, near, ancestor_at(x, n)),
        ancestor_at(x, n).level == x.level + n,
    decreases n,
{
    lemma_ancestor_level(x, n);
    if n == 1 {
        assert(ancestor_at(x, 0) == x);
    } else {
        lemma_reached_ancestors(t, near, x, (n - 1) as nat);
        let y = ancestor_at(x, (n - 1) as nat);
        assert(ancestor_at(x, n) == parent_of(y));
    }
}

/// Appends to `out` the shown blocks at or below `b`, a block the walk
/// reaches.
fn select_block(tree: &MeshTree, near: &Vec<BlockId>, b: BlockId, out: &mut Vec<BlockId>)
    requires
        tree.wf(),
        reached(tree, near@, b),
    ensures
        forall|x: BlockId| #[trigger] final(out)@.contains(x) <==> (old(out)@.contains(x) || (under(b, x) && shown(tree, near@, x))),
    decreases b.level,
{
    let ghost start = out@;
    let populated = tree.populated(b);
    let mut descend = true;
    if populated {
        descend = false;
        if b.level > 0 && contains_id(near, b) {
            proof { lemma_row_bound(tree, b); }
            let children = tree.children(b);
            let mut all = true;
            let mut k: usize = 0;
            while k < 4
                invariant
                    tree.wf(),
                    children@ == children_of(b),
                    b.level > 0,
                    k <= 4,
                    forall|m: int| 0 <= m < 4 ==> tree.has(#[trigger] children_of(b)[m]),
                    all == forall|m: int| 0 <= m < k ==> tree.is_populated(#[trigger] children_of(b)[m]),
                decreases 4 - k,
            {
                if !tree.populated(children[k]) {
                    all = false;
                }
                k += 1;
            }
            descend = all;
        }
    }
    assert(descend == descends(tree, near@, b));
    if !descend {
        out.push(b);
        proof {
            assert forall|x: BlockId| #[trigger] out@.contains(x) <==> (start.contains(x) || (under(b, x) && shown(tree, near@, x))) by {
                if under(b, x) && shown(tree, near@, x) && x != b {
                    lemma_ancestor_level(x, (b.level - x.level) as nat);
                    lemma_reached_ancestors(tree, near@, x, (b.level - x.level) as nat);
                }
                if start.contains(x) {
                    let w = choose|w: int| 0 <= w < start.len() && start[w] == x;
                    assert(out@[w] == x);
                }
                if x == b {
                    assert(out@[start.len() as int] == b);
                    assert(ancestor_at(b, 0) == b);
                }
                if out@.contains(x) && x != b {
                    let w = choose|w: int| 0 <= w < out@.len() && out@[w] == x;
                    assert(start[w] == x);
                }
            }
        }
    } else if b.level > 0 {
        proof { lemma_row_bound(tree, b); }
        let children = tree.children(b);
        let mut k: usize = 0;
        while k < 4
            invariant
                tree.wf(),
                children@ == children_of(b),
                b.level > 0,
                tree.has(b),
                reached(tree, near@, b),
                descends(tree, near@, b),
                2 * b.row + 1 < tree.rows_at(b.level - 1) <= usize::MAX,
                2 * b.col + 1 < tree.cols_at(b.level - 1) <= usize::MAX,
                forall|m: int| 0 <= m < 4 ==> tree.has(#[trigger] children_of(b)[m]),
                k <= 4,
                forall|x: BlockId| #[trigger] out@.contains(x) <==> (start.contains(x) || (exists|m: int| 0 <= m < k && under(#[trigger] children_of(b)[m], x)
                    && shown(tree, near@, x))),
            decreases 4 - k,
        {
            let c = children[k];
            proof {
                lemma_child_parent(b, k as int);
                assert(reached(tree, near@, c));
            }
            let ghost mid = out@;
            select_block(tree, near, c, out);
            proof {
                assert forall|x: BlockId| #[trigger] out@.contains(x) <==> (start.contains(x) || (exists|m: int| 0 <= m < k + 1 && under(#[trigger] children_of(b)[m], x)
                    && shown(tree, near@, x))) by {
                    if exists|m: int| 0 <= m < k + 1 && under(#[trigger] children_of(b)[m], x) && shown(tree, near@, x) {
                        let m = choose|m: int| 0 <= m < k + 1 && under(#[trigger] children_of(b)[m], x) && shown(tree, near@, x);
                        if m < k {
                            assert(mid.contains(x));
                        }
                    }
                    if under(c, x) && shown(tree, near@, x) {
                        assert(under(children_of(b)[k as int], x));
                    }
                }
            }
            k += 1;
        }
        proof {
            assert forall|x: BlockId| #[trigger] out@.contains(x) <==> (start.contains(x) || (under(b, x) && shown(tree, near@, x))) by {
                if under(b, x) && shown(tree, near@, x) {
                    assert(x != b);
                    let m = lemma_under_child(tree, b, x);
                    assert(under(children_of(b)[m], x));
                }
                if exists|m: int| 0 <= m < 4 && under(#[trigger] children_of(b)[m], x) && shown(tree, near@, x) {
                    let m = choose|m: int| 0 <= m < 4 && under(#[trigger] children_of(b)[m], x) && shown(tree, near@, x);
                    lemma_under_parent(b, m, x);
                }
            }
        }
    } else {
        proof {
            assert forall|x: BlockId| #[trigger] out@.contains(x) <==> (start.contains(x) || (under(b, x) && shown(tree, near@, x))) by {
                if under(b, x) {
                    assert(ancestor_at(x, 0) == x);
                }
            }
        }
    }
}


/// The top-level block above `x`.
pub open spec fn root_of(t: &MeshTree, x: BlockId) -> BlockId {
    ancestor_at(x, (t.top() - x.level) as nat)
}

proof fn lemma_shown_root(t: &MeshTree, near: Seq<BlockId>, x: BlockId)
    requires
        t.wf(),
        reached(t, near, x),
    ensures
        t.has(root_of(t, x)),
        root_of(t, x).level == t.top(),
        under(root_of(t, x), x),
{
    let n = (t.top() - x.level) as nat;
    lemma_ancestor_level(x, n);
    if n > 0 {
        lemma_reached_ancestors(t, near, x, n);
    } else {
        assert(ancestor_at(x, 0) == x);
    }
}

/// The blocks whose meshes are shown when the camera is `near` the listed
/// blocks: walking down from the top level, a block with a mesh is shown
/// unless it gives way to its four children (see `descends`), and a block
/// without one is looked through.
pub fn select_meshes(tree: &MeshTree, near: &Vec<BlockId>) -> (r: Vec<BlockId>)
    requires
        tree.wf(),
    ensures
        forall|x: BlockId| #[trigger] r@.contains(x) <==> shown(tree, near@, x),
{
    let mut out: Vec<BlockId> = Vec::new();
    let top = tree.levels.len() - 1;
    let (rows, cols) = tree.levels[top].entries.dim();
    let mut i: usize = 0;
    while i < rows
        invariant
            tree.wf(),
            top == tree.top(),
            rows == tree.rows_at(top as int),
            cols == tree.cols_at(top as int),
            i <= rows,
            forall|x: BlockId| #[trigger] out@.contains(x) <==> (shown(tree, near@, x) && root_of(tree, x).row < i),
        decreases rows - i,
    {
        let mut j: usize = 0;
        while j < cols
            invariant
                tree.wf(),
                top == tree.top(),
                rows == tree.rows_at(top as int),
                cols == tree.cols_at(top as int),
                i < rows,
                j <= cols,
                forall|x: BlockId| #[trigger] out@.contains(x) <==> (shown(tree, near@, x) && (root_of(tree, x).row < i
                    || (root_of(tree, x).row == i && root_of(tree, x).col < j))),
            decreases cols - j,
        {
            let root = BlockId { row: i, col: j, level: top };
            let ghost prev = out@;
            select_block(tree, near, root, &mut out);
            proof {
                assert forall|x: BlockId| #[trigger] out@.contains(x) <==> (shown(tree, near@, x) && (root_of(tree, x).row < i
                    || (root_of(tree, x).row == i && root_of(tree, x).col < j + 1))) by {
                    if shown(tree, near@, x) {
                        lemma_shown_root(tree, near@, x);
                    }
                    if under(root, x) {
                        assert(root_of(tree, x) == root);
                    }
                    assert(prev.contains(x) ==> out@.contains(x));
                }
            }
            j += 1;
        }
        proof {
            assert forall|x: BlockId| #[trigger] out@.contains(x) <==> (shown(tree, near@, x) && root_of(tree, x).row < i + 1) by {
                if shown(tree, near@, x) {
                    lemma_shown_root(tree, near@, x);
                }
            }
        }
        i += 1;
    }
    proof {
        assert forall|x: BlockId| #[trigger] out@.contains(x) <==> shown(tree, near@, x) by {
            if shown(tree, near@, x) {
                lemma_shown_root(tree, near@, x);
            }
        }
    }
    out
}

/// At most one level of detail along any path from the top: no block below
/// a shown block is shown, nor even reached by the walk, so every block with
/// a mesh below a shown block stays hidden.
pub proof fn lemma_shown_excludes_below(t: &MeshTree, near: Seq<BlockId>, b: BlockId, x: BlockId)
    requires
        t.wf(),
        shown(t, near, b),
        under(b, x),
        x != b,
    ensures
        !reached(t, near, x),
        !shown(t, near, x),
{
    if reached(t, near, x) {
        let n = (b.level - x.level) as nat;
        lemma_ancestor_level(x, n);
        lemma_reached_ancestors(t, near, x, n);
    }
}

proof fn lemma_has_ancestors(t: &MeshTree, x: BlockId, n: nat)
    requires
        t.wf(),
        t.has(x),
        x.level + n <= t.top(),
    ensures
        t.has(ancestor_at(x, n)),
        ancestor_at(x, n).level == x.level + n,
    decreases n,
{
    lemma_ancestor_level(x, n);
    if n > 0 {
        lemma_has_ancestors(t, x, (n - 1) as nat);
        let a = ancestor_at(x, (n - 1) as nat);
        assert(t.rows_at(a.level as int) == 2 * t.rows_at(a.level + 1));
        assert(t.cols_at(a.level as int) == 2 * t.cols_at(a.level + 1));
    }
}

proof fn lemma_path_shown_from(t: &MeshTree, near: Seq<BlockId>, x: BlockId, n: nat)
    requires
        t.wf(),
        t.has(x),
        x.level == 0,
        n <= t.top(),
        reached(t, near, ancestor_at(x, n)),
        forall|k: nat| k <= t.top() ==> t.is_populated(#[trigger] ancestor_at(x, k)),
    ensures
        exists|k: nat| k <= n && shown(t, near, #[trigger] ancestor_at(x, k)),
    decreases n,
{
    let a = ancestor_at(x, n);
    if !descends(t, near, a) {
        assert(shown(t, near, ancestor_at(x, n)));
    } else {
        if n == 0 {
            assert(ancestor_at(x, 0) == x);
            assert(false);
        } else {
            let c = ancestor_at(x, (n - 1) as nat);
            lemma_has_ancestors(t, x, (n - 1) as nat);
            lemma_has_ancestors(t, x, n);
            assert(parent_of(c) == a);
            assert(reached(t, near, c));
            lemma_path_shown_from(t, near, x, (n - 1) as nat);
            let k = choose|k: nat| k <= n - 1 && shown(t, near, #[trigger] ancestor_at(x, k));
            assert(k <= n && shown(t, near, ancestor_at(x, k)));
        }
    }
}

/// No gaps: on a path from the top level down to a finest block whose
/// blocks all have meshes, some block is shown (and by
/// `lemma_shown_excludes_below`, only one).
pub proof fn lemma_populated_path_shown(t: &MeshTree, near: Seq<BlockId>, x: BlockId)
    requires
        t.wf(),
        t.has(x),
        x.level == 0,
        forall|k: nat| k <= t.top() ==> t.is_populated(#[trigger] ancestor_at(x, k)),
    ensures
        exists|k: nat| k <= t.top() && shown(t, near, #[trigger] ancestor_at(x, k)),
{
    let n = t.top() as nat;
    lemma_has_ancestors(t, x, n);
    assert(reached(t, near, ancestor_at(x, n)));
    lemma_path_shown_from(t, near, x, n);
}

/// No holes: a block with a mesh that the walk reaches but does not show
/// is covered by its four children, which all have meshes and are reached.
pub proof fn lemma_hidden_block_covered(t: &MeshTree, near: Seq<BlockId>, b: BlockId)
    requires
        t.wf(),
        reached(t, near, b),
        t.is_populated(b),
        !shown(t, near, b),
    ensures
        b.level > 0,
        forall|k: int| 0 <= k < 4 ==> t.has(#[trigger] children_of(b)[k]) && t.is_populated(children_of(b)[k])
            && reached(t, near, children_of(b)[k]),
{
    lemma_row_bound(t, b);
    assert forall|k: int| 0 <= k < 4 implies t.has(#[trigger] children_of(b)[k]) && t.is_populated(children_of(b)[k])
        && reached(t, near, children_of(b)[k]) by {
        lemma_child_parent(b, k);
    }
}


/// Notifications between the terrain pipeline and the renderer.
#[derive(Clone, Copy, Debug, PartialEq, Eq, Structural)]
pub enum GraphicsEvent {
    LoadedLevel,
    RenderTerrain,
    MoveCamera,
}

/// Whether level selection has to run again: the camera moved or new
/// meshes were installed.
pub fn needs_selection(events: &Vec<GraphicsEvent>) -> (r: bool)
    ensures
        r == exists|k: int| 0 <= k < events@.len() && (#[trigger] events@[k] == GraphicsEvent::MoveCamera
            || events@[k] == GraphicsEvent::RenderTerrain),
{
    let mut k: usize = 0;
    while k < events.len()
        invariant
            k <= events@.len(),
            forall|m: int| 0 <= m < k ==> !(#[trigger] events@[m] == GraphicsEvent::MoveCamera
                || events@[m] == GraphicsEvent::RenderTerrain),
        decreases events@.len() - k,
    {
        match events[k] {
            GraphicsEvent::MoveCamera | GraphicsEvent::RenderTerrain => { return true; },
            GraphicsEvent::LoadedLevel => {},
        }
        k += 1;
    }
    false
}

} // verus!
