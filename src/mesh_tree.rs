use vstd::prelude::*;
use crate::grid::Grid;

verus! {

/// Handle of a mesh held by the renderer.
pub type MeshId = u64;

/// A node of the mesh tree: block `(row, col)` of level `level` (0 is the
/// finest level).
#[derive(Clone, Copy, Debug, PartialEq, Eq, Hash, Structural)]
pub struct BlockId {
    pub row: usize,
    pub col: usize,
    pub level: usize,
}

/// What a node of the tree holds.
#[derive(Clone, Copy, Debug, PartialEq, Eq, Structural)]
pub enum BlockKind {
    /// Inside the map; no mesh yet.
    Pending,
    /// Inside the map, with a mesh.
    Populated(MeshId),
    /// Outside the map.
    Invalid,
}

#[derive(Clone, Copy, Debug)]
pub struct Entry {
    pub kind: BlockKind,
}

/// The nodes of one level of the tree.
pub struct Level {
    pub entries: Grid<Entry>,
}

/// Per-layer index of which blocks of which level have a mesh.  Level `l`
/// has half the rows and columns of level `l - 1`; the finest level is
/// padded so that the halving is exact up to the top level.
pub struct MeshTree {
    pub height: usize,
    pub width: usize,
    pub levels: Vec<Level>,
}

/// `x` halved `l` times, rounding down each time.
pub open spec fn halved(x: int, l: nat) -> int
    decreases l,
{
    if l == 0 { x } else { halved(x, (l - 1) as nat) / 2 }
}

/// `k` is the least exponent with `2^k >= g`.
pub open spec fn is_ceil_log2(k: nat, g: int) -> bool {
    pow2(k) >= g && (k == 0 || pow2((k - 1) as nat) < g)
}

/// The smaller of the two block counts.
pub open spec fn min_dim(num_blocks: [usize; 2]) -> int {
    if num_blocks[0] < num_blocks[1] { num_blocks[0] as int } else { num_blocks[1] as int }
}

/// `2^n`.
pub open spec fn pow2(n: nat) -> nat
    decreases n,
{
    if n == 0 { 1 } else { 2 * pow2((n - 1) as nat) }
}

pub open spec fn parent_of(b: BlockId) -> BlockId {
    BlockId { row: (b.row / 2) as usize, col: (b.col / 2) as usize, level: (b.level + 1) as usize }
}

/// The ancestor `n` levels above `b` (`b` itself for `n == 0`).
pub open spec fn ancestor_at(b: BlockId, n: nat) -> BlockId
    decreases n,
{
    if n == 0 { b } else { parent_of(ancestor_at(b, (n - 1) as nat)) }
}

/// The four children of `b` in row-major order; none at level 0.
pub open spec fn children_of(b: BlockId) -> Seq<BlockId> {
    if b.level == 0 {
        seq![]
    } else {
        let l = (b.level - 1) as usize;
        let r = (2 * b.row) as usize;
        let c = (2 * b.col) as usize;
        seq![
            BlockId { row: r, col: c, level: l },
            BlockId { row: r, col: (c + 1) as usize, level: l },
            BlockId { row: (r + 1) as usize, col: c, level: l },
            BlockId { row: (r + 1) as usize, col: (c + 1) as usize, level: l },
        ]
    }
}

/// The entries of one level: `rows` x `cols` nodes, `Pending` inside the
/// `valid_rows` x `valid_cols` corner and `Invalid` elsewhere.
fn level_entries(rows: usize, cols: usize, valid_rows: usize, valid_cols: usize) -> (g: Grid<Entry>)
    ensures
        g.wf(),
        g.height_spec() == rows,
        g.width_spec() == cols,
        forall|i: int, j: int|
            g.in_bounds(i, j) ==> (#[trigger] g.at(i, j)).kind == if i < valid_rows && j < valid_cols {
                BlockKind::Pending
            } else {
                BlockKind::Invalid
            },
{
    let mut data: Vec<Vec<Entry>> = Vec::new();
    let mut i: usize = 0;
    while i < rows
        invariant
            i <= rows,
            data@.len() == i,
            forall|k: int| 0 <= k < i ==> (#[trigger] data@[k])@.len() == cols,
            forall|k: int, j: int|
                0 <= k < i && 0 <= j < cols ==> (#[trigger] data@[k]@[j]).kind == if k < valid_rows && j < valid_cols {
                    BlockKind::Pending
                } else {
                    BlockKind::Invalid
                },
        decreases rows - i,
    {
        let mut row: Vec<Entry> = Vec::new();
        let mut j: usize = 0;
        while j < cols
            invariant
                i < rows,
                j <= cols,
                row@.len() == j,
                forall|m: int| 0 <= m < j ==> (#[trigger] row@[m]).kind == if i < valid_rows && m < valid_cols {
                    BlockKind::Pending
                } else {
                    BlockKind::Invalid
                },
            decreases cols - j,
        {
            let kind = if i < valid_rows && j < valid_cols { BlockKind::Pending } else { BlockKind::Invalid };
            row.push(Entry { kind });
            j += 1;
        }
        data.push(row);
        i += 1;
    }
    Grid::from_parts(data, cols)
}

pub proof fn lemma_pow2_pos(n: nat)
    ensures
        pow2(n) >= 1,
    decreases n,
{
    if n > 0 {
        lemma_pow2_pos((n - 1) as nat);
    }
}

pub proof fn lemma_pow2_mono(a: nat, b: nat)
    requires
        a <= b,
    ensures
        pow2(a) <= pow2(b),
    decreases b,
{
    if a < b {
        lemma_pow2_mono(a, (b - 1) as nat);
        lemma_pow2_pos((b - 1) as nat);
    }
}

pub proof fn lemma_ancestor_level(b: BlockId, n: nat)
    requires
        b.level + n <= usize::MAX,
    ensures
        ancestor_at(b, n).level == b.level + n,
    decreases n,
{
    if n > 0 {
        lemma_ancestor_level(b, (n - 1) as nat);
    }
}

/// The ancestor `n` levels above `b`.
pub fn ancestor(b: BlockId, n: usize) -> (r: BlockId)
    requires
        b.level + n <= usize::MAX,
    ensures
        r == ancestor_at(b, n as nat),
        r.level == b.level + n,
{
    let mut cur = b;
    let mut i: usize = 0;
    while i < n
        invariant
            i <= n,
            b.level + n <= usize::MAX,
            cur == ancestor_at(b, i as nat),
            cur.level == b.level + i,
        decreases n - i,
    {
        cur = BlockId { row: cur.row / 2, col: cur.col / 2, level: cur.level + 1 };
        i += 1;
    }
    cur
}

/// Whether `x` is `b` or lies below it.
pub open spec fn under(b: BlockId, x: BlockId) -> bool {
    x.level <= b.level && ancestor_at(x, (b.level - x.level) as nat) == b
}

/// The ancestor `n + 1` levels above `x` is the ancestor `n` levels above
/// its parent.
pub proof fn lemma_ancestor_inner(x: BlockId, n: nat)
    ensures
        ancestor_at(x, n + 1) == ancestor_at(parent_of(x), n),
    decreases n,
{
    if n > 0 {
        lemma_ancestor_inner(x, (n - 1) as nat);
    } else {
        assert(ancestor_at(x, 0) == x);
        assert(ancestor_at(parent_of(x), 0) == parent_of(x));
    }
}

pub proof fn lemma_child_parent(b: BlockId, k: int)
    requires
        b.level > 0,
        0 <= k < 4,
        2 * b.row + 1 <= usize::MAX,
        2 * b.col + 1 <= usize::MAX,
    ensures
        parent_of(children_of(b)[k]) == b,
        children_of(b)[k].level == b.level - 1,
{
}

pub proof fn lemma_under_child(t: &MeshTree, b: BlockId, x: BlockId) -> (k: int)
    requires
        t.wf(),
        t.has(b),
        under(b, x),
        x != b,
        2 * b.row + 1 <= usize::MAX,
        2 * b.col + 1 <= usize::MAX,
    ensures
        0 <= k < 4,
        under(children_of(b)[k], x),
{
    let n = (b.level - x.level) as nat;
    lemma_ancestor_level(x, n);
    assert(n > 0);
    let c = ancestor_at(x, (n - 1) as nat);
    lemma_ancestor_level(x, (n - 1) as nat);
    assert(parent_of(c) == b);
    let k: int = 2 * (c.row - 2 * b.row) + (c.col - 2 * b.col);
    assert(children_of(b)[k] == c);
    k
}

pub proof fn lemma_under_parent(b: BlockId, k: int, x: BlockId)
    requires
        b.level > 0,
        0 <= k < 4,
        2 * b.row + 1 <= usize::MAX,
        2 * b.col + 1 <= usize::MAX,
        under(children_of(b)[k], x),
    ensures
        under(b, x),
{
    let c = children_of(b)[k];
    let n = (c.level - x.level) as nat;
    assert(ancestor_at(x, n + 1) == parent_of(ancestor_at(x, n)));
    assert((b.level - x.level) as nat == n + 1);
}

pub proof fn lemma_row_bound(t: &MeshTree, b: BlockId)
    requires
        t.wf(),
        t.has(b),
        b.level > 0,
    ensures
        2 * b.row + 1 < t.rows_at(b.level - 1) <= usize::MAX,
        2 * b.col + 1 < t.cols_at(b.level - 1) <= usize::MAX,
        2 * b.col + 1 < t.cols_at(b.level - 1),
        forall|k: int| 0 <= k < 4 ==> t.has(#[trigger] children_of(b)[k]),
{
    assert(t.rows_at(b.level - 1) == 2 * t.rows_at(b.level as int));
    t.levels@[b.level - 1].entries.lemma_dims_fit();
}

/// Halving `x` `l` times and doubling back never exceeds `x`.
pub proof fn lemma_halved_pow2(x: int, l: nat)
    requires
        x >= 0,
    ensures
        0 <= halved(x, l),
        halved(x, l) * pow2(l) <= x,
    decreases l,
{
    if l > 0 {
        lemma_halved_pow2(x, (l - 1) as nat);
        let h = halved(x, (l - 1) as nat);
        let p = pow2((l - 1) as nat);
        assert(halved(x, l) == h / 2);
        assert(pow2(l) == 2 * p);
        assert((h / 2) * (2 * p) <= h * p) by (nonlinear_arith)
            requires h >= 0, p >= 0;
        assert(halved(x, l) * pow2(l) == (h / 2) * (2 * p));
    } else {
        assert(pow2(0) == 1);
        assert(halved(x, 0) == x);
        assert(x * 1 == x);
    }
}

/// Which child of `b` (0 to 3, row-major) lies above `x`, for `x` below `b`.
pub open spec fn child_index(b: BlockId, x: BlockId) -> int {
    let a = ancestor_at(x, (b.level - 1 - x.level) as nat);
    2 * (a.row - 2 * b.row) + (a.col - 2 * b.col)
}

/// The top-level block above `x` in `t`.
pub open spec fn root_above(t: &MeshTree, x: BlockId) -> BlockId {
    ancestor_at(x, (t.top() - x.level) as nat)
}

impl MeshTree {
    pub open spec fn top(&self) -> int {
        self.levels@.len() - 1
    }

    pub open spec fn rows_at(&self, l: int) -> int {
        self.levels@[l].entries.height_spec() as int
    }

    pub open spec fn cols_at(&self, l: int) -> int {
        self.levels@[l].entries.width_spec() as int
    }

    /// Whether `b` names a node of the tree, valid or not.
    pub open spec fn has(&self, b: BlockId) -> bool {
        b.level < self.levels@.len() && b.row < self.rows_at(b.level as int) && b.col < self.cols_at(
            b.level as int,
        )
    }

    pub open spec fn kind(&self, b: BlockId) -> BlockKind {
        self.levels@[b.level as int].entries.at(b.row as int, b.col as int).kind
    }

    /// Whether block `(i, j)` of level `l` lies inside the map.
    pub open spec fn inside(&self, i: int, j: int, l: int) -> bool {
        i < halved(self.height as int, l as nat) && j < halved(self.width as int, l as nat)
    }

    pub open spec fn is_populated(&self, b: BlockId) -> bool {
        self.kind(b) is Populated
    }

    /// Each level is half the size of the one below it, and a node is
    /// `Invalid` exactly when it lies outside the map.
    pub open spec fn wf(&self) -> bool {
        &&& self.levels@.len() >= 1
        &&& self.levels@.len() <= usize::MAX
        &&& self.rows_at(0) >= self.height && self.cols_at(0) >= self.width
        &&& forall|l: int| 0 <= l < self.levels@.len() ==> (#[trigger] self.levels@[l]).entries.wf()
        &&& forall|l: int|
            0 < l < self.levels@.len() ==> self.rows_at(l - 1) == 2 * #[trigger] self.rows_at(l)
                && self.cols_at(l - 1) == 2 * self.cols_at(l)
        &&& forall|b: BlockId| #[trigger] self.has(b) ==> ((self.kind(b) is Invalid) <==> !self.inside(
            b.row as int,
            b.col as int,
            b.level as int,
        ))
    }

    /// `self` is the tree that `new(num_blocks, max_level)` builds: a
    /// well-formed tree over `num_blocks` with
    /// `min(ceil(log2(min(rows, cols))), max_level) + 1` levels, its finest
    /// level padded to the next multiple of the top level's span, and every
    /// node inside the map `Pending`.
    pub open spec fn is_fresh(&self, num_blocks: [usize; 2], max_level: usize) -> bool {
        &&& self.wf()
        &&& self.height == num_blocks[0]
        &&& self.width == num_blocks[1]
        &&& exists|k: nat|
            #[trigger] is_ceil_log2(k, min_dim(num_blocks)) && self.top() == if k < max_level {
                k as int
            } else {
                max_level as int
            }
        &&& self.rows_at(0) % (pow2(self.top() as nat) as int) == 0
        &&& num_blocks[0] <= self.rows_at(0) < num_blocks[0] + pow2(self.top() as nat)
        &&& self.cols_at(0) % (pow2(self.top() as nat) as int) == 0
        &&& num_blocks[1] <= self.cols_at(0) < num_blocks[1] + pow2(self.top() as nat)
        &&& forall|b: BlockId|
            self.has(b) && self.inside(b.row as int, b.col as int, b.level as int) ==> #[trigger] self.kind(b)
                == BlockKind::Pending
    }

    /// A tree over `num_blocks` (rows, columns) finest blocks, with
    /// `min(ceil(log2(min(rows, cols))), max_level) + 1` levels.  The finest
    /// level is padded up to a multiple of the top level's block span; every
    /// node inside the map starts `Pending`, every other node is `Invalid`.
    pub fn new(num_blocks: [usize; 2], max_level: usize) -> (t: MeshTree)
        requires
            num_blocks[0] <= usize::MAX / 4,
            num_blocks[1] <= usize::MAX / 4,
        ensures
            t.is_fresh(num_blocks, max_level),
    {
        let height = num_blocks[0];
        let width = num_blocks[1];
        let girth = if height < width { height } else { width };
        let mut k: usize = 0;
        let mut p: usize = 1;
        while p < girth
            invariant
                girth <= usize::MAX / 4,
                p == pow2(k as nat),
                k == 0 || pow2((k - 1) as nat) < girth,
                p <= 2 * girth || p == 1,
                k < p,
                p >= 1,
            decreases usize::MAX - p,
        {
            p = p * 2;
            k += 1;
            proof { lemma_pow2_pos(k as nat); }
        }
        let top_level = if k < max_level { k } else { max_level };
        let mut block_span: usize = 1;
        let mut i: usize = 0;
        while i < top_level
            invariant
                i <= top_level <= k,
                block_span == pow2(i as nat),
                block_span >= 1,
                p == pow2(k as nat),
                p <= 2 * girth || p == 1,
                girth <= usize::MAX / 4,
            decreases top_level - i,
        {
            proof {
                lemma_pow2_mono((i + 1) as nat, k as nat);
                lemma_pow2_pos(i as nat);
            }
            block_span = block_span * 2;
            i += 1;
        }
        proof { lemma_pow2_mono(top_level as nat, k as nat); }
        let q_h = (height + block_span - 1) / block_span;
        let q_w = (width + block_span - 1) / block_span;
        assert(q_h * block_span <= height + block_span - 1 && q_w * block_span <= width + block_span - 1)
            by (nonlinear_arith)
            requires q_h == (height + block_span - 1) as int / block_span as int, q_w == (width + block_span - 1) as int / block_span as int, block_span >= 1;
        let mut level_height = q_h * block_span;
        let mut level_width = q_w * block_span;
        let mut valid_height = height;
        let mut valid_width = width;
        let mut levels: Vec<Level> = Vec::new();
        let mut l: usize = 0;
        while l <= top_level
            invariant
                l <= top_level + 1,
                levels@.len() == l,
                top_level < usize::MAX,
                l <= top_level ==> level_height == q_h * pow2((top_level - l) as nat),
                l <= top_level ==> level_width == q_w * pow2((top_level - l) as nat),
                valid_height == halved(height as int, l as nat),
                valid_width == halved(width as int, l as nat),
                forall|m: int| 0 <= m < l ==> (#[trigger] levels@[m]).entries.wf(),
                forall|m: int| 0 <= m < l ==> (#[trigger] levels@[m]).entries.height_spec() == q_h * pow2((top_level - m) as nat),
                forall|m: int| 0 <= m < l ==> (#[trigger] levels@[m]).entries.width_spec() == q_w * pow2((top_level - m) as nat),
                forall|m: int, i: int, j: int|
                    0 <= m < l && levels@[m].entries.in_bounds(i, j) ==> (#[trigger] levels@[m].entries.at(i, j)).kind
                        == if i < halved(height as int, m as nat) && j < halved(width as int, m as nat) {
                        BlockKind::Pending
                    } else {
                        BlockKind::Invalid
                    },
            decreases top_level + 1 - l,
        {
            levels.push(Level { entries: level_entries(level_height, level_width, valid_height, valid_width) });
            if l < top_level {
                proof {
                    let n = (top_level - l - 1) as nat;
                    assert(pow2((top_level - l) as nat) == 2 * pow2(n));
                    assert(q_h * (2 * pow2(n)) / 2 == q_h * pow2(n)) by (nonlinear_arith);
                    assert(q_w * (2 * pow2(n)) / 2 == q_w * pow2(n)) by (nonlinear_arith);
                }
            }
            level_height = level_height / 2;
            level_width = level_width / 2;
            valid_height = valid_height / 2;
            valid_width = valid_width / 2;
            l += 1;
        }
        // asking a Vec for its length shows that the length fits in usize
        let _n_levels = levels.len();
        let t = MeshTree { height, width, levels };
        proof {
            assert(is_ceil_log2(k as nat, girth as int));
            assert(t.top() == if (k as nat) < max_level { k as int } else { max_level as int });
            assert(min_dim(num_blocks) == girth);
            assert(is_ceil_log2(k as nat, min_dim(num_blocks)) && t.top() == if (k as nat) < max_level { k as int } else { max_level as int });
            assert forall|m: int| 0 < m < t.levels@.len() implies t.rows_at(m - 1) == 2 * #[trigger] t.rows_at(m)
                && t.cols_at(m - 1) == 2 * t.cols_at(m) by {
                let n = (top_level - m) as nat;
                assert(pow2((top_level - (m - 1)) as nat) == 2 * pow2(n));
                assert(q_h * (2 * pow2(n)) == 2 * (q_h * pow2(n))) by (nonlinear_arith);
                assert(q_w * (2 * pow2(n)) == 2 * (q_w * pow2(n))) by (nonlinear_arith);
            }
            assert(t.top() == top_level);
            let pm = pow2(top_level as nat) as int;
            assert(t.rows_at(0) == q_h * pm);
            vstd::arithmetic::div_mod::lemma_mod_multiples_basic(q_h as int, pm);
            vstd::arithmetic::div_mod::lemma_mod_multiples_basic(q_w as int, pm);
            assert(q_h * pm >= height && q_h * pm < height + pm && q_w * pm >= width && q_w * pm < width + pm)
                by (nonlinear_arith)
                requires q_h == (height + pm - 1) / pm, q_w == (width + pm - 1) / pm, pm >= 1;
        }
        t
    }

    /// The parent of a block.
    pub fn parent(&self, block_id: BlockId) -> (r: BlockId)
        requires
            block_id.level < usize::MAX,
        ensures
            r == parent_of(block_id),
    {
        BlockId { row: block_id.row / 2, col: block_id.col / 2, level: block_id.level + 1 }
    }

    /// The four children of a block in row-major order; none at level 0.
    pub fn children(&self, block_id: BlockId) -> (r: Vec<BlockId>)
        requires
            2 * block_id.row + 1 <= usize::MAX,
            2 * block_id.col + 1 <= usize::MAX,
        ensures
            r@ == children_of(block_id),
    {
        if block_id.level == 0 {
            return Vec::new();
        }
        let l = block_id.level - 1;
        let r = block_id.row * 2;
        let c = block_id.col * 2;
        let out = vec![
            BlockId { row: r, col: c, level: l },
            BlockId { row: r, col: c + 1, level: l },
            BlockId { row: r + 1, col: c, level: l },
            BlockId { row: r + 1, col: c + 1, level: l },
        ];
        assert(out@ =~= children_of(block_id));
        out
    }

    /// All blocks above `block_id` in the tree, nearest first.
    pub fn ancestors(&self, block_id: BlockId) -> (r: Vec<BlockId>)
        ensures
            r@.len() == if block_id.level < self.levels@.len() { self.levels@.len() - block_id.level - 1 } else { 0 },
            forall|k: int| 0 <= k < r@.len() ==> #[trigger] r@[k] == ancestor_at(block_id, (k + 1) as nat),
    {
        let mut results: Vec<BlockId> = Vec::new();
        let mut cur = block_id;
        if block_id.level >= self.levels.len() {
            return results;
        }
        let mut lvl = block_id.level + 1;
        while lvl < self.levels.len()
            invariant
                block_id.level < self.levels@.len(),
                block_id.level + 1 <= lvl <= self.levels@.len(),
                results@.len() == lvl - block_id.level - 1,
                cur == ancestor_at(block_id, (lvl - block_id.level - 1) as nat),
                cur.level == lvl - 1,
                forall|k: int| 0 <= k < results@.len() ==> #[trigger] results@[k] == ancestor_at(block_id, (k + 1) as nat),
            decreases self.levels@.len() - lvl,
        {
            cur = BlockId { row: cur.row / 2, col: cur.col / 2, level: lvl };
            results.push(cur);
            lvl += 1;
        }
        results
    }

    /// The entry of a block.
    pub fn get_entry(&self, block_id: BlockId) -> (e: &Entry)
        requires
            self.wf(),
            self.has(block_id),
        ensures
            e.kind == self.kind(block_id),
    {
        self.levels[block_id.level].entries.get_ref(block_id.row, block_id.col)
    }

    /// Replaces the content of a block inside the map and hands back the
    /// mesh it held before, if any, so that the caller can dispose of it.
    pub fn set_mesh(&mut self, block_id: BlockId, kind: BlockKind) -> (old_mesh: Option<MeshId>)
        requires
            old(self).wf(),
            old(self).has(block_id),
            !(old(self).kind(block_id) is Invalid),
            !(kind is Invalid),
        ensures
            final(self).wf(),
            final(self).height == old(self).height,
            final(self).width == old(self).width,
            final(self).levels@.len() == old(self).levels@.len(),
            forall|l: int| 0 <= l < old(self).levels@.len() ==> #[trigger] final(self).rows_at(l) == old(self).rows_at(l)
                && final(self).cols_at(l) == old(self).cols_at(l),
            final(self).kind(block_id) == kind,
            forall|b: BlockId| #[trigger] old(self).has(b) && b != block_id ==> final(self).kind(b) == old(self).kind(b),
            old_mesh == (match old(self).kind(block_id) {
                BlockKind::Populated(id) => Some(id),
                _ => None,
            }),
    {
        let ghost old_t = *self;
        let previous = self.get_entry(block_id).kind;
        self.levels[block_id.level].entries.set(block_id.row, block_id.col, Entry { kind });
        proof {
            assert forall|l: int| 0 <= l < self.levels@.len() implies #[trigger] self.levels@[l] == if l == block_id.level {
                self.levels@[l]
            } else {
                old_t.levels@[l]
            } by {}
            assert forall|l: int| 0 <= l < self.levels@.len() implies #[trigger] self.rows_at(l) == old_t.rows_at(l)
                && self.cols_at(l) == old_t.cols_at(l) by {}
            assert forall|b: BlockId| #[trigger] self.has(b) implies self.kind(b) == if b == block_id {
                kind
            } else {
                old_t.kind(b)
            } by {
                assert(old_t.has(b));
            }
            assert forall|l: int| 0 <= l < self.levels@.len() implies (#[trigger] self.levels@[l]).entries.wf() by {}
            assert forall|l: int| 0 < l < self.levels@.len() implies self.rows_at(l - 1) == 2 * #[trigger] self.rows_at(l)
                && self.cols_at(l - 1) == 2 * self.cols_at(l) by {
                assert(old_t.rows_at(l - 1) == 2 * old_t.rows_at(l));
            }
            assert forall|b: BlockId| #[trigger] self.has(b) implies ((self.kind(b) is Invalid) <==> !self.inside(
                b.row as int, b.col as int, b.level as int)) by {
                assert(old_t.has(b));
            }
        }
        match previous {
            BlockKind::Populated(id) => Some(id),
            _ => None,
        }
    }

    /// Whether `block_id` names a node of the tree.
    pub fn contains_block(&self, block_id: BlockId) -> (r: bool)
        requires
            self.wf(),
        ensures
            r == self.has(block_id),
    {
        if block_id.level >= self.levels.len() {
            return false;
        }
        let (rows, cols) = self.levels[block_id.level].entries.dim();
        block_id.row < rows && block_id.col < cols
    }

    proof fn lemma_walk_complete(b: BlockId, r: Seq<BlockId>, x: BlockId)
        requires
            r.len() > 0,
            r[0] == b,
            forall|k: int, m: int| 0 <= k < r.len() && r[k].level > 0 && 0 <= m < 4 ==> r.contains(#[trigger] children_of(#[trigger] r[k])[m]),
            under(b, x),
        ensures
            r.contains(x),
        decreases b.level - x.level,
    {
        if x == b {
            assert(r[0] == b);
        } else {
            let n = (b.level - x.level) as nat;
            assert(n > 0) by {
                if n == 0 { assert(ancestor_at(x, 0) == x); }
            }
            let p = parent_of(x);
            lemma_ancestor_inner(x, (n - 1) as nat);
            lemma_ancestor_level(x, n);
            assert(under(b, p));
            Self::lemma_walk_complete(b, r, p);
            let w = choose|w: int| 0 <= w < r.len() && r[w] == p;
            assert(r[w] == p);
            let idx: int = 2 * (x.row % 2) + (x.col % 2) as int;
            assert(children_of(p)[idx] == x);
        }
    }

    /// `block_id` and every block below it, each once, `block_id` first and
    /// each block before its children; empty at level 0.
    pub fn descendants(&self, block_id: BlockId) -> (r: Vec<BlockId>)
        requires
            self.wf(),
            self.has(block_id),
        ensures
            block_id.level == 0 ==> r@.len() == 0,
            block_id.level > 0 ==> {
                &&& r@.len() > 0
                &&& r@[0] == block_id
                &&& r@.no_duplicates()
                &&& forall|x: BlockId| #[trigger] r@.contains(x) <==> under(block_id, x)
                &&& forall|k: int| 0 < k < r@.len() ==> exists|j: int| 0 <= j < k && r@[j] == parent_of(#[trigger] r@[k])
            },
    {
        if block_id.level == 0 {
            return Vec::new();
        }
        let everything = |t: &MeshTree, x: BlockId| -> (go: bool)
            ensures
                go,
            { true };
        let r = self.walk_block(block_id, &everything);
        proof {
            assert forall|k: int, m: int| 0 <= k < r@.len() && r@[k].level > 0 && 0 <= m < 4 implies r@.contains(#[trigger] children_of(#[trigger] r@[k])[m]) by {
                assert(!everything.ensures((self, r@[k]), false));
            }
            assert forall|x: BlockId| #[trigger] r@.contains(x) <==> under(block_id, x) by {
                if under(block_id, x) {
                    Self::lemma_walk_complete(block_id, r@, x);
                }
                if r@.contains(x) {
                    let w = choose|w: int| 0 <= w < r@.len() && r@[w] == x;
                    assert(under(block_id, r@[w]));
                }
            }
        }
        r
    }

    /// Whether `x` is a top-level block of the tree.
    pub open spec fn is_root(&self, x: BlockId) -> bool {
        self.has(x) && x.level == self.top()
    }

    /// The properties of a walk's visit list `r` from block `b`: it starts
    /// at `b`, holds blocks at or below `b`, each once and each after its
    /// parent, where the visitor said to go down.
    pub open spec fn walk_from<F: Fn(&MeshTree, BlockId) -> bool>(&self, b: BlockId, visit: &F, r: Seq<BlockId>) -> bool {
        &&& r.len() > 0
        &&& r[0] == b
        &&& r.no_duplicates()
        &&& forall|k: int| 0 <= k < r.len() ==> self.has(#[trigger] r[k]) && under(b, r[k])
        &&& forall|k: int|
            0 < k < r.len() ==> (exists|j: int| 0 <= j < k && r[j] == parent_of(#[trigger] r[k])) && visit.ensures(
                (self, parent_of(r[k])),
                true,
            )
        &&& forall|k: int|
            0 <= k < r.len() && (#[trigger] r[k]).level > 0 ==> (visit.ensures((self, r[k]), false) || forall|m: int|
                0 <= m < 4 ==> r.contains(#[trigger] children_of(r[k])[m]))
    }

    /// The visit list `r` of `b` after the walks of its first `k` children.
    pub open spec fn walk_prefix<F: Fn(&MeshTree, BlockId) -> bool>(&self, b: BlockId, visit: &F, k: int, r: Seq<BlockId>) -> bool {
        &&& r.len() > 0
        &&& r[0] == b
        &&& r.no_duplicates()
        &&& forall|m: int| 0 <= m < k ==> r.contains(#[trigger] children_of(b)[m])
        &&& forall|i: int| 0 < i < r.len() ==> (#[trigger] r[i]).level < b.level && 0 <= child_index(b, r[i]) < k
        &&& forall|i: int| 0 <= i < r.len() ==> self.has(#[trigger] r[i]) && under(b, r[i])
        &&& forall|i: int|
            0 < i < r.len() ==> (exists|j: int| 0 <= j < i && r[j] == parent_of(#[trigger] r[i]))
                && visit.ensures((self, parent_of(r[i])), true)
        &&& forall|i: int|
            0 < i < r.len() && (#[trigger] r[i]).level > 0 ==> (visit.ensures((self, r[i]), false) || forall|m: int|
                0 <= m < 4 ==> r.contains(#[trigger] children_of(r[i])[m]))
    }

    /// What one step of `walk_block` starts from: the list `prev` after `k`
    /// children and the walk `sv` of child `k`.
    pub open spec fn walk_step_pre<F: Fn(&MeshTree, BlockId) -> bool>(&self, b: BlockId, visit: &F, k: int, prev: Seq<BlockId>, sv: Seq<BlockId>) -> bool {
        &&& self.wf()
        &&& self.has(b)
        &&& b.level > 0
        &&& 2 * b.row + 1 < self.rows_at(b.level - 1) <= usize::MAX
        &&& 2 * b.col + 1 < self.cols_at(b.level - 1) <= usize::MAX
        &&& 0 <= k < 4
        &&& visit.ensures((self, b), true)
        &&& self.walk_prefix(b, visit, k, prev)
        &&& self.walk_from(children_of(b)[k], visit, sv)
    }

    proof fn lemma_concat_contains(prev: Seq<BlockId>, sv: Seq<BlockId>)
        ensures
            forall|y: BlockId| #[trigger] (prev + sv).contains(y) <==> (prev.contains(y) || sv.contains(y)),
    {
        let r = prev + sv;
        assert forall|y: BlockId| #[trigger] r.contains(y) <==> (prev.contains(y) || sv.contains(y)) by {
            if prev.contains(y) {
                let w = choose|w: int| 0 <= w < prev.len() && prev[w] == y;
                assert(r[w] == y);
            }
            if sv.contains(y) {
                let w = choose|w: int| 0 <= w < sv.len() && sv[w] == y;
                assert(r[prev.len() + w] == y);
            }
            if r.contains(y) {
                let w = choose|w: int| 0 <= w < r.len() && r[w] == y;
                if w < prev.len() {
                    assert(prev[w] == y);
                } else {
                    assert(sv[w - prev.len()] == y);
                }
            }
        }
    }

    proof fn lemma_walk_step_members<F: Fn(&MeshTree, BlockId) -> bool>(&self, b: BlockId, visit: &F, k: int, prev: Seq<BlockId>, sv: Seq<BlockId>)
        requires
            self.walk_step_pre(b, visit, k, prev, sv),
        ensures
            forall|i: int| 0 <= i < (prev + sv).len() ==> self.has(#[trigger] (prev + sv)[i]) && under(b, (prev + sv)[i]),
            forall|i: int| 0 < i < (prev + sv).len() ==> (#[trigger] (prev + sv)[i]).level < b.level && 0 <= child_index(b, (prev + sv)[i]) < k + 1,
            forall|m: int| 0 <= m < k + 1 ==> (prev + sv).contains(#[trigger] children_of(b)[m]),
    {
        let r = prev + sv;
        let c = children_of(b)[k];
        lemma_child_parent(b, k);
        Self::lemma_concat_contains(prev, sv);
        assert forall|i: int| 0 <= i < r.len() implies self.has(#[trigger] r[i]) && under(b, r[i]) by {
            if i >= prev.len() {
                let x = sv[i - prev.len()];
                assert(r[i] == x);
                lemma_under_parent(b, k, x);
            } else {
                assert(r[i] == prev[i]);
            }
        }
        assert forall|i: int| 0 < i < r.len() implies (#[trigger] r[i]).level < b.level && 0 <= child_index(b, r[i]) < k + 1 by {
            if i >= prev.len() {
                let x = sv[i - prev.len()];
                assert(r[i] == x);
                assert(self.has(x) && under(c, x));
                Self::lemma_child_index_of(b, k, x);
            } else {
                assert(r[i] == prev[i]);
            }
        }
        assert(sv[0] == c && sv.contains(c));
        assert forall|m: int| 0 <= m < k + 1 implies r.contains(#[trigger] children_of(b)[m]) by {
            if m < k {
                assert(prev.contains(children_of(b)[m]));
            }
        }
    }

    /// A block below child `k` of `b` has child index `k`.
    proof fn lemma_child_index_of(b: BlockId, k: int, x: BlockId)
        requires
            b.level > 0,
            2 * b.row + 1 <= usize::MAX,
            2 * b.col + 1 <= usize::MAX,
            0 <= k < 4,
            under(children_of(b)[k], x),
        ensures
            x.level < b.level,
            child_index(b, x) == k,
    {
        lemma_child_parent(b, k);
        let c = children_of(b)[k];
        assert(ancestor_at(x, (b.level - 1 - x.level) as nat) == c);
        if k == 0 {} else if k == 1 {} else if k == 2 {} else {}
    }

    proof fn lemma_walk_step_distinct(b: BlockId, k: int, prev: Seq<BlockId>, sv: Seq<BlockId>)
        requires
            b.level > 0,
            2 * b.row + 1 <= usize::MAX,
            2 * b.col + 1 <= usize::MAX,
            0 <= k < 4,
            prev.len() > 0,
            prev[0] == b,
            prev.no_duplicates(),
            sv.no_duplicates(),
            forall|i: int| 0 < i < prev.len() ==> 0 <= child_index(b, #[trigger] prev[i]) < k,
            forall|q: int| 0 <= q < sv.len() ==> under(children_of(b)[k], #[trigger] sv[q]),
        ensures
            (prev + sv).no_duplicates(),
    {
        let r = prev + sv;
        assert forall|i: int, j: int| 0 <= i < j < r.len() implies r[i] != r[j] by {
            if j >= prev.len() {
                let x = sv[j - prev.len()];
                assert(r[j] == x);
                Self::lemma_child_index_of(b, k, x);
                if i >= prev.len() {
                    assert(sv[i - prev.len()] == r[i]);
                } else {
                    assert(r[i] == prev[i]);
                }
            } else {
                assert(prev[i] == r[i] && prev[j] == r[j]);
            }
        }
    }

    proof fn lemma_walk_step_parents<F: Fn(&MeshTree, BlockId) -> bool>(&self, b: BlockId, visit: &F, k: int, prev: Seq<BlockId>, sv: Seq<BlockId>)
        requires
            self.walk_step_pre(b, visit, k, prev, sv),
        ensures
            forall|i: int|
                0 < i < (prev + sv).len() ==> (exists|j: int| 0 <= j < i && (prev + sv)[j] == parent_of(#[trigger] (prev + sv)[i]))
                    && visit.ensures((self, parent_of((prev + sv)[i])), true),
    {
        let r = prev + sv;
        let c = children_of(b)[k];
        lemma_child_parent(b, k);
        assert forall|i: int| 0 < i < r.len() implies (exists|j: int| 0 <= j < i && r[j] == parent_of(#[trigger] r[i]))
            && visit.ensures((self, parent_of(r[i])), true) by {
            if i >= prev.len() {
                let q = i - prev.len();
                assert(r[i] == sv[q]);
                if q == 0 {
                    assert(sv[0] == c);
                    assert(r[0] == b);
                } else {
                    let j0 = choose|j: int| 0 <= j < q && sv[j] == parent_of(#[trigger] sv[q]);
                    assert(r[prev.len() + j0] == parent_of(r[i]));
                }
            } else {
                assert(r[i] == prev[i]);
                let j0 = choose|j: int| 0 <= j < i && prev[j] == parent_of(#[trigger] prev[i]);
                assert(r[j0] == parent_of(r[i]));
            }
        }
    }

    proof fn lemma_walk_step_children<F: Fn(&MeshTree, BlockId) -> bool>(&self, b: BlockId, visit: &F, k: int, prev: Seq<BlockId>, sv: Seq<BlockId>)
        requires
            self.walk_step_pre(b, visit, k, prev, sv),
        ensures
            forall|i: int|
                0 < i < (prev + sv).len() && (#[trigger] (prev + sv)[i]).level > 0 ==> (visit.ensures((self, (prev + sv)[i]), false) || forall|m: int|
                    0 <= m < 4 ==> (prev + sv).contains(#[trigger] children_of((prev + sv)[i])[m])),
    {
        let r = prev + sv;
        Self::lemma_concat_contains(prev, sv);
        assert forall|i: int|
            0 < i < r.len() && (#[trigger] r[i]).level > 0 implies (visit.ensures((self, r[i]), false) || forall|m: int|
                0 <= m < 4 ==> r.contains(#[trigger] children_of(r[i])[m])) by {
            if i >= prev.len() {
                let j = i - prev.len();
                assert(r[i] == sv[j]);
                if !visit.ensures((self, sv[j]), false) {
                    assert forall|m: int| 0 <= m < 4 implies r.contains(#[trigger] children_of(r[i])[m]) by {
                        assert(sv.contains(children_of(sv[j])[m]));
                    }
                }
            } else {
                assert(r[i] == prev[i]);
                if !visit.ensures((self, prev[i]), false) {
                    assert forall|m: int| 0 <= m < 4 implies r.contains(#[trigger] children_of(r[i])[m]) by {
                        assert(prev.contains(children_of(prev[i])[m]));
                    }
                }
            }
        }
    }

    proof fn lemma_walk_step<F: Fn(&MeshTree, BlockId) -> bool>(&self, b: BlockId, visit: &F, k: int, prev: Seq<BlockId>, sv: Seq<BlockId>)
        requires
            self.walk_step_pre(b, visit, k, prev, sv),
        ensures
            self.walk_prefix(b, visit, k + 1, prev + sv),
    {
        self.lemma_walk_step_members(b, visit, k, prev, sv);
        let c = children_of(b)[k];
        assert(sv.no_duplicates() && prev.no_duplicates());
        assert forall|q: int| 0 <= q < sv.len() implies under(c, #[trigger] sv[q]) by {
            assert(self.has(sv[q]) && under(c, sv[q]));
        }
        Self::lemma_walk_step_distinct(b, k, prev, sv);
        self.lemma_walk_step_parents(b, visit, k, prev, sv);
        self.lemma_walk_step_children(b, visit, k, prev, sv);
        assert((prev + sv)[0] == b);
    }

    /// Visits `b` and, where `visit` says so, the blocks below it, each block
    /// before its children.
    fn walk_block<F: Fn(&MeshTree, BlockId) -> bool>(&self, b: BlockId, visit: &F) -> (r: Vec<BlockId>)
        requires
            self.wf(),
            self.has(b),
            forall|t: &MeshTree, x: BlockId| #[trigger] visit.requires((t, x)),
        ensures
            self.walk_from(b, visit, r@),
        decreases b.level,
    {
        let mut r: Vec<BlockId> = Vec::new();
        r.push(b);
        let descend = visit(self, b);
        proof {
            assert(ancestor_at(b, 0) == b);
            assert(r@.no_duplicates());
        }
        if !descend || b.level == 0 {
            return r;
        }
        proof { lemma_row_bound(self, b); }
        let children = self.children(b);
        let mut k: usize = 0;
        while k < 4
            invariant
                self.wf(),
                self.has(b),
                b.level > 0,
                forall|t: &MeshTree, x: BlockId| #[trigger] visit.requires((t, x)),
                visit.ensures((self, b), true),
                children@ == children_of(b),
                2 * b.row + 1 < self.rows_at(b.level - 1) <= usize::MAX,
                2 * b.col + 1 < self.cols_at(b.level - 1) <= usize::MAX,
                forall|m: int| 0 <= m < 4 ==> self.has(#[trigger] children_of(b)[m]),
                k <= 4,
                self.walk_prefix(b, visit, k as int, r@),
            decreases 4 - k,
        {
            let c = children[k];
            proof { lemma_child_parent(b, k as int); }
            let mut sub = self.walk_block(c, visit);
            let ghost prev = r@;
            let ghost sv = sub@;
            r.append(&mut sub);
            proof {
                self.lemma_walk_step(b, visit, k as int, prev, sv);
                assert(r@ == prev + sv);
            }
            k += 1;
        }
        proof {
            assert forall|i: int| 0 <= i < r@.len() && (#[trigger] r@[i]).level > 0 implies (visit.ensures((self, r@[i]), false) || forall|m: int|
                0 <= m < 4 ==> r@.contains(#[trigger] children_of(r@[i])[m])) by {
                if i == 0 {
                    assert(r@[0] == b);
                }
            }
        }
        r
    }

    /// Visits every block in pre-order from each top-level block in
    /// row-major order, descending below a block only where `visit` returns
    /// `true` for it; returns the blocks visited, in visiting order.  Each
    /// block is visited at most once and after its parent, the top-level
    /// blocks come in row-major order, and a block below the top is visited
    /// only when the visitor said to go down at its parent.
    #[verifier::rlimit(100)]
    pub fn walk<F: Fn(&MeshTree, BlockId) -> bool>(&self, visit: &F) -> (r: Vec<BlockId>)
        requires
            self.wf(),
            forall|t: &MeshTree, x: BlockId| #[trigger] visit.requires((t, x)),
        ensures
            r@.no_duplicates(),
            forall|x: BlockId| #[trigger] self.is_root(x) ==> r@.contains(x),
            forall|k: int| 0 <= k < r@.len() ==> self.has(#[trigger] r@[k]),
            forall|k: int, m: int|
                0 <= k < m < r@.len() && self.is_root(#[trigger] r@[k]) && self.is_root(#[trigger] r@[m])
                    ==> (r@[k].row < r@[m].row || (r@[k].row == r@[m].row && r@[k].col < r@[m].col)),
            forall|k: int| 0 <= k < r@.len() && !self.is_root(#[trigger] r@[k]) ==> (exists|j: int| 0 <= j < k && r@[j] == parent_of(r@[k]))
                && visit.ensures((self, parent_of(r@[k])), true),
            forall|k: int|
                0 <= k < r@.len() && (#[trigger] r@[k]).level > 0 ==> (visit.ensures((self, r@[k]), false) || forall|m: int|
                    0 <= m < 4 ==> r@.contains(#[trigger] children_of(r@[k])[m])),
    {
        let top = self.levels.len() - 1;
        let (rows, cols) = self.levels[top].entries.dim();
        let mut r: Vec<BlockId> = Vec::new();
        let mut i: usize = 0;
        while i < rows
            invariant
                self.wf(),
                forall|t: &MeshTree, x: BlockId| #[trigger] visit.requires((t, x)),
                top == self.top(),
                rows == self.rows_at(top as int),
                cols == self.cols_at(top as int),
                i <= rows,
                r@.no_duplicates(),
                forall|k: int| 0 <= k < r@.len() ==> self.has(#[trigger] r@[k]) && self.is_root(root_above(self, r@[k]))
                    && under(root_above(self, r@[k]), r@[k]) && root_above(self, r@[k]).row < i,
                forall|x: BlockId| #[trigger] self.is_root(x) && x.row < i ==> r@.contains(x),
                forall|k: int, m: int|
                    0 <= k < m < r@.len() && self.is_root(#[trigger] r@[k]) && self.is_root(#[trigger] r@[m])
                        ==> (r@[k].row < r@[m].row || (r@[k].row == r@[m].row && r@[k].col < r@[m].col)),
                forall|k: int| 0 <= k < r@.len() && !self.is_root(#[trigger] r@[k]) ==> (exists|j: int| 0 <= j < k && r@[j] == parent_of(r@[k]))
                    && visit.ensures((self, parent_of(r@[k])), true),
                forall|k: int|
                    0 <= k < r@.len() && (#[trigger] r@[k]).level > 0 ==> (visit.ensures((self, r@[k]), false) || forall|m: int|
                        0 <= m < 4 ==> r@.contains(#[trigger] children_of(r@[k])[m])),
            decreases rows - i,
        {
            let mut j: usize = 0;
            while j < cols
                invariant
                    self.wf(),
                    forall|t: &MeshTree, x: BlockId| #[trigger] visit.requires((t, x)),
                    top == self.top(),
                    rows == self.rows_at(top as int),
                    cols == self.cols_at(top as int),
                    i < rows,
                    j <= cols,
                    r@.no_duplicates(),
                    forall|k: int| 0 <= k < r@.len() ==> self.has(#[trigger] r@[k]) && self.is_root(root_above(self, r@[k]))
                        && under(root_above(self, r@[k]), r@[k]) && (root_above(self, r@[k]).row < i
                        || (root_above(self, r@[k]).row == i && root_above(self, r@[k]).col < j)),
                    forall|x: BlockId| #[trigger] self.is_root(x) && (x.row < i || (x.row == i && x.col < j)) ==> r@.contains(x),
                    forall|k: int, m: int|
                        0 <= k < m < r@.len() && self.is_root(#[trigger] r@[k]) && self.is_root(#[trigger] r@[m])
                            ==> (r@[k].row < r@[m].row || (r@[k].row == r@[m].row && r@[k].col < r@[m].col)),
                    forall|k: int| 0 <= k < r@.len() && !self.is_root(#[trigger] r@[k]) ==> (exists|j: int| 0 <= j < k && r@[j] == parent_of(r@[k]))
                        && visit.ensures((self, parent_of(r@[k])), true),
                    forall|k: int|
                        0 <= k < r@.len() && (#[trigger] r@[k]).level > 0 ==> (visit.ensures((self, r@[k]), false) || forall|m: int|
                            0 <= m < 4 ==> r@.contains(#[trigger] children_of(r@[k])[m])),
                decreases cols - j,
            {
                let root = BlockId { row: i, col: j, level: top };
                let mut sub = self.walk_block(root, visit);
                let ghost prev = r@;
                let ghost sv = sub@;
                r.append(&mut sub);
                proof {
                    assert(r@ == prev + sv);
                    assert forall|y: BlockId| prev.contains(y) implies #[trigger] r@.contains(y) by {
                        let w = choose|w: int| 0 <= w < prev.len() && prev[w] == y;
                        assert(r@[w] == y);
                    }
                    assert forall|y: BlockId| sv.contains(y) implies #[trigger] r@.contains(y) by {
                        let w = choose|w: int| 0 <= w < sv.len() && sv[w] == y;
                        assert(r@[prev.len() + w] == y);
                    }
                    assert(sv[0] == root && r@.contains(root));
                    assert forall|q: int| 0 <= q < sv.len() implies root_above(self, #[trigger] sv[q]) == root by {
                        lemma_ancestor_level(sv[q], (top - sv[q].level) as nat);
                    }
                    assert forall|k: int| 0 <= k < r@.len() implies self.has(#[trigger] r@[k]) && self.is_root(root_above(self, r@[k]))
                        && under(root_above(self, r@[k]), r@[k]) && (root_above(self, r@[k]).row < i
                        || (root_above(self, r@[k]).row == i && root_above(self, r@[k]).col < j + 1)) by {
                        if k >= prev.len() {
                            assert(r@[k] == sv[k - prev.len()]);
                        } else {
                            assert(r@[k] == prev[k]);
                        }
                    }
                    assert forall|a: int, b: int| 0 <= a < b < r@.len() implies r@[a] != r@[b] by {
                        if b >= prev.len() && a < prev.len() {
                            assert(r@[b] == sv[b - prev.len()]);
                            assert(r@[a] == prev[a]);
                        } else if a >= prev.len() {
                            assert(r@[b] == sv[b - prev.len()] && r@[a] == sv[a - prev.len()]);
                        } else {
                            assert(r@[b] == prev[b] && r@[a] == prev[a]);
                        }
                    }
                    assert forall|k: int, m: int|
                        0 <= k < m < r@.len() && self.is_root(#[trigger] r@[k]) && self.is_root(#[trigger] r@[m])
                            implies (r@[k].row < r@[m].row || (r@[k].row == r@[m].row && r@[k].col < r@[m].col)) by {
                        if m >= prev.len() {
                            let x = sv[m - prev.len()];
                            assert(r@[m] == x);
                            lemma_ancestor_level(x, (top - x.level) as nat);
                            assert(ancestor_at(x, 0) == x);
                            assert(x == root);
                            if k >= prev.len() {
                                let y = sv[k - prev.len()];
                                assert(r@[k] == y);
                                assert(ancestor_at(y, 0) == y);
                                assert(y == root);
                                assert(sv[k - prev.len()] == sv[m - prev.len()]);
                            } else {
                                assert(r@[k] == prev[k]);
                                assert(ancestor_at(prev[k], 0) == prev[k]);
                            }
                        } else {
                            assert(r@[k] == prev[k] && r@[m] == prev[m]);
                        }
                    }
                    assert forall|k: int| 0 <= k < r@.len() && !self.is_root(#[trigger] r@[k]) implies (exists|j: int| 0 <= j < k && r@[j] == parent_of(r@[k]))
                        && visit.ensures((self, parent_of(r@[k])), true) by {
                        if k >= prev.len() {
                            let q = k - prev.len();
                            assert(r@[k] == sv[q]);
                            if q == 0 {
                                assert(self.is_root(sv[0]));
                            } else {
                                let j0 = choose|j: int| 0 <= j < q && sv[j] == parent_of(#[trigger] sv[q]);
                                assert(r@[prev.len() + j0] == parent_of(r@[k]));
                            }
                        } else {
                            assert(r@[k] == prev[k]);
                            let j0 = choose|j: int| 0 <= j < k && prev[j] == parent_of(prev[k]);
                            assert(r@[j0] == parent_of(r@[k]));
                        }
                    }
                    assert forall|k: int|
                        0 <= k < r@.len() && (#[trigger] r@[k]).level > 0 implies (visit.ensures((self, r@[k]), false) || forall|m: int|
                            0 <= m < 4 ==> r@.contains(#[trigger] children_of(r@[k])[m])) by {
                        if k >= prev.len() {
                            let q = k - prev.len();
                            assert(r@[k] == sv[q]);
                            if !visit.ensures((self, sv[q]), false) {
                                assert forall|m: int| 0 <= m < 4 implies r@.contains(#[trigger] children_of(r@[k])[m]) by {
                                    assert(sv.contains(children_of(sv[q])[m]));
                                }
                            }
                        } else {
                            if !visit.ensures((self, prev[k]), false) {
                                assert forall|m: int| 0 <= m < 4 implies r@.contains(#[trigger] children_of(r@[k])[m]) by {
                                    assert(prev.contains(children_of(prev[k])[m]));
                                }
                            }
                        }
                    }
                }
                j += 1;
            }
            i += 1;
        }
        r
    }

    /// Whether a block lies inside the map.
    pub fn valid(&self, block_id: BlockId) -> (r: bool)
        requires
            self.wf(),
            self.has(block_id),
        ensures
            r == !(self.kind(block_id) is Invalid),
    {
        match self.get_entry(block_id).kind {
            BlockKind::Invalid => false,
            _ => true,
        }
    }

    /// Whether a block has a mesh.
    pub fn populated(&self, block_id: BlockId) -> (r: bool)
        requires
            self.wf(),
            self.has(block_id),
        ensures
            r == self.is_populated(block_id),
    {
        match self.get_entry(block_id).kind {
            BlockKind::Populated(_) => true,
            _ => false,
        }
    }
}


/// Invalidity propagates upward consistently: every child of a node that lies
/// inside the map is a node of the tree that lies inside the map too, so a
/// node whose children are all `Invalid` is `Invalid` itself.
pub proof fn lemma_valid_parent_valid_children(t: &MeshTree, b: BlockId)
    requires
        t.wf(),
        t.has(b),
        b.level > 0,
        !(t.kind(b) is Invalid),
    ensures
        forall|k: int| 0 <= k < 4 ==> t.has(#[trigger] children_of(b)[k]) && !(t.kind(children_of(b)[k]) is Invalid),
{
    let l = b.level as int;
    assert(t.rows_at(l - 1) == 2 * t.rows_at(l));
    assert(halved(t.height as int, l as nat) == halved(t.height as int, (l - 1) as nat) / 2);
    assert(halved(t.width as int, l as nat) == halved(t.width as int, (l - 1) as nat) / 2);
    assert forall|k: int| 0 <= k < 4 implies t.has(#[trigger] children_of(b)[k]) && !(t.kind(children_of(b)[k]) is Invalid) by {
        let c = children_of(b)[k];
        assert(t.has(c));
        assert(t.inside(c.row as int, c.col as int, c.level as int));
    }
}

} // verus!
