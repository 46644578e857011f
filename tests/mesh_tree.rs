use rreng::mesh_tree::{BlockId, BlockKind, MeshTree};

#[test]
fn test_new() {
    let tree = MeshTree::new([2, 2], 1);
    assert_eq!(tree.height, 2);
    assert_eq!(tree.width, 2);
    assert_eq!(tree.levels.len(), 2);
    assert_eq!(tree.levels[0].entries.dim(), (2, 2));
    assert_eq!(tree.levels[1].entries.dim(), (1, 1));
    assert_eq!(tree.levels[1].entries.get(0, 0).kind, BlockKind::Pending);
}

#[test]
fn test_irregular() {
    let tree = MeshTree::new([3, 7], 2);
    assert_eq!(tree.height, 3);
    assert_eq!(tree.width, 7);
    assert_eq!(tree.levels.len(), 3);
    assert_eq!(tree.levels[0].entries.dim(), (4, 8));
    assert_eq!(tree.levels[1].entries.dim(), (2, 4));
    assert_eq!(tree.levels[2].entries.dim(), (1, 2));
    assert_eq!(tree.levels[0].entries.get(3, 7).kind, BlockKind::Invalid);
    assert_eq!(tree.levels[1].entries.get(1, 3).kind, BlockKind::Invalid);
    assert_eq!(tree.levels[2].entries.get(0, 1).kind, BlockKind::Invalid);
}

#[test]
fn test_structure() {
    let tree = MeshTree::new([2, 2], 1);
    let root = BlockId { row: 0, col: 0, level: 1 };
    let leaves = [
        BlockId { row: 0, col: 0, level: 0 },
        BlockId { row: 0, col: 1, level: 0 },
        BlockId { row: 1, col: 0, level: 0 },
        BlockId { row: 1, col: 1, level: 0 },
    ];
    assert_eq!(tree.ancestors(root), vec![], "ancestors(root)");
    assert_eq!(tree.ancestors(leaves[0]), vec![root], "ancestors(child)");
    assert_eq!(tree.children(root), leaves, "children");

    let visited = tree.walk(&|_: &MeshTree, _: BlockId| true);
    let num_visited = visited.len();
    assert_eq!(num_visited, 5, "num_visited");
}

#[test]
fn irregular_grid_seven_by_three() {
    let tree = MeshTree::new([7, 3], 2);
    assert_eq!(tree.levels.len(), 3);
    assert_eq!(tree.levels[0].entries.dim(), (8, 4));
    for r in 0..8 {
        for c in 0..4 {
            let b = BlockId { row: r, col: c, level: 0 };
            assert_eq!(tree.valid(b), r < 7 && c < 3);
        }
    }
    // level 1 keeps the blocks whose four children are all inside
    assert!(tree.valid(BlockId { row: 2, col: 0, level: 1 }));
    assert!(!tree.valid(BlockId { row: 3, col: 0, level: 1 }));
    assert!(!tree.valid(BlockId { row: 0, col: 1, level: 1 }));
    // a parent whose children are all invalid is invalid
    for r in 0..2 {
        for c in 0..1 {
            let p = BlockId { row: r, col: c, level: 2 };
            let kids = tree.children(p);
            if kids.iter().all(|k| !tree.valid(*k)) {
                assert!(!tree.valid(p));
            }
            if tree.valid(p) {
                assert!(kids.iter().all(|k| tree.valid(*k)));
            }
        }
    }
}

#[test]
fn set_mesh_returns_previous_mesh() {
    let mut tree = MeshTree::new([2, 2], 1);
    let b = BlockId { row: 1, col: 0, level: 0 };
    assert!(!tree.populated(b));
    assert_eq!(tree.set_mesh(b, BlockKind::Populated(7)), None);
    assert!(tree.populated(b));
    assert_eq!(tree.get_entry(b).kind, BlockKind::Populated(7));
    assert_eq!(tree.set_mesh(b, BlockKind::Populated(9)), Some(7));
    assert_eq!(tree.set_mesh(b, BlockKind::Pending), Some(9));
    assert!(!tree.populated(b));
}

#[test]
fn parent_ancestors_and_descendants() {
    let tree = MeshTree::new([4, 4], 4);
    assert_eq!(tree.levels.len(), 3);
    let leaf = BlockId { row: 3, col: 2, level: 0 };
    assert_eq!(tree.parent(leaf), BlockId { row: 1, col: 1, level: 1 });
    assert_eq!(
        tree.ancestors(leaf),
        vec![BlockId { row: 1, col: 1, level: 1 }, BlockId { row: 0, col: 0, level: 2 }]
    );
    assert!(tree.children(leaf).is_empty());
    assert!(tree.descendants(leaf).is_empty());
    let root = BlockId { row: 0, col: 0, level: 2 };
    let d = tree.descendants(root);
    assert_eq!(d.len(), 1 + 4 + 16);
    assert_eq!(d[0], root);
    assert!(d.contains(&leaf));
    // pre-order: every block after its parent, none twice
    for (k, b) in d.iter().enumerate() {
        if k > 0 {
            let p = tree.parent(*b);
            assert!(d[..k].contains(&p));
        }
        assert!(!d[k + 1..].contains(b));
    }
    assert_eq!(d[1], BlockId { row: 0, col: 0, level: 1 });
    assert_eq!(d[2], BlockId { row: 0, col: 0, level: 0 });
}

#[test]
fn walk_stops_where_visitor_says() {
    let tree = MeshTree::new([4, 4], 4);
    let visited = tree.walk(&|_: &MeshTree, b: BlockId| b.level == 2);
    assert_eq!(visited.len(), 5);
    let all = tree.walk(&|_: &MeshTree, _: BlockId| true);
    assert_eq!(all.len(), 21);
    assert_eq!(all[1], BlockId { row: 0, col: 0, level: 1 });
    assert_eq!(all[2], BlockId { row: 0, col: 0, level: 0 });
    assert_eq!(all[6], BlockId { row: 0, col: 1, level: 1 });
    assert_eq!(visited[0], BlockId { row: 0, col: 0, level: 2 });
}
