use rreng::edit::neighbours;
use rreng::grid::Grid;
use rreng::mesh_tree::{BlockId, BlockKind, MeshTree};
use rreng::rendering::{block_range, level_span, needs_selection, select_meshes, GraphicsEvent};

fn populated_tree() -> MeshTree {
    let mut tree = MeshTree::new([2, 2], 1);
    let mut id = 1;
    for b in tree.walk(&|_: &MeshTree, _: BlockId| true) {
        tree.set_mesh(b, BlockKind::Populated(id));
        id += 1;
    }
    tree
}

#[test]
fn far_camera_shows_root_only() {
    let tree = populated_tree();
    let shown = select_meshes(&tree, &vec![]);
    assert_eq!(shown, vec![BlockId { row: 0, col: 0, level: 1 }]);
}

#[test]
fn near_camera_shows_children_only() {
    let tree = populated_tree();
    let root = BlockId { row: 0, col: 0, level: 1 };
    let shown = select_meshes(&tree, &vec![root]);
    assert_eq!(shown.len(), 4);
    assert!(!shown.contains(&root));
    for c in tree.children(root) {
        assert!(shown.contains(&c));
    }
}

#[test]
fn missing_child_keeps_parent_shown() {
    let mut tree = populated_tree();
    let root = BlockId { row: 0, col: 0, level: 1 };
    tree.set_mesh(BlockId { row: 1, col: 1, level: 0 }, BlockKind::Pending);
    let shown = select_meshes(&tree, &vec![root]);
    assert_eq!(shown, vec![root]);
}

#[test]
fn pending_root_shows_ready_children() {
    let mut tree = MeshTree::new([2, 2], 1);
    tree.set_mesh(BlockId { row: 0, col: 1, level: 0 }, BlockKind::Populated(3));
    let shown = select_meshes(&tree, &vec![]);
    assert_eq!(shown, vec![BlockId { row: 0, col: 1, level: 0 }]);
}

#[test]
fn one_lod_per_path() {
    let tree = populated_tree();
    for near in [vec![], vec![BlockId { row: 0, col: 0, level: 1 }]] {
        let shown = select_meshes(&tree, &near);
        for leaf in tree.children(BlockId { row: 0, col: 0, level: 1 }) {
            let on_path = shown
                .iter()
                .filter(|b| **b == leaf || **b == BlockId { row: 0, col: 0, level: 1 })
                .count();
            assert_eq!(on_path, 1);
        }
    }
}

#[test]
fn selection_events() {
    assert!(!needs_selection(&vec![]));
    assert!(!needs_selection(&vec![GraphicsEvent::LoadedLevel]));
    assert!(needs_selection(&vec![GraphicsEvent::LoadedLevel, GraphicsEvent::MoveCamera]));
    assert!(needs_selection(&vec![GraphicsEvent::RenderTerrain]));
}

#[test]
fn block_ranges_and_spacing() {
    let r = block_range(64, BlockId { row: 1, col: 0, level: 0 });
    assert_eq!((r.0.clone(), r.1.clone()), (64..129, 0..65));
    let r = block_range(64, BlockId { row: 1, col: 2, level: 2 });
    assert_eq!((r.0.clone(), r.1.clone()), (256..513, 512..769));
    assert_eq!(level_span(0), 1);
    assert_eq!(level_span(3), 8);
}

#[test]
fn strided_sample() {
    let rows: Vec<Vec<u32>> = (0..9).map(|r| (0..9).map(|c| 10 * r + c).collect()).collect();
    let g = Grid::from_rows(rows).unwrap();
    let s = g.sample(&rreng::utils::Range2(0..9, 4..9), 4);
    assert_eq!(s.dim(), (3, 2));
    assert_eq!(s.get(1, 1), 48);
    assert_eq!(s.get(2, 0), 84);
}

#[test]
fn neighbours_inside_grid() {
    assert_eq!(neighbours(0, 0, (3, 3)), vec![(0, 1), (1, 0), (1, 1)]);
    assert_eq!(neighbours(1, 1, (3, 3)).len(), 8);
    assert_eq!(neighbours(2, 1, (3, 3)), vec![(1, 0), (1, 1), (1, 2), (2, 0), (2, 2)]);
}
