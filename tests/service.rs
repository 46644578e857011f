use rreng::grid::Grid;
use rreng::mesh_tree::{BlockId, BlockKind};
use rreng::service::TerrainService;
use rreng::terrain::TerrainLayer;

fn dirty(s: &TerrainService<f32>) -> Vec<(usize, usize)> {
    let mut out = Vec::new();
    for row in &s.data.block_info {
        for b in row {
            if b.dirty {
                out.push(b.block_num);
            }
        }
    }
    out
}

#[test]
fn scenario_ingest_and_schedule() {
    let mut s: TerrainService<f32> = TerrainService::new();
    s.reset([128, 128], &vec![TerrainLayer::Elevation], 0.0);
    assert_eq!(s.terrain.num_blocks, [2, 2]);
    assert_eq!(s.trees.len(), 1);
    assert_eq!(s.trees[0].1.levels.len(), 2);

    let rows: Vec<Vec<f32>> = (0..65)
        .map(|r| (0..65).map(|c| if r == 12 && c == 50 { 431.5 } else { (r * c) as f32 / 100.0 }).collect())
        .collect();
    let tile = Grid::from_rows(rows).unwrap();
    assert!(s.set_elevation(TerrainLayer::Elevation, (0, 0), &tile));
    assert!(!s.set_elevation(TerrainLayer::Structure, (0, 0), &tile));
    assert!(dirty(&s).contains(&(0, 0)));

    let batch = s.dirty_batch();
    assert_eq!(batch, vec![(0, 0), (0, 1), (1, 0), (1, 1)]);
    let orders = s.build_orders(TerrainLayer::Elevation, &batch);
    assert_eq!(orders.len(), 5);
    assert_eq!(orders[0].block, BlockId { row: 0, col: 0, level: 1 });
    assert_eq!((orders[0].range.0.clone(), orders[0].range.1.clone()), (0..129, 0..129));
    assert_eq!(orders[0].spacing, 2);
    let leaf = orders.iter().find(|o| o.block == BlockId { row: 0, col: 0, level: 0 }).unwrap();
    assert_eq!((leaf.range.0.clone(), leaf.range.1.clone(), leaf.spacing), (0..65, 0..65, 1));

    s.finish_batch(&batch);
    assert!(!s.data.block_info[0][0].dirty);
    assert!(dirty(&s).is_empty());
    assert_eq!(s.elevation_at(12, 50), Some(431.5));
    assert_eq!(s.elevation_at(200, 0), None);
}

#[test]
fn install_and_select() {
    let mut s: TerrainService<f32> = TerrainService::new();
    s.reset([128, 128], &vec![TerrainLayer::Elevation], 0.0);
    let root = BlockId { row: 0, col: 0, level: 1 };
    assert_eq!(s.install_mesh(TerrainLayer::Elevation, root, 1), None);
    assert_eq!(s.install_mesh(TerrainLayer::Structure, root, 2), None);
    assert_eq!(s.install_mesh(TerrainLayer::Elevation, BlockId { row: 5, col: 0, level: 0 }, 3), None);
    assert_eq!(s.select(TerrainLayer::Elevation, &vec![root]), vec![root]);
    let mut id = 10;
    for r in 0..2 {
        for c in 0..2 {
            assert_eq!(s.install_mesh(TerrainLayer::Elevation, BlockId { row: r, col: c, level: 0 }, id), None);
            id += 1;
        }
    }
    assert_eq!(s.select(TerrainLayer::Elevation, &vec![]), vec![root]);
    assert_eq!(s.select(TerrainLayer::Elevation, &vec![root]).len(), 4);
    assert_eq!(s.install_mesh(TerrainLayer::Elevation, root, 20), Some(1));
    assert_eq!(s.trees[0].1.get_entry(root).kind, BlockKind::Populated(20));
}
