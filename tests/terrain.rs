use rreng::grid::Grid;
use rreng::mesh_tree::{BlockId, MeshTree};
use rreng::rendering::{blocks_needed, dirty_blocks, MAX_MESH_TREE_LEVEL, RENDERS_PER_FRAME};
use rreng::terrain::{Terrain, TerrainData, TerrainLayer};
use rreng::utils::Range2;

fn map(size: usize) -> (Terrain, TerrainData<f32>) {
    let mut terrain = Terrain::default();
    terrain.reset([size, size]);
    let mut data = TerrainData::new();
    data.reset(&terrain, &vec![TerrainLayer::Elevation, TerrainLayer::Structure], 0.0f32);
    (terrain, data)
}

fn dirty(data: &TerrainData<f32>) -> Vec<(usize, usize)> {
    let mut out = Vec::new();
    for row in &data.block_info {
        for b in row {
            if b.dirty {
                out.push(b.block_num);
            }
        }
    }
    out
}

fn grid(data: &TerrainData<f32>, layer: TerrainLayer) -> &Grid<f32> {
    &data.layers.iter().find(|(l, _)| *l == layer).unwrap().1
}

#[test]
fn reset_lays_out_blocks() {
    let (terrain, data) = map(128);
    assert_eq!(terrain.block_size, 64);
    assert_eq!(terrain.num_blocks, [2, 2]);
    assert_eq!(terrain.point_dims, [129, 129]);
    assert_eq!(grid(&data, TerrainLayer::Elevation).dim(), (129, 129));
    let b = &data.block_info[1][0];
    assert_eq!(b.block_num, (1, 0));
    assert_eq!((b.range.0.clone(), b.range.1.clone()), (64..129, 0..65));
    assert!(dirty(&data).is_empty());
}

#[test]
fn copy_outside_grid_is_noop() {
    let (_, mut data) = map(128);
    let patch = Grid::filled(10, 10, 5.0f32);
    data.set_elevation((200, 0), &patch, TerrainLayer::Elevation);
    data.set_elevation((-10, -10), &patch, TerrainLayer::Elevation);
    data.set_elevation((0, 129), &patch, TerrainLayer::Elevation);
    let g = grid(&data, TerrainLayer::Elevation);
    for r in 0..129 {
        for c in 0..129 {
            assert_eq!(g.get(r, c), 0.0);
        }
    }
    assert!(dirty(&data).is_empty());
}

#[test]
fn copy_partial_overlap_cell_by_cell() {
    let (_, mut data) = map(128);
    let rows: Vec<Vec<f32>> = (0..4).map(|r| (0..5).map(|c| (10 * r + c) as f32 + 1.0).collect()).collect();
    let patch = Grid::from_rows(rows).unwrap();
    data.set_elevation((-1, 126), &patch, TerrainLayer::Structure);
    let g = grid(&data, TerrainLayer::Structure);
    for r in 0..129usize {
        for c in 0..129usize {
            let pr = r as isize + 1;
            let pc = c as isize - 126;
            let expect = if (0..4).contains(&pr) && (0..5).contains(&pc) {
                (10 * pr + pc) as f32 + 1.0
            } else {
                0.0
            };
            assert_eq!(g.get(r, c), expect, "cell {} {}", r, c);
        }
    }
    // the other layer is untouched
    assert_eq!(grid(&data, TerrainLayer::Elevation).get(0, 126), 0.0);
    // rows 0..3, cols 126..129 lie in block (0, 1) only
    assert_eq!(dirty(&data), vec![(0, 1)]);
}

#[test]
fn dirty_marks_exactly_overlapping_blocks() {
    let (_, mut data) = map(256);
    // a write on the shared edge row 64 touches both block rows
    data.dirty_range(&Range2(64..65, 70..80));
    assert_eq!(dirty(&data), vec![(0, 1), (1, 1)]);
    data.dirty_range(&Range2(200..210, 200..256));
    assert_eq!(dirty(&data), vec![(0, 1), (1, 1), (3, 3)]);
    data.dirty_range(&Range2(5..5, 5..5));
    assert_eq!(dirty(&data), vec![(0, 1), (1, 1), (3, 3)]);
    data.dirty_range(&Range2(129..130, 0..1));
    assert_eq!(dirty(&data), vec![(0, 1), (1, 1), (2, 0), (3, 3)]);
}

#[test]
fn elevation_lookup() {
    let (terrain, mut data) = map(128);
    let patch = Grid::from_rows(vec![vec![3.5f32]]).unwrap();
    data.set_elevation((10, 20), &patch, TerrainLayer::Elevation);
    assert_eq!(data.elevation_at(10, 20), Some(3.5));
    assert_eq!(data.elevation_at(129, 0), None);
    assert_eq!(terrain.coord_to_offset(20, 118), (10, 20));
    let empty: TerrainData<f32> = TerrainData::new();
    assert_eq!(empty.elevation_at(0, 0), None);
}

#[test]
fn end_to_end_tile_ingest() {
    let (terrain, mut data) = map(128);
    assert_eq!(terrain.num_blocks, [2, 2]);
    let rows: Vec<Vec<f32>> = (0..65)
        .map(|r| (0..65).map(|c| if r == 30 && c == 40 { 812.25 } else { (r + c) as f32 * 0.5 }).collect())
        .collect();
    let tile = Grid::from_rows(rows).unwrap();
    data.set_elevation((0, 0), &tile, TerrainLayer::Elevation);
    assert_eq!(dirty(&data), vec![(0, 0), (0, 1), (1, 0), (1, 1)]);

    let tree = MeshTree::new(terrain.num_blocks, MAX_MESH_TREE_LEVEL);
    assert_eq!(tree.levels.len(), 2);
    let batch = dirty_blocks(&data, RENDERS_PER_FRAME);
    let scheduled = blocks_needed(&tree, &batch);
    assert_eq!(scheduled[0], BlockId { row: 0, col: 0, level: 1 });
    assert!(scheduled.contains(&BlockId { row: 0, col: 0, level: 0 }));
    assert_eq!(scheduled.len(), 5);
    data.clear_dirty(&batch);
    assert!(!data.block_info[0][0].dirty);
    assert!(dirty(&data).is_empty());
    assert_eq!(data.elevation_at(30, 40), Some(812.25));
}
