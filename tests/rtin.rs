use rreng::grid::Grid;
use rreng::rtin::{build_rtin_mesh, triangle_coords, triangulate_basic, Triangle, Triangulation};

#[test]
fn trivial() {
    let points = Grid::from_rows(vec![vec![1.0, 2.0], vec![1.0, 3.0]]).unwrap();

    let Triangulation { triangles } = triangulate_basic(&points);
    assert_eq!(2, triangles.len());
}

#[test]
fn basic_triangles_per_cell() {
    let points = Grid::filled(3, 4, 0u8);
    let t = triangulate_basic(&points).triangles;
    assert_eq!(t.len(), 2 * 2 * 3);
    assert_eq!(t[0].points, [[0, 0], [0, 1], [1, 0]]);
    assert_eq!(t[1].points, [[1, 0], [0, 1], [1, 1]]);
    assert_eq!(t[7].points, [[2, 0], [1, 1], [2, 1]]);
    assert_eq!(t[11].points, [[2, 2], [1, 3], [2, 3]]);
}

fn count(split: &Grid<bool>) -> usize {
    build_rtin_mesh(split).len()
}

#[test]
fn rtin_no_split_gives_two_triangles() {
    let split = Grid::filled(5, 5, false);
    let t: Vec<Triangle> = build_rtin_mesh(&split);
    assert_eq!(t.len(), 2);
    assert_eq!(t[0].points, [[0, 0], [4, 4], [0, 4]]);
    assert_eq!(t[1].points, [[4, 4], [0, 0], [4, 0]]);
}

#[test]
fn rtin_full_split_matches_basic_count() {
    let split = Grid::filled(5, 5, true);
    assert_eq!(count(&split), 2 * 4 * 4);
    let split = Grid::filled(9, 9, true);
    assert_eq!(count(&split), 2 * 8 * 8);
}

#[test]
fn rtin_threshold_monotone() {
    // errors of a 5x5 patch, thresholds applied from low to high
    let errors: Vec<Vec<u32>> = vec![
        vec![0, 1, 0, 3, 0],
        vec![2, 0, 5, 0, 1],
        vec![0, 4, 9, 2, 0],
        vec![1, 0, 3, 0, 6],
        vec![0, 2, 0, 1, 0],
    ];
    let mut last = usize::MAX;
    for threshold in 0..10u32 {
        let rows: Vec<Vec<bool>> = errors.iter().map(|r| r.iter().map(|e| *e > threshold).collect()).collect();
        let n = count(&Grid::from_rows(rows).unwrap());
        assert!(n <= last);
        last = n;
    }
    assert_eq!(last, 2);
}

#[test]
fn triangle_ids_decode() {
    // the two roots
    assert_eq!(triangle_coords(0, 4), [4, 4, 0, 0, 0, 4]);
    assert_eq!(triangle_coords(1, 4), [0, 0, 4, 4, 4, 0]);
    // id 4: second bit clear, first root of the even branch, right half
    assert_eq!(triangle_coords(2, 4), [0, 0, 0, 4, 2, 2]);
    for i in 0..(2 * 16 - 2) {
        assert!(triangle_coords(i, 4).iter().all(|c| *c <= 4));
    }
}
