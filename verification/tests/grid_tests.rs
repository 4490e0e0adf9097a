use particle_playground::grid::{collision_pairs, NeighborGrid};

// Cell of a position for a grid of the given cell size, as the simulation computes it.
fn cell_of(p: (f32, f32), cell_size: f32) -> (i32, i32) {
    ((p.0 / cell_size).floor() as i32, (p.1 / cell_size).floor() as i32)
}

// Neighbours of particle `i` within radius `h`: the grid's candidates around its cell,
// kept where the squared distance is below `h * h`.
fn neighbors_in_radius(positions: &[(f32, f32)], cell_size: f32, i: usize, h: f32) -> Vec<usize> {
    let cells: Vec<(i32, i32)> = positions.iter().map(|p| cell_of(*p, cell_size)).collect();
    let mut grid = NeighborGrid::new();
    grid.rebuild_from_cells(&cells);
    let xi = positions[i];
    let mut out = Vec::new();
    for j in grid.neighbor_candidates(cells[i], i) {
        let r = (positions[j].0 - xi.0, positions[j].1 - xi.1);
        if r.0 * r.0 + r.1 * r.1 < h * h {
            out.push(j);
        }
    }
    out
}

#[test]
fn finds_neighbors_within_radius() {
    // 3 particles
    let positions = vec![
        (0.0, 0.0), // 0
        (0.5, 0.0), // 1 (close)
        (2.0, 0.0), // 2 (further away)
    ];

    let mut neighbors = neighbors_in_radius(&positions, 1.0, 0, 1.0);

    neighbors.sort();
    assert_eq!(neighbors, vec![1]);
}

#[test]
fn finds_neighbors_across_cell_boundary() {
    let positions = vec![
        (0.99, 0.0), // Grid (0,0)
        (1.01, 0.0), // Grid (1,0)
    ];

    let neighbors = neighbors_in_radius(&positions, 1.0, 0, 0.1);

    assert_eq!(neighbors, vec![1]);
}

#[test]
fn neighbor_relation_is_symmetric() {
    let positions = vec![(0.0, 0.0), (0.4, 0.0)];

    let a = neighbors_in_radius(&positions, 1.0, 0, 1.0);
    let b = neighbors_in_radius(&positions, 1.0, 1, 1.0);

    assert_eq!(a, vec![1]);
    assert_eq!(b, vec![0]);
}

#[test]
fn candidates_come_bucket_by_bucket_row_by_row() {
    // cells: 0 -> (0,0), 1 -> (1,1), 2 -> (-1,-1), 3 -> (0,0), 4 -> (2,0), 5 -> (0,-1)
    let cells = vec![(0, 0), (1, 1), (-1, -1), (0, 0), (2, 0), (0, -1)];
    let mut grid = NeighborGrid::new();
    grid.rebuild_from_cells(&cells);
    // rows from dy = -1 to 1, columns from dx = -1 to 1: (-1,-1), (0,-1), then (0,0), then (1,1)
    assert_eq!(grid.neighbor_candidates((0, 0), 0), vec![2, 5, 3, 1]);
    assert_eq!(grid.neighbor_candidates((0, 0), 99), vec![2, 5, 0, 3, 1]);
    // index 4 at (2,0) only touches (1,1)
    assert_eq!(grid.neighbor_candidates((2, 0), 4), vec![1]);
}

#[test]
fn buckets_hold_indices_in_order() {
    let cells = vec![(3, 3), (5, 5), (3, 3), (3, 3)];
    let mut grid = NeighborGrid::new();
    grid.rebuild_from_cells(&cells);
    assert_eq!(grid.bucket((3, 3)), Some(&vec![0, 2, 3]));
    assert_eq!(grid.bucket((5, 5)), Some(&vec![1]));
    assert_eq!(grid.bucket((4, 4)), None);
    grid.clear();
    assert_eq!(grid.bucket((3, 3)), None);
}

#[test]
fn rebuild_replaces_previous_contents() {
    let mut grid = NeighborGrid::new();
    grid.rebuild_from_cells(&vec![(0, 0), (0, 0)]);
    grid.rebuild_from_cells(&vec![(7, -7)]);
    assert_eq!(grid.bucket((0, 0)), None);
    assert_eq!(grid.bucket((7, -7)), Some(&vec![0]));
}

#[test]
fn extreme_cells_are_kept_apart() {
    // cells whose coordinates differ only in sign or by one in the other axis
    let cells = vec![
        (i32::MIN, i32::MAX),
        (i32::MAX, i32::MIN),
        (-1, 0),
        (0, -1),
        (-1, -1),
        (0, 0),
    ];
    let mut grid = NeighborGrid::new();
    grid.rebuild_from_cells(&cells);
    for (i, c) in cells.iter().enumerate() {
        assert_eq!(grid.bucket(*c), Some(&vec![i]));
    }
}

#[test]
fn collision_pairs_of_small_case() {
    // particles at x = 0, 11.5, 30 and (11.5, 11.5) with cell size 12
    let cells = vec![(0, 0), (0, 0), (2, 0), (0, 0)];
    assert_eq!(collision_pairs(&cells), vec![(0, 1), (0, 3), (1, 3)]);
}

#[test]
fn collision_pairs_cover_all_eight_neighbours() {
    let cells = vec![
        (0, 0),
        (-1, -1),
        (0, -1),
        (1, -1),
        (-1, 0),
        (1, 0),
        (-1, 1),
        (0, 1),
        (1, 1),
        (5, 5),
    ];
    let pairs = collision_pairs(&cells);
    for j in 1..9 {
        assert!(pairs.contains(&(0, j)), "missing pair (0, {})", j);
    }
    assert!(!pairs.iter().any(|p| p.0 == 9 || p.1 == 9));
    // matches the pairwise definition, in lexicographic order
    let mut expected = Vec::new();
    for i in 0..cells.len() {
        for j in (i + 1)..cells.len() {
            let (a, b) = (cells[i], cells[j]);
            if (a.0 - b.0).abs() <= 1 && (a.1 - b.1).abs() <= 1 {
                expected.push((i, j));
            }
        }
    }
    assert_eq!(pairs, expected);
}

#[test]
fn collision_pairs_empty_and_single() {
    assert_eq!(collision_pairs(&vec![]), vec![]);
    assert_eq!(collision_pairs(&vec![(4, 4)]), vec![]);
    assert_eq!(collision_pairs(&vec![(4, 4), (4, 4)]), vec![(0, 1)]);
}

#[test]
fn collision_pairs_have_no_repetition() {
    let cells: Vec<(i32, i32)> = (0..40).map(|k| ((k % 5) as i32, (k / 7) as i32)).collect();
    let pairs = collision_pairs(&cells);
    for w in pairs.windows(2) {
        assert!(w[0] < w[1]);
    }
    for &(i, j) in &pairs {
        assert!(i < j);
        let (a, b) = (cells[i], cells[j]);
        assert!((a.0 - b.0).abs() <= 1 && (a.1 - b.1).abs() <= 1);
    }
}

#[test]
fn collision_pairs_match_neighbor_candidates() {
    let cells = vec![(0, 0), (1, 0), (3, 3), (2, 2), (0, 1), (0, 0)];
    let pairs = collision_pairs(&cells);
    let mut grid = NeighborGrid::new();
    grid.rebuild_from_cells(&cells);
    for i in 0..cells.len() {
        let mut later: Vec<usize> = grid
            .neighbor_candidates(cells[i], i)
            .into_iter()
            .filter(|&j| j > i)
            .collect();
        later.sort();
        let from_pairs: Vec<usize> = pairs.iter().filter(|p| p.0 == i).map(|p| p.1).collect();
        assert_eq!(later, from_pairs, "index {}", i);
    }
}

#[test]
fn default_grid_is_empty() {
    let grid = NeighborGrid::default();
    assert_eq!(grid.bucket((0, 0)), None);
    assert_eq!(grid.neighbor_candidates((0, 0), 0), Vec::<usize>::new());
}

#[test]
fn each_neighbor_is_reported_once() {
    let cells = vec![(0, 0), (0, 0), (1, 1), (-1, 0), (0, 0), (1, -1)];
    let mut grid = NeighborGrid::new();
    grid.rebuild_from_cells(&cells);
    let cands = grid.neighbor_candidates((0, 0), 0);
    let mut sorted = cands.clone();
    sorted.sort();
    sorted.dedup();
    assert_eq!(sorted.len(), cands.len());
    assert_eq!(sorted, vec![1, 2, 3, 4, 5]);
}

#[test]
fn collision_pairs_on_the_lowest_row() {
    assert_eq!(collision_pairs(&vec![(0, i32::MIN), (0, i32::MIN + 1)]), vec![(0, 1)]);
    assert_eq!(collision_pairs(&vec![(5, i32::MIN), (4, i32::MIN)]), vec![(0, 1)]);
}
