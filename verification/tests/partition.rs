use gerrymandering::partition::{grow, random_grid};
use std::collections::HashSet;

/// Tries until a split comes out; a region may be walled in on any one try.
fn split(w: usize, h: usize, n: usize) -> Vec<Vec<usize>> {
    for _ in 0..100_000 {
        if let Some(grid) = random_grid(w, h, n) {
            return grid;
        }
    }
    panic!("no split of {}x{} into {} regions", w, h, n);
}

fn cells_of_region(grid: &[Vec<usize>], k: usize) -> Vec<(usize, usize)> {
    let mut cells: Vec<(usize, usize)> = Vec::new();
    for (y, row) in grid.iter().enumerate() {
        for (x, colour) in row.iter().enumerate() {
            if *colour == k {
                cells.push((x, y));
            }
        }
    }
    cells
}

fn is_one_piece(cells: &[(usize, usize)]) -> bool {
    if cells.is_empty() {
        return true;
    }
    let mut reached: Vec<(usize, usize)> = vec![cells[0]];
    let mut pending: Vec<(usize, usize)> = vec![cells[0]];
    while let Some((x, y)) = pending.pop() {
        for c in cells {
            let beside = (c.0 == x && (c.1 + 1 == y || y + 1 == c.1))
                || (c.1 == y && (c.0 + 1 == x || x + 1 == c.0));
            if beside && !reached.contains(c) {
                reached.push(*c);
                pending.push(*c);
            }
        }
    }
    reached.len() == cells.len()
}

fn assert_is_split(grid: &[Vec<usize>], w: usize, h: usize, n: usize) {
    assert_eq!(grid.len(), h);
    for row in grid {
        assert_eq!(row.len(), w);
        for colour in row {
            assert!(1 <= *colour && *colour <= n);
        }
    }
    for k in 1..=n {
        let cells = cells_of_region(grid, k);
        assert_eq!(cells.len(), w * h / n);
        assert!(is_one_piece(&cells));
    }
}

#[test]
fn test_random_grid_single_region_always_comes_out() {
    for _ in 0..50 {
        let grid = random_grid(4, 3, 1);
        assert_eq!(grid, Some(vec![vec![1_usize; 4]; 3]));
    }
}

#[test]
fn test_random_grid_regions_of_one_cell_in_row_major_order() {
    for _ in 0..50 {
        let grid = random_grid(3, 2, 6);
        assert_eq!(grid, Some(vec![vec![1_usize, 2, 3], vec![4, 5, 6]]));
    }
}

#[test]
fn test_random_grid_of_no_cells() {
    assert_eq!(random_grid(0, 0, 1), Some(Vec::<Vec<usize>>::new()));
    assert_eq!(random_grid(0, 0, 3), Some(Vec::<Vec<usize>>::new()));
    assert_eq!(random_grid(0, 2, 2), Some(vec![Vec::<usize>::new(), Vec::<usize>::new()]));
    assert_eq!(random_grid(5, 0, 4), Some(Vec::<Vec<usize>>::new()));
}

#[test]
fn test_random_grid_splits_a_row() {
    // In a single row each region can only grow to the right of the one before.
    for _ in 0..50 {
        assert_eq!(random_grid(6, 1, 3), Some(vec![vec![1_usize, 1, 2, 2, 3, 3]]));
        assert_eq!(random_grid(6, 1, 2), Some(vec![vec![1_usize, 1, 1, 2, 2, 2]]));
    }
}

#[test]
fn test_random_grid_splits_into_connected_regions_of_equal_area() {
    for &(w, h, n) in &[(2_usize, 2_usize, 2_usize), (4, 2, 2), (4, 4, 4), (6, 3, 3), (5, 4, 2)] {
        for _ in 0..20 {
            let grid = split(w, h, n);
            assert_is_split(&grid, w, h, n);
        }
    }
}

#[test]
fn test_random_grid_of_the_demo_size() {
    let grid = split(12, 6, 6);
    assert_is_split(&grid, 12, 6, 6);
}

#[test]
fn test_random_grid_every_result_is_a_split() {
    let mut seen: usize = 0;
    for _ in 0..200 {
        if let Some(grid) = random_grid(4, 4, 2) {
            assert_is_split(&grid, 4, 4, 2);
            seen += 1;
        }
    }
    assert!(seen > 0);
}

#[test]
fn test_random_grid_first_region_starts_at_the_first_cell() {
    for _ in 0..20 {
        let grid = split(4, 4, 4);
        assert_eq!(grid[0][0], 1);
    }
}

fn first_position(grid: &[Vec<usize>], k: usize) -> Option<usize> {
    let mut at: usize = 0;
    for row in grid {
        for colour in row {
            if *colour == k {
                return Some(at);
            }
            at += 1;
        }
    }
    None
}

fn assert_in_order(grid: &[Vec<usize>], n: usize) {
    if grid.iter().any(|row| !row.is_empty()) {
        assert_eq!(grid[0][0], 1);
    }
    for k in 1..n {
        let here = first_position(grid, k);
        let next = first_position(grid, k + 1);
        if let Some(b) = next {
            let a = here.unwrap();
            assert!(a < b);
        }
    }
}

#[test]
fn test_random_grid_numbers_regions_by_their_first_cell() {
    for &(w, h, n) in &[(2_usize, 2_usize, 2_usize), (4, 4, 4), (6, 3, 3), (5, 4, 2), (6, 6, 9)] {
        for _ in 0..20 {
            let grid = split(w, h, n);
            assert_is_split(&grid, w, h, n);
            assert_in_order(&grid, n);
        }
    }
    assert_in_order(&split(12, 6, 6), 6);
}

fn set_of(items: &[usize]) -> HashSet<usize> {
    items.iter().copied().collect()
}

#[test]
fn test_grow_paints_the_cell_and_moves_the_fringe() {
    let mut grid = vec![vec![0_usize; 3]; 3];
    let mut fringe = set_of(&[4, 8]);
    grow(&mut grid, &mut fringe, 3, 3, 7, 4);
    assert_eq!(grid, vec![vec![0_usize, 0, 0], vec![0, 7, 0], vec![0, 0, 0]]);
    assert_eq!(fringe, set_of(&[1, 3, 5, 7, 8]));
}

#[test]
fn test_grow_in_a_corner() {
    let mut grid = vec![vec![0_usize; 4]; 2];
    let mut fringe = set_of(&[0]);
    grow(&mut grid, &mut fringe, 4, 2, 1, 0);
    assert_eq!(grid, vec![vec![1_usize, 0, 0, 0], vec![0, 0, 0, 0]]);
    assert_eq!(fringe, set_of(&[1, 4]));
    grow(&mut grid, &mut fringe, 4, 2, 1, 4);
    assert_eq!(grid, vec![vec![1_usize, 0, 0, 0], vec![1, 0, 0, 0]]);
    assert_eq!(fringe, set_of(&[1, 5]));
    let mut last = vec![vec![0_usize; 4]; 2];
    let mut none: HashSet<usize> = HashSet::new();
    grow(&mut last, &mut none, 4, 2, 3, 7);
    assert_eq!(last, vec![vec![0_usize, 0, 0, 0], vec![0, 0, 0, 3]]);
    assert_eq!(none, set_of(&[3, 6]));
}

#[test]
fn test_grow_leaves_painted_neighbours_off_the_fringe() {
    let mut grid = vec![vec![1_usize, 1, 0], vec![1, 0, 0], vec![2, 0, 0]];
    let mut fringe = set_of(&[2, 4]);
    grow(&mut grid, &mut fringe, 3, 3, 2, 4);
    assert_eq!(grid, vec![vec![1_usize, 1, 0], vec![1, 2, 0], vec![2, 0, 0]]);
    assert_eq!(fringe, set_of(&[2, 5, 7]));
}

#[test]
fn test_grow_walled_in_leaves_the_fringe_empty() {
    let mut grid = vec![vec![0_usize, 1], vec![1, 1]];
    let mut fringe = set_of(&[0]);
    grow(&mut grid, &mut fringe, 2, 2, 2, 0);
    assert_eq!(grid, vec![vec![2_usize, 1], vec![1, 1]]);
    assert!(fringe.is_empty());
}
