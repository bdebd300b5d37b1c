use gerrymandering::{all_possible_clusters, Board};

fn sorted_ids(clusters: &[Board]) -> Vec<u64> {
    let mut all: Vec<u64> = clusters.iter().map(|b| b.board_id()).collect();
    all.sort();
    all
}

fn assert_clusters_eq(clusters: &[Board], expected_ids: &[u64]) {
    assert_eq!(clusters.len(), expected_ids.len());
    assert_eq!(sorted_ids(clusters), expected_ids);
}

fn board_with(width: i64, height: i64, cells: &[(i64, i64)]) -> Board {
    let mut b = Board::new(width, height);
    for &(x, y) in cells {
        b.set(x, y);
    }
    b
}

fn cell_count(b: &Board) -> i64 {
    let mut n: i64 = 0;
    for y in 0..b.height() {
        for x in 0..b.width() {
            if b.get(x, y) {
                n += 1;
            }
        }
    }
    n
}

/// Whether the occupied cells form one piece under up, down, left and right steps.
fn is_one_piece(b: &Board) -> bool {
    let w = b.width();
    let h = b.height();
    let mut start: Option<(i64, i64)> = None;
    for y in 0..h {
        for x in 0..w {
            if b.get(x, y) && start.is_none() {
                start = Some((x, y));
            }
        }
    }
    let first = match start {
        Some(c) => c,
        None => return true,
    };
    let mut reached = Board::new(w, h);
    reached.set(first.0, first.1);
    let mut pending: Vec<(i64, i64)> = vec![first];
    while let Some((x, y)) = pending.pop() {
        for (nx, ny) in [(x + 1, y), (x - 1, y), (x, y + 1), (x, y - 1)] {
            if nx >= 0 && nx < w && ny >= 0 && ny < h && b.get(nx, ny) && !reached.get(nx, ny) {
                reached.set(nx, ny);
                pending.push((nx, ny));
            }
        }
    }
    reached.board_id() == b.board_id()
}

/// Every connected set of `size` free cells, by trying all subsets of the grid.
fn clusters_by_brute_force(obstacles: &Board, size: i64) -> Vec<u64> {
    let w = obstacles.width();
    let h = obstacles.height();
    let area = obstacles.area();
    let mut out: Vec<u64> = Vec::new();
    for id in 0..(1_u64 << area) {
        if id & obstacles.board_id() != 0 || i64::from(id.count_ones()) != size {
            continue;
        }
        let mut b = Board::new(w, h);
        for p in 0..area {
            if id & (1_u64 << p) != 0 {
                b.set(p % w, p / w);
            }
        }
        if is_one_piece(&b) {
            out.push(id);
        }
    }
    out
}

#[test]
fn test_all_possible_clusters_of_2x2() {
    let board = Board::new(2, 2);

    {
        let clusters = all_possible_clusters(&board, 2);
        assert_clusters_eq(&clusters, &[0x03, 0x05, 0x0A, 0x0C]);
    }

    {
        let clusters = all_possible_clusters(&board, 3);
        assert_clusters_eq(&clusters, &[0x07, 0x0B, 0x0D, 0x0E]);
    }
}

#[test]
fn test_all_possible_clusters_of_3x3() {
    let board = Board::new(3, 3);

    {
        let clusters = all_possible_clusters(&board, 2);
        assert_clusters_eq(
            &clusters,
            &[
                0x3, 0x6, 0x9, 0x12, 0x18, 0x24, 0x30, 0x48, 0x90, 0xC0, 0x120, 0x180,
            ],
        );
    }

    {
        let clusters = all_possible_clusters(&board, 3);
        assert_clusters_eq(
            &clusters,
            &[
                0x7, 0xB, 0x13, 0x16, 0x19, 0x1A, 0x26, 0x32, 0x34, 0x38, 0x49, 0x58, 0x92,
                0x98, 0xB0, 0xC8, 0xD0, 0x124, 0x130, 0x190, 0x1A0, 0x1C0,
            ],
        );
    }

    {
        let clusters = all_possible_clusters(&board, 4);
        assert_clusters_eq(
            &clusters,
            &[
                0xF, 0x17, 0x1B, 0x1E, 0x27, 0x33, 0x36, 0x39, 0x3A, 0x3C, 0x4B, 0x59, 0x5A,
                0x78, 0x93, 0x96, 0x99, 0x9A, 0xB2, 0xB4, 0xB8, 0xC9, 0xD2, 0xD8, 0xF0, 0x126,
                0x132, 0x134, 0x138, 0x192, 0x198, 0x1A4, 0x1B0, 0x1C8, 0x1D0, 0x1E0,
            ],
        );
    }

    {
        let clusters = all_possible_clusters(&board, 5);
        assert_clusters_eq(
            &clusters,
            &[
                0x1F, 0x2F, 0x37, 0x3B, 0x3D, 0x3E, 0x4F, 0x5B, 0x5E, 0x79, 0x7A, 0x7C, 0x97,
                0x9B, 0x9E, 0xB3, 0xB6, 0xB9, 0xBA, 0xBC, 0xCB, 0xD3, 0xD6, 0xD9, 0xDA, 0xF2,
                0xF4, 0xF8, 0x127, 0x133, 0x136, 0x139, 0x13A, 0x13C, 0x178, 0x193, 0x196,
                0x199, 0x19A, 0x1A6, 0x1B2, 0x1B4, 0x1B8, 0x1C9, 0x1D2, 0x1D8, 0x1E4, 0x1E8,
                0x1F0,
            ],
        );
    }

    {
        let clusters = all_possible_clusters(&board, 6);
        assert_clusters_eq(
            &clusters,
            &[
                0x3F, 0x5F, 0x6F, 0x7B, 0x7D, 0x7E, 0x9F, 0xB7, 0xBB, 0xBD, 0xBE, 0xCF, 0xD7,
                0xDB, 0xDE, 0xF3, 0xF6, 0xF9, 0xFA, 0xFC, 0x12F, 0x137, 0x13B, 0x13D, 0x13E,
                0x179, 0x17A, 0x17C, 0x197, 0x19B, 0x19E, 0x1A7, 0x1B3, 0x1B6, 0x1B9, 0x1BA,
                0x1BC, 0x1CB, 0x1D3, 0x1D6, 0x1D9, 0x1DA, 0x1E6, 0x1E9, 0x1EC, 0x1F2, 0x1F4,
                0x1F8,
            ],
        );
    }

    {
        let clusters = all_possible_clusters(&board, 7);
        assert_clusters_eq(
            &clusters,
            &[
                0x7F, 0xBF, 0xDF, 0xEF, 0xF7, 0xFB, 0xFD, 0xFE, 0x13F, 0x16F, 0x17B, 0x17D,
                0x17E, 0x19F, 0x1AF, 0x1B7, 0x1BB, 0x1BD, 0x1BE, 0x1CF, 0x1D7, 0x1DB, 0x1DE,
                0x1E7, 0x1EB, 0x1ED, 0x1EE, 0x1F3, 0x1F6, 0x1F9, 0x1FA, 0x1FC,
            ],
        );
    }
}

#[test]
fn test_all_possible_clusters_of_0() {
    for w in 1..=3_i64 {
        for h in 1..=3_i64 {
            let board = Board::new(w, h);
            let clusters = all_possible_clusters(&board, 0);
            assert_eq!(clusters.len(), 1);
            assert_eq!(clusters[0].board_id(), 0);
            assert_eq!(clusters[0].width(), w);
            assert_eq!(clusters[0].height(), h);
        }
    }
}

#[test]
fn test_all_possible_clusters_of_0_with_obstacles() {
    let obstacles = board_with(3, 2, &[(0, 0), (1, 1), (2, 0)]);
    let clusters = all_possible_clusters(&obstacles, 0);
    assert_clusters_eq(&clusters, &[0x0]);

    let mut blocked = Board::new(2, 2);
    blocked.toggle_all();
    let clusters = all_possible_clusters(&blocked, 0);
    assert_clusters_eq(&clusters, &[0x0]);
}

#[test]
fn test_all_possible_clusters_of_1() {
    for w in 1..=3_i64 {
        for h in 1..=3_i64 {
            let board = Board::new(w, h);
            let clusters = all_possible_clusters(&board, 1);
            assert_eq!(i64::try_from(clusters.len()).unwrap(), w * h);
            let expected: Vec<u64> = (0..w * h).map(|p| 1_u64 << p).collect();
            assert_eq!(sorted_ids(&clusters), expected);
        }
    }
}

#[test]
fn test_all_possible_clusters_of_1_with_obstacles() {
    let obstacles = board_with(3, 2, &[(1, 0), (2, 1)]);
    let clusters = all_possible_clusters(&obstacles, 1);
    assert_clusters_eq(&clusters, &[0x1, 0x4, 0x8, 0x10]);
}

#[test]
fn test_all_possible_clusters_of_size() {
    for w in 1..=3_i64 {
        for h in 1..=3_i64 {
            let board = Board::new(w, h);
            let clusters = all_possible_clusters(&board, board.area());
            assert_eq!(clusters.len(), 1);
            assert_eq!(clusters[0].board_id(), (1_u64 << (w * h)) - 1);
        }
    }
}

#[test]
fn test_all_possible_clusters_of_size_with_an_obstacle() {
    let obstacles = board_with(3, 3, &[(1, 1)]);
    let clusters = all_possible_clusters(&obstacles, 9);
    assert_eq!(clusters.len(), 0);
    let ring = all_possible_clusters(&obstacles, 8);
    assert_clusters_eq(&ring, &[0x1EF]);
}

#[test]
fn test_all_possible_clusters_above_area() {
    let board = Board::new(2, 3);
    assert_eq!(all_possible_clusters(&board, 7).len(), 0);
    assert_eq!(all_possible_clusters(&board, i64::MAX).len(), 0);
    let obstacles = board_with(2, 2, &[(0, 0)]);
    assert_eq!(all_possible_clusters(&obstacles, 5).len(), 0);
}

#[test]
fn test_all_possible_clusters_above_free_cells() {
    let obstacles = board_with(2, 2, &[(0, 0), (1, 1)]);
    assert_eq!(all_possible_clusters(&obstacles, 3).len(), 0);
    assert_eq!(all_possible_clusters(&obstacles, 4).len(), 0);
}

#[test]
fn test_all_possible_clusters_below_zero() {
    let board = Board::new(2, 2);
    assert_eq!(all_possible_clusters(&board, -1).len(), 0);
}

#[test]
fn test_all_possible_clusters_of_empty_grid() {
    let board = Board::new(0, 0);
    assert_clusters_eq(&all_possible_clusters(&board, 0), &[0x0]);
    assert_eq!(all_possible_clusters(&board, 1).len(), 0);
    let flat = Board::new(4, 0);
    assert_clusters_eq(&all_possible_clusters(&flat, 0), &[0x0]);
    assert_eq!(all_possible_clusters(&flat, 1).len(), 0);
}

#[test]
fn test_all_possible_clusters_of_blocked_grid() {
    let mut blocked = Board::new(3, 2);
    blocked.toggle_all();
    for size in 1..=6_i64 {
        assert_eq!(all_possible_clusters(&blocked, size).len(), 0);
    }
}

#[test]
fn test_all_possible_clusters_do_not_span_a_wall() {
    // The middle column of a 3x2 grid is blocked: two free columns of two cells.
    let obstacles = board_with(3, 2, &[(1, 0), (1, 1)]);
    assert_clusters_eq(&all_possible_clusters(&obstacles, 1), &[0x1, 0x4, 0x8, 0x20]);
    assert_clusters_eq(&all_possible_clusters(&obstacles, 2), &[0x9, 0x24]);
    assert_eq!(all_possible_clusters(&obstacles, 3).len(), 0);
    assert_eq!(all_possible_clusters(&obstacles, 4).len(), 0);
}

#[test]
fn test_all_possible_clusters_no_diagonal_steps() {
    // Free cells (0,0) and (1,1) of a 2x2 grid touch only at a corner.
    let obstacles = board_with(2, 2, &[(1, 0), (0, 1)]);
    assert_clusters_eq(&all_possible_clusters(&obstacles, 1), &[0x1, 0x8]);
    assert_eq!(all_possible_clusters(&obstacles, 2).len(), 0);
}

#[test]
fn test_all_possible_clusters_of_a_row() {
    let row = Board::new(5, 1);
    assert_clusters_eq(&all_possible_clusters(&row, 2), &[0x3, 0x6, 0xC, 0x18]);
    assert_clusters_eq(&all_possible_clusters(&row, 3), &[0x7, 0xE, 0x1C]);
    let column = Board::new(1, 5);
    assert_clusters_eq(&all_possible_clusters(&column, 4), &[0xF, 0x1E]);
}

#[test]
fn test_no_duplicate_clusters() {
    for w in 1..=3_i64 {
        for h in 1..=3_i64 {
            let board = Board::new(w, h);
            for size in 1..=board.area() {
                let clusters = all_possible_clusters(&board, size);
                let all = sorted_ids(&clusters);
                let mut uniq = all.clone();
                uniq.dedup();
                assert_eq!(all.len(), uniq.len());
                assert_eq!(all, uniq);
            }
        }
    }
}

#[test]
fn test_clusters_are_connected_free_and_of_size() {
    let obstacles = board_with(4, 3, &[(1, 1), (3, 0), (0, 2)]);
    for size in 0..=12_i64 {
        let clusters = all_possible_clusters(&obstacles, size);
        for c in &clusters {
            assert_eq!(c.width(), 4);
            assert_eq!(c.height(), 3);
            assert_eq!(cell_count(c), size);
            assert_eq!(c.board_id() & obstacles.board_id(), 0);
            assert!(is_one_piece(c));
        }
    }
}

#[test]
fn test_clusters_match_brute_force() {
    let grids = [
        Board::new(3, 3),
        Board::new(4, 2),
        board_with(4, 3, &[(1, 1), (3, 0), (0, 2)]),
        board_with(3, 4, &[(1, 0), (1, 1), (1, 2)]),
        board_with(4, 4, &[(0, 0), (3, 3), (1, 2), (2, 1)]),
    ];
    for obstacles in &grids {
        for size in 0..=obstacles.area() {
            let clusters = all_possible_clusters(obstacles, size);
            assert_eq!(sorted_ids(&clusters), clusters_by_brute_force(obstacles, size));
        }
    }
}

#[test]
fn test_obstacles_are_left_untouched() {
    let obstacles = board_with(3, 3, &[(0, 0), (2, 2)]);
    let before = obstacles.clone();
    let clusters = all_possible_clusters(&obstacles, 3);
    assert_eq!(obstacles, before);
    assert_eq!(obstacles.board_id(), 0x101);
    assert_eq!(clusters.len(), clusters_by_brute_force(&obstacles, 3).len());
}

#[test]
fn test_all_possible_clusters_of_larger_grid() {
    // Fixed polyominoes placed on a 5x5 grid: 25 cells, 40 dominoes, 4-cell sets by count.
    let board = Board::new(5, 5);
    assert_eq!(all_possible_clusters(&board, 1).len(), 25);
    assert_eq!(all_possible_clusters(&board, 2).len(), 40);
    assert_eq!(all_possible_clusters(&board, 3).len(), 30 + 4 * 16);
}
