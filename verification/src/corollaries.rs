//! What follows for every list of boards that enumerates the clusters of one size:
//! how many boards it holds for the sizes at the edges.

use crate::board::Board;
use crate::cluster::{enumerates, holds, is_cluster, open_cells};
use crate::grid::{grid, lemma_grid, lemma_grow_connected, lemma_in_grid_finite, Coord};
use vstd::prelude::*;
use vstd::set_lib::*;

verus! {

/// Two entries of an enumeration with the same occupied cells are the same entry.
pub proof fn lemma_same_cells_same_entry(
    obstacles: &Board,
    size: int,
    boards: Seq<Board>,
    i: int,
    j: int,
)
    requires
        obstacles.wf(),
        enumerates(obstacles, size, boards),
        0 <= i < boards.len(),
        0 <= j < boards.len(),
        boards[i]@ == boards[j]@,
    ensures
        i == j,
{
    Board::lemma_identity(&boards[i], &boards[j]);
}

/// A finite set with one element holds nothing but the element that `choose` picks.
proof fn lemma_single(s: Set<Coord>)
    requires
        s.finite(),
        s.len() == 1,
    ensures
        s == set![s.choose()],
{
    let c = s.choose();
    assert(s.contains(c));
    s.remove(c).lemma_len0_is_empty();
    assert forall|d: Coord| s.contains(d) implies d == c by {
        if d != c {
            assert(s.remove(c).contains(d));
        }
    }
    assert(s =~= set![c]);
}

/// A single free cell is a cluster of size 1.
proof fn lemma_single_cluster(obstacles: &Board, c: Coord)
    requires
        open_cells(obstacles).contains(c),
    ensures
        is_cluster(obstacles, set![c], 1),
{
    lemma_grow_connected(Set::<Coord>::empty(), c);
}

/// The enumeration for size 0 holds exactly one board, the empty one,
/// whatever the obstacles.
pub proof fn lemma_size_zero(obstacles: &Board, boards: Seq<Board>)
    requires
        obstacles.wf(),
        enumerates(obstacles, 0, boards),
    ensures
        boards.len() == 1,
        boards[0]@ == Set::<Coord>::empty(),
{
    let e = Set::<Coord>::empty();
    assert(is_cluster(obstacles, e, 0));
    assert(holds(boards, e));
    let i = choose|i: int| 0 <= i < boards.len() && (#[trigger] boards[i])@ == e;
    if boards.len() > 1 {
        let j = if i == 0 {
            1int
        } else {
            0int
        };
        assert(is_cluster(obstacles, boards[j]@, 0));
        boards[j]@.lemma_len0_is_empty();
        lemma_same_cells_same_entry(obstacles, 0, boards, i, j);
    }
}

/// The enumeration for size 1 holds one board for each free cell: as many as
/// the area less the number of obstacles.
pub proof fn lemma_size_one(obstacles: &Board, boards: Seq<Board>)
    requires
        obstacles.wf(),
        enumerates(obstacles, 1, boards),
    ensures
        boards.len() == obstacles.spec_area() - obstacles@.len(),
{
    let w = obstacles.width() as int;
    let h = obstacles.height() as int;
    let free = open_cells(obstacles);
    let cs = Seq::new(boards.len(), |i: int| boards[i]@.choose());
    assert forall|i: int| 0 <= i < boards.len() implies (#[trigger] boards[i])@ == set![cs[i]] by {
        assert(is_cluster(obstacles, boards[i]@, 1));
        lemma_single(boards[i]@);
    }
    assert forall|i: int, j: int| 0 <= i < cs.len() && 0 <= j < cs.len() && i != j implies cs[i]
        != cs[j] by {
        if cs[i] == cs[j] {
            assert(boards[i]@ == set![cs[i]]);
            assert(boards[j]@ == set![cs[j]]);
            lemma_same_cells_same_entry(obstacles, 1, boards, i, j);
        }
    }
    assert forall|c: Coord| cs.to_set().contains(c) == free.contains(c) by {
        if cs.to_set().contains(c) {
            let i = choose|i: int| 0 <= i < cs.len() && cs[i] == c;
            assert(boards[i]@ == set![cs[i]]);
            assert(is_cluster(obstacles, boards[i]@, 1));
            assert(boards[i]@.contains(c));
        }
        if free.contains(c) {
            lemma_single_cluster(obstacles, c);
            assert(holds(boards, set![c]));
            let i = choose|i: int| 0 <= i < boards.len() && (#[trigger] boards[i])@ == set![c];
            assert(boards[i]@ == set![cs[i]]);
            assert(set![cs[i]].contains(c));
            assert(cs[i] == c);
        }
    }
    assert(cs.to_set() =~= free);
    cs.unique_seq_to_set();
    lemma_free_count(obstacles);
}

/// The free cells are as many as the area less the number of obstacles.
pub proof fn lemma_free_count(obstacles: &Board)
    requires
        obstacles.wf(),
    ensures
        open_cells(obstacles).finite(),
        obstacles@.finite(),
        open_cells(obstacles).len() == obstacles.spec_area() - obstacles@.len(),
{
    let w = obstacles.width() as int;
    let h = obstacles.height() as int;
    lemma_grid(w, h);
    lemma_in_grid_finite(w, h, obstacles@);
    assert(open_cells(obstacles) =~= grid(w, h).difference(obstacles@));
    assert(grid(w, h).intersect(obstacles@) =~= obstacles@);
    lemma_set_difference_len(grid(w, h), obstacles@);
}

/// A cluster as large as the grid is the whole grid, and leaves no room for an obstacle.
pub proof fn lemma_cluster_of_full_size(obstacles: &Board, s: Set<Coord>)
    requires
        obstacles.wf(),
        is_cluster(obstacles, s, obstacles.spec_area()),
    ensures
        s == grid(obstacles.width() as int, obstacles.height() as int),
        obstacles@ == Set::<Coord>::empty(),
{
    let g = grid(obstacles.width() as int, obstacles.height() as int);
    lemma_grid(obstacles.width() as int, obstacles.height() as int);
    assert(s.subset_of(g));
    lemma_subset_equality(s, g);
    assert forall|c: Coord| !obstacles@.contains(c) by {
        if obstacles@.contains(c) {
            assert(g.contains(c));
            assert(s.contains(c));
        }
    }
    assert(obstacles@ =~= Set::<Coord>::empty());
}

/// The enumeration for the size of the whole grid holds exactly one board, the
/// full one, where no cell is blocked, and none where a cell is blocked.
pub proof fn lemma_size_of_grid(obstacles: &Board, boards: Seq<Board>)
    requires
        obstacles.wf(),
        enumerates(obstacles, obstacles.spec_area(), boards),
    ensures
        obstacles@.is_empty() ==> boards.len() == 1 && boards[0]@ == grid(
            obstacles.width() as int,
            obstacles.height() as int,
        ),
        !obstacles@.is_empty() ==> boards.len() == 0,
{
    let w = obstacles.width() as int;
    let h = obstacles.height() as int;
    let g = grid(w, h);
    let area = obstacles.spec_area();
    lemma_grid(w, h);
    if obstacles@.is_empty() {
        assert(is_cluster(obstacles, g, area));
        assert(holds(boards, g));
        let i = choose|i: int| 0 <= i < boards.len() && (#[trigger] boards[i])@ == g;
        if boards.len() > 1 {
            let j = if i == 0 {
                1int
            } else {
                0int
            };
            assert(is_cluster(obstacles, boards[j]@, area));
            lemma_cluster_of_full_size(obstacles, boards[j]@);
            lemma_same_cells_same_entry(obstacles, area, boards, i, j);
        }
    } else {
        if boards.len() > 0 {
            assert(is_cluster(obstacles, boards[0]@, area));
            lemma_cluster_of_full_size(obstacles, boards[0]@);
        }
    }
}

/// The enumeration for a size above the area is empty.
pub proof fn lemma_size_above_area(obstacles: &Board, size: int, boards: Seq<Board>)
    requires
        obstacles.wf(),
        enumerates(obstacles, size, boards),
        size > obstacles.spec_area(),
    ensures
        boards.len() == 0,
{
    let w = obstacles.width() as int;
    let h = obstacles.height() as int;
    if boards.len() > 0 {
        let s = boards[0]@;
        assert(is_cluster(obstacles, s, size));
        assert(s.subset_of(grid(w, h)));
        lemma_in_grid_finite(w, h, s);
    }
}

/// The enumeration for a size below zero is empty.
pub proof fn lemma_size_below_zero(obstacles: &Board, size: int, boards: Seq<Board>)
    requires
        obstacles.wf(),
        enumerates(obstacles, size, boards),
        size < 0,
    ensures
        boards.len() == 0,
{
    if boards.len() > 0 {
        assert(is_cluster(obstacles, boards[0]@, size));
    }
}

/// What an enumeration holds for the sizes at the edges: one empty board for
/// size 0, one board for each free cell for size 1, the full board or nothing for
/// the size of the grid, and nothing for a size that no set of cells can have.
pub open spec fn edge_sizes(obstacles: &Board, size: int, boards: Seq<Board>) -> bool {
    &&& size == 0 ==> boards.len() == 1 && boards[0]@ == Set::<Coord>::empty()
    &&& size == 1 ==> boards.len() == obstacles.spec_area() - obstacles@.len()
    &&& size == obstacles.spec_area() && obstacles@.is_empty() ==> boards.len() == 1 && boards[0]@
        == grid(obstacles.width() as int, obstacles.height() as int)
    &&& size == obstacles.spec_area() && !obstacles@.is_empty() ==> boards.len() == 0
    &&& size > obstacles.spec_area() || size < 0 ==> boards.len() == 0
}

/// Every enumeration holds at the edges what `edge_sizes` says.
pub proof fn lemma_edge_sizes(obstacles: &Board, size: int, boards: Seq<Board>)
    requires
        obstacles.wf(),
        enumerates(obstacles, size, boards),
    ensures
        edge_sizes(obstacles, size, boards),
{
    if size == 0 {
        lemma_size_zero(obstacles, boards);
    }
    if size == 1 {
        lemma_size_one(obstacles, boards);
    }
    if size == obstacles.spec_area() {
        lemma_size_of_grid(obstacles, boards);
    }
    if size > obstacles.spec_area() {
        lemma_size_above_area(obstacles, size, boards);
    }
    if size < 0 {
        lemma_size_below_zero(obstacles, size, boards);
    }
}

} // verus!
