//! The search for all clusters of a given size: connected sets of free cells.

use crate::bitfield::Bitfield;
use crate::board::{cells_of, fits, lemma_cells_finite, lemma_cells_of_zero, Board};
use crate::corollaries::{edge_sizes, lemma_edge_sizes};
use crate::grid::{
    cell_at, connected, grid, in_grid, lemma_cell_at_pos, lemma_grow_connected,
    lemma_in_grid_finite, lemma_part_can_grow, lemma_pos_of_cell, pos_of, touches, Coord,
};
use std::collections::HashSet;
use vstd::prelude::*;
use vstd::set_lib::*;

verus! {

broadcast use vstd::std_specs::hash::group_hash_axioms;

/// Whether every cell of `s` is a cell of the grid that no obstacle blocks.
pub open spec fn placeable(obstacles: &Board, s: Set<Coord>) -> bool {
    forall|c: Coord| #[trigger]
        s.contains(c) ==> in_grid(obstacles.width() as int, obstacles.height() as int, c)
            && !obstacles@.contains(c)
}

/// Whether `s` is a cluster of `size` cells: a connected set of that many free
/// cells of the grid.
pub open spec fn is_cluster(obstacles: &Board, s: Set<Coord>, size: int) -> bool {
    &&& placeable(obstacles, s)
    &&& s.finite()
    &&& s.len() == size
    &&& connected(s)
}

/// Whether one of the boards has exactly the cells of `s` occupied.
pub open spec fn holds(boards: Seq<Board>, s: Set<Coord>) -> bool {
    exists|i: int| 0 <= i < boards.len() && (#[trigger] boards[i])@ == s
}

/// Whether `boards` lists the clusters of `size` cells: each board is one,
/// no two boards have the same identity, and every cluster is among them.
pub open spec fn enumerates(obstacles: &Board, size: int, boards: Seq<Board>) -> bool {
    &&& forall|i: int|
        0 <= i < boards.len() ==> (#[trigger] boards[i]).wf() && boards[i].same_shape(obstacles)
            && is_cluster(obstacles, boards[i]@, size)
    &&& forall|i: int, j: int|
        0 <= i < j < boards.len() ==> (#[trigger] boards[i]).board_id() != (
        #[trigger] boards[j]).board_id()
    &&& forall|s: Set<Coord>| #[trigger] is_cluster(obstacles, s, size) ==> holds(boards, s)
}

/// The cells that no obstacle blocks.
pub open spec fn open_cells(obstacles: &Board) -> Set<Coord> {
    Set::new(
        |c: Coord|
            in_grid(obstacles.width() as int, obstacles.height() as int, c) && !obstacles@.contains(
                c,
            ),
    )
}

/// The free cells outside `s` that touch `s`.
pub open spec fn rim(obstacles: &Board, s: Set<Coord>) -> Set<Coord> {
    Set::new(|c: Coord| open_cells(obstacles).contains(c) && !s.contains(c) && touches(s, c))
}

/// The cells by which `s` can grow: the rim of `s`, or any free cell where `s` is empty.
pub open spec fn frontier(obstacles: &Board, s: Set<Coord>) -> Set<Coord> {
    if s.is_empty() {
        open_cells(obstacles)
    } else {
        rim(obstacles, s)
    }
}

/// The positions below `n` of the cells of `cells`, in a grid of `w` columns.
pub open spec fn positions_below(w: int, cells: Set<Coord>, n: int) -> Set<int> {
    Set::new(|p: int| 0 <= p < n && cells.contains(cell_at(w, p)))
}

/// The positions on the board of the cells of `cells`.
pub open spec fn positions(obstacles: &Board, cells: Set<Coord>) -> Set<int> {
    positions_below(obstacles.width() as int, cells, obstacles.spec_area())
}

/// A partial cluster on the way to full size.
#[derive(Debug)]
struct Candidate {
    board: Board,
    boundary: Bitfield,
    current_size: i64,
}

impl Clone for Candidate {
    fn clone(&self) -> (r: Self)
        ensures
            r == *self,
    {
        Candidate {
            board: self.board.clone(),
            boundary: self.boundary,
            current_size: self.current_size,
        }
    }
}

impl Candidate {
    /// The board holds a connected set of free cells, `current_size` counts them,
    /// and `boundary` holds the positions of the cells by which it can grow.
    spec fn wf(self, obstacles: &Board) -> bool {
        &&& self.board.wf()
        &&& self.board.same_shape(obstacles)
        &&& placeable(obstacles, self.board@)
        &&& connected(self.board@)
        &&& self.current_size == self.board@.len()
        &&& self.boundary@ == positions(obstacles, frontier(obstacles, self.board@))
    }
}

/// The positions of the cells that no obstacle blocks.
fn open_positions(obstacles: &Board) -> (bf: Bitfield)
    requires
        obstacles.wf(),
    ensures
        bf@ == positions(obstacles, open_cells(obstacles)),
{
    let width = obstacles.width();
    let height = obstacles.height();
    let ghost w = width as int;
    let ghost h = height as int;
    let ghost cells = open_cells(obstacles);
    let mut bf = Bitfield::new();
    assert(bf@ =~= positions_below(w, cells, 0 * w)) by {
        assert(0 * w == 0) by (nonlinear_arith);
    }
    for y in 0..height
        invariant
            obstacles.wf(),
            width == obstacles.width(),
            height == obstacles.height(),
            w == width,
            h == height,
            cells == open_cells(obstacles),
            bf@ == positions_below(w, cells, y * w),
    {
        for x in 0..width
            invariant
                obstacles.wf(),
                width == obstacles.width(),
                height == obstacles.height(),
                w == width,
                h == height,
                0 <= y < h,
                cells == open_cells(obstacles),
                bf@ == positions_below(w, cells, y * w + x),
        {
            proof {
                lemma_pos_of_cell(w, h, (x as int, y as int));
            }
            if !obstacles.get(x, y) {
                bf.set(y * width + x);
            }
            assert(bf@ =~= positions_below(w, cells, y * w + x + 1));
        }
        assert((y + 1) * w == y * w + w) by (nonlinear_arith);
    }
    assert(h * w == w * h) by (nonlinear_arith);
    bf
}

/// Whether the cell in column `x` of row `y` has a neighbour on `board`.
fn touches_cluster(board: &Board, obstacles: &Board, x: i64, y: i64) -> (r: bool)
    requires
        obstacles.wf(),
        board.wf(),
        board.same_shape(obstacles),
        placeable(obstacles, board@),
        0 <= x < board.width(),
        0 <= y < board.height(),
    ensures
        r == touches(board@, (x as int, y as int)),
{
    let width = board.width();
    let height = board.height();
    (x + 1 < width && board.get(x + 1, y) && !obstacles.get(x + 1, y)) || (x - 1 >= 0 && board.get(
        x - 1,
        y,
    ) && !obstacles.get(x - 1, y)) || (y + 1 < height && board.get(x, y + 1) && !obstacles.get(
        x,
        y + 1,
    )) || (y - 1 >= 0 && board.get(x, y - 1) && !obstacles.get(x, y - 1))
}

/// The positions of the free cells outside `board` that touch it.
fn rim_positions(board: &Board, obstacles: &Board) -> (bf: Bitfield)
    requires
        obstacles.wf(),
        board.wf(),
        board.same_shape(obstacles),
        placeable(obstacles, board@),
    ensures
        bf@ == positions(obstacles, rim(obstacles, board@)),
{
    let width = obstacles.width();
    let height = obstacles.height();
    let ghost w = width as int;
    let ghost h = height as int;
    let ghost cells = rim(obstacles, board@);
    let mut bf = Bitfield::new();
    assert(bf@ =~= positions_below(w, cells, 0 * w)) by {
        assert(0 * w == 0) by (nonlinear_arith);
    }
    for y in 0..height
        invariant
            obstacles.wf(),
            board.wf(),
            board.same_shape(obstacles),
            placeable(obstacles, board@),
            width == obstacles.width(),
            height == obstacles.height(),
            w == width,
            h == height,
            cells == rim(obstacles, board@),
            bf@ == positions_below(w, cells, y * w),
    {
        for x in 0..width
            invariant
                obstacles.wf(),
                board.wf(),
                board.same_shape(obstacles),
                placeable(obstacles, board@),
                width == obstacles.width(),
                height == obstacles.height(),
                w == width,
                h == height,
                0 <= y < h,
                cells == rim(obstacles, board@),
                bf@ == positions_below(w, cells, y * w + x),
        {
            proof {
                lemma_pos_of_cell(w, h, (x as int, y as int));
            }
            if !(board.get(x, y) || obstacles.get(x, y)) {
                if touches_cluster(board, obstacles, x, y) {
                    bf.set(y * width + x);
                }
            }
            assert(bf@ =~= positions_below(w, cells, y * w + x + 1));
        }
        assert((y + 1) * w == y * w + w) by (nonlinear_arith);
    }
    assert(h * w == w * h) by (nonlinear_arith);
    bf
}

/// The cells that the identity `id` stands for on a board shaped like `obstacles`.
spec fn pattern(obstacles: &Board, id: u64) -> Set<Coord> {
    cells_of(id, obstacles.width() as int, obstacles.height() as int)
}

/// Whether a candidate on the stack has the identity `id`.
spec fn on_stack(stack: Seq<Candidate>, id: u64) -> bool {
    exists|k: int| 0 <= k < stack.len() && (#[trigger] stack[k]).board.board_id() == id
}

/// Whether the set of cells `t` has been met: its identity is marked as seen.
spec fn known(obstacles: &Board, seen: Set<u64>, t: Set<Coord>) -> bool {
    exists|id: u64| #[trigger] seen.contains(id) && pattern(obstacles, id) == t
}

/// Whether the search is through with `id`, but for the positions in `rest`:
/// a set of full size is among the results, and every way to grow a smaller set
/// by one cell leads to a set that has been met.
spec fn explored(
    obstacles: &Board,
    size: int,
    seen: Set<u64>,
    result: Seq<Board>,
    id: u64,
    rest: Set<int>,
) -> bool {
    let s = pattern(obstacles, id);
    if s.len() == size {
        exists|i: int| 0 <= i < result.len() && (#[trigger] result[i]).board_id() == id
    } else {
        forall|c: Coord| #[trigger]
            frontier(obstacles, s).contains(c) && !rest.contains(
                pos_of(obstacles.width() as int, c),
            ) ==> known(obstacles, seen, s.insert(c))
    }
}

/// The candidates on the stack are sound, differ from each other and from
/// what has been taken off the stack, and all but the empty one are marked as seen.
spec fn stack_ok(obstacles: &Board, stack: Seq<Candidate>, seen: Set<u64>, done: Set<u64>) -> bool {
    &&& forall|k: int| 0 <= k < stack.len() ==> (#[trigger] stack[k]).wf(obstacles)
    &&& forall|k: int, l: int|
        0 <= k < l < stack.len() ==> (#[trigger] stack[k]).board.board_id() != (
        #[trigger] stack[l]).board.board_id()
    &&& forall|k: int|
        0 <= k < stack.len() ==> !done.contains((#[trigger] stack[k]).board.board_id())
    &&& forall|k: int|
        0 <= k < stack.len() ==> (#[trigger] stack[k]).board.board_id() == 0 || seen.contains(
            stack[k].board.board_id(),
        )
}

/// What is marked as seen is on the stack or has been taken off it, and the
/// empty set, which is never marked, is too.
spec fn seen_ok(stack: Seq<Candidate>, seen: Set<u64>, done: Set<u64>) -> bool {
    &&& !seen.contains(0)
    &&& done.contains(0) || on_stack(stack, 0)
    &&& forall|id: u64| #[trigger] seen.contains(id) ==> done.contains(id) || on_stack(stack, id)
    &&& forall|id: u64| #[trigger] done.contains(id) ==> id == 0 || seen.contains(id)
    &&& done.finite()
}

/// The search is through with all that has been taken off the stack, but for
/// the positions in `rest` of the one that is being grown, `cur`.
spec fn done_ok(
    obstacles: &Board,
    size: int,
    seen: Set<u64>,
    done: Set<u64>,
    result: Seq<Board>,
    cur: u64,
    rest: Set<int>,
) -> bool {
    forall|id: u64| #[trigger]
        done.contains(id) ==> fits(id, obstacles.spec_area()) && explored(
            obstacles,
            size,
            seen,
            result,
            id,
            if id == cur {
                rest
            } else {
                Set::empty()
            },
        )
}

/// Every result is a cluster of full size that has been taken off the stack,
/// and no two results have the same identity.
spec fn result_ok(obstacles: &Board, size: int, done: Set<u64>, result: Seq<Board>) -> bool {
    &&& forall|i: int|
        0 <= i < result.len() ==> (#[trigger] result[i]).wf() && result[i].same_shape(obstacles)
            && is_cluster(obstacles, result[i]@, size) && done.contains(result[i].board_id())
    &&& forall|i: int, j: int|
        0 <= i < j < result.len() ==> (#[trigger] result[i]).board_id() != (
        #[trigger] result[j]).board_id()
}

/// What holds throughout the search.
spec fn search_inv(
    obstacles: &Board,
    size: int,
    stack: Seq<Candidate>,
    seen: Set<u64>,
    done: Set<u64>,
    result: Seq<Board>,
    cur: u64,
    rest: Set<int>,
) -> bool {
    &&& stack_ok(obstacles, stack, seen, done)
    &&& seen_ok(stack, seen, done)
    &&& done_ok(obstacles, size, seen, done, result, cur, rest)
    &&& result_ok(obstacles, size, done, result)
}

/// No cluster has more cells than the grid.
proof fn lemma_none_above_area(obstacles: &Board, size: int)
    requires
        obstacles.wf(),
        size > obstacles.spec_area(),
    ensures
        enumerates(obstacles, size, Seq::<Board>::empty()),
{
    let w = obstacles.width() as int;
    let h = obstacles.height() as int;
    assert forall|s: Set<Coord>| #[trigger] is_cluster(obstacles, s, size) implies holds(
        Seq::<Board>::empty(),
        s,
    ) by {
        assert(s.subset_of(grid(w, h)));
        lemma_in_grid_finite(w, h, s);
    }
}

/// The search starts from the empty board alone.
proof fn lemma_search_start(obstacles: &Board, size: int, root: Candidate)
    requires
        obstacles.wf(),
        root.wf(obstacles),
        root.board.board_id() == 0,
    ensures
        search_inv(
            obstacles,
            size,
            seq![root],
            Set::<u64>::empty(),
            Set::<u64>::empty(),
            Seq::<Board>::empty(),
            0,
            Set::<int>::empty(),
        ),
{
    let stack = seq![root];
    assert(stack[0].board.board_id() == 0);
    assert(on_stack(stack, 0));
}

/// Where nothing is left to grow, it does not matter which candidate was grown last.
proof fn lemma_search_rest(
    obstacles: &Board,
    size: int,
    stack: Seq<Candidate>,
    seen: Set<u64>,
    done: Set<u64>,
    result: Seq<Board>,
    cur: u64,
)
    requires
        search_inv(obstacles, size, stack, seen, done, result, cur, Set::<int>::empty()),
    ensures
        search_inv(obstacles, size, stack, seen, done, result, 0, Set::<int>::empty()),
{
    assert forall|id: u64| #[trigger] done.contains(id) implies explored(
        obstacles,
        size,
        seen,
        result,
        id,
        if id == 0 {
            Set::<int>::empty()
        } else {
            Set::empty()
        },
    ) by {
        let r1 = if id == cur {
            Set::<int>::empty()
        } else {
            Set::empty()
        };
        assert(explored(obstacles, size, seen, result, id, r1));
    }
}

/// A candidate of full size leaves the stack as a result.
proof fn lemma_pop_result(
    obstacles: &Board,
    size: int,
    stack: Seq<Candidate>,
    seen: Set<u64>,
    done: Set<u64>,
    result: Seq<Board>,
)
    requires
        obstacles.wf(),
        stack.len() > 0,
        search_inv(obstacles, size, stack, seen, done, result, 0, Set::<int>::empty()),
        stack.last().current_size == size,
    ensures
        !done.contains(stack.last().board.board_id()),
        search_inv(
            obstacles,
            size,
            stack.drop_last(),
            seen,
            done.insert(stack.last().board.board_id()),
            result.push(stack.last().board),
            0,
            Set::<int>::empty(),
        ),
{
    let top = stack.last();
    let id0 = top.board.board_id();
    let stack2 = stack.drop_last();
    let done2 = done.insert(id0);
    let result2 = result.push(top.board);
    let w = obstacles.width() as int;
    let h = obstacles.height() as int;
    let n = stack.len() - 1;
    assert(stack[n] == top);
    assert(top.wf(obstacles));
    lemma_stack_shrinks(obstacles, stack, seen, done);
    lemma_cells_finite(w, h, id0);
    assert(pattern(obstacles, id0) == top.board@);
    assert forall|id: u64| #[trigger] done2.contains(id) implies fits(id, obstacles.spec_area())
        && explored(
        obstacles,
        size,
        seen,
        result2,
        id,
        if id == 0 {
            Set::<int>::empty()
        } else {
            Set::empty()
        },
    ) by {
        if id == id0 {
            assert(result2[result.len() as int].board_id() == id0);
        } else {
            assert(done.contains(id));
            let r0 = if id == 0 {
                Set::<int>::empty()
            } else {
                Set::empty()
            };
            assert(explored(obstacles, size, seen, result, id, r0));
            if pattern(obstacles, id).len() == size {
                let i = choose|i: int|
                    0 <= i < result.len() && (#[trigger] result[i]).board_id() == id;
                assert(result2[i] == result[i]);
            }
        }
    }
    assert forall|i: int| 0 <= i < result2.len() implies (#[trigger] result2[i]).wf()
        && result2[i].same_shape(obstacles) && is_cluster(obstacles, result2[i]@, size)
        && done2.contains(result2[i].board_id()) by {
        if i < result.len() {
            assert(result2[i] == result[i]);
        }
    }
    assert forall|i: int, j: int| 0 <= i < j < result2.len() implies (
    #[trigger] result2[i]).board_id() != (#[trigger] result2[j]).board_id() by {
        assert(result2[i] == result[i]);
        if j < result.len() {
            assert(result2[j] == result[j]);
        }
    }
}

/// What is left of the invariant's part on the stack when its top is taken off.
proof fn lemma_stack_shrinks(
    obstacles: &Board,
    stack: Seq<Candidate>,
    seen: Set<u64>,
    done: Set<u64>,
)
    requires
        stack.len() > 0,
        stack_ok(obstacles, stack, seen, done),
        seen_ok(stack, seen, done),
    ensures
        !done.contains(stack.last().board.board_id()),
        stack_ok(obstacles, stack.drop_last(), seen, done.insert(stack.last().board.board_id())),
        seen_ok(stack.drop_last(), seen, done.insert(stack.last().board.board_id())),
{
    let top = stack.last();
    let id0 = top.board.board_id();
    let stack2 = stack.drop_last();
    let done2 = done.insert(id0);
    let n = stack.len() - 1;
    assert(stack[n] == top);
    assert forall|k: int| 0 <= k < stack2.len() implies (#[trigger] stack2[k]) == stack[k] by {}
    assert forall|k: int| 0 <= k < stack2.len() implies !done2.contains(
        (#[trigger] stack2[k]).board.board_id(),
    ) by {
        assert(stack2[k] == stack[k]);
        assert(stack[k].board.board_id() != stack[n].board.board_id());
    }
    assert forall|k: int, l: int| 0 <= k < l < stack2.len() implies (
    #[trigger] stack2[k]).board.board_id() != (#[trigger] stack2[l]).board.board_id() by {
        assert(stack2[k] == stack[k]);
        assert(stack2[l] == stack[l]);
    }
    assert forall|id: u64| done.contains(id) || on_stack(stack, id) implies done2.contains(id)
        || on_stack(stack2, id) by {
        if !done.contains(id) {
            let k = choose|k: int|
                0 <= k < stack.len() && (#[trigger] stack[k]).board.board_id() == id;
            if k < n {
                assert(stack2[k] == stack[k]);
            }
        }
    }
    assert(stack[n].board.board_id() == 0 || seen.contains(stack[n].board.board_id()));
}

/// A candidate below full size leaves the stack to be grown at every position
/// of its boundary.
proof fn lemma_pop_expand(
    obstacles: &Board,
    size: int,
    stack: Seq<Candidate>,
    seen: Set<u64>,
    done: Set<u64>,
    result: Seq<Board>,
)
    requires
        obstacles.wf(),
        stack.len() > 0,
        search_inv(obstacles, size, stack, seen, done, result, 0, Set::<int>::empty()),
        stack.last().current_size != size,
    ensures
        !done.contains(stack.last().board.board_id()),
        stack.last().wf(obstacles),
        search_inv(
            obstacles,
            size,
            stack.drop_last(),
            seen,
            done.insert(stack.last().board.board_id()),
            result,
            stack.last().board.board_id(),
            stack.last().boundary@,
        ),
{
    let top = stack.last();
    let id0 = top.board.board_id();
    let done2 = done.insert(id0);
    let w = obstacles.width() as int;
    let h = obstacles.height() as int;
    let n = stack.len() - 1;
    assert(stack[n] == top);
    assert(top.wf(obstacles));
    lemma_stack_shrinks(obstacles, stack, seen, done);
    assert(pattern(obstacles, id0) == top.board@);
    assert forall|id: u64| #[trigger] done2.contains(id) implies fits(id, obstacles.spec_area())
        && explored(
        obstacles,
        size,
        seen,
        result,
        id,
        if id == id0 {
            top.boundary@
        } else {
            Set::empty()
        },
    ) by {
        if id == id0 {
            let s = top.board@;
            assert forall|c: Coord| #[trigger]
                frontier(obstacles, s).contains(c) && !top.boundary@.contains(
                    pos_of(w, c),
                ) implies known(obstacles, seen, s.insert(c)) by {
                lemma_pos_of_cell(w, h, c);
                assert(positions(obstacles, frontier(obstacles, s)).contains(pos_of(w, c)));
            }
        } else {
            assert(done.contains(id));
            let r0 = if id == 0 {
                Set::<int>::empty()
            } else {
                Set::empty()
            };
            assert(explored(obstacles, size, seen, result, id, r0));
        }
    }
    assert forall|i: int| 0 <= i < result.len() implies done2.contains(
        (#[trigger] result[i]).board_id(),
    ) by {}
}

/// What growing a candidate at a position of its boundary gives: a larger
/// connected set of free cells.
proof fn lemma_grow_candidate(obstacles: &Board, cand: Candidate, i: int)
    requires
        obstacles.wf(),
        cand.wf(obstacles),
        cand.boundary@.contains(i),
    ensures
        0 <= i < obstacles.spec_area(),
        0 < obstacles.width(),
        in_grid(
            obstacles.width() as int,
            obstacles.height() as int,
            cell_at(obstacles.width() as int, i),
        ),
        frontier(obstacles, cand.board@).contains(cell_at(obstacles.width() as int, i)),
        !cand.board@.contains(cell_at(obstacles.width() as int, i)),
        placeable(obstacles, cand.board@.insert(cell_at(obstacles.width() as int, i))),
        connected(cand.board@.insert(cell_at(obstacles.width() as int, i))),
        cand.board@.insert(cell_at(obstacles.width() as int, i)).len() == cand.current_size + 1,
        cand.current_size + 1 <= 64,
{
    let w = obstacles.width() as int;
    let h = obstacles.height() as int;
    let c = cell_at(w, i);
    let s = cand.board@;
    let t = s.insert(c);
    assert(positions(obstacles, frontier(obstacles, s)).contains(i));
    lemma_cell_at_pos(w, h, i);
    lemma_grow_connected(s, c);
    lemma_cells_finite(w, h, cand.board.board_id());
    assert(t.subset_of(grid(w, h)));
    lemma_in_grid_finite(w, h, t);
}

/// Growing by a cell whose set has been met before only crosses the position off.
proof fn lemma_step_skip(
    obstacles: &Board,
    size: int,
    stack: Seq<Candidate>,
    seen: Set<u64>,
    done: Set<u64>,
    result: Seq<Board>,
    cand: Candidate,
    rest: Set<int>,
    i: int,
    id1: u64,
)
    requires
        obstacles.wf(),
        cand.wf(obstacles),
        done.contains(cand.board.board_id()),
        search_inv(obstacles, size, stack, seen, done, result, cand.board.board_id(), rest),
        seen.contains(id1),
        pattern(obstacles, id1) == cand.board@.insert(cell_at(obstacles.width() as int, i)),
    ensures
        search_inv(
            obstacles,
            size,
            stack,
            seen,
            done,
            result,
            cand.board.board_id(),
            rest.remove(i),
        ),
{
    let cur = cand.board.board_id();
    let w = obstacles.width() as int;
    let h = obstacles.height() as int;
    let s = cand.board@;
    assert(pattern(obstacles, cur) == s);
    assert forall|id: u64| #[trigger] done.contains(id) implies explored(
        obstacles,
        size,
        seen,
        result,
        id,
        if id == cur {
            rest.remove(i)
        } else {
            Set::empty()
        },
    ) by {
        let r0 = if id == cur {
            rest
        } else {
            Set::empty()
        };
        assert(explored(obstacles, size, seen, result, id, r0));
        if id == cur && s.len() != size {
            assert forall|c: Coord| #[trigger]
                frontier(obstacles, s).contains(c) && !rest.remove(i).contains(
                    pos_of(w, c),
                ) implies known(obstacles, seen, s.insert(c)) by {
                lemma_pos_of_cell(w, h, c);
                if rest.contains(pos_of(w, c)) {
                    assert(c == cell_at(w, i));
                    assert(seen.contains(id1) && pattern(obstacles, id1) == s.insert(c));
                }
            }
        }
    }
}

/// Growing by a cell whose set is new puts the larger candidate on the stack
/// and marks it as seen.
proof fn lemma_step_push(
    obstacles: &Board,
    size: int,
    stack: Seq<Candidate>,
    seen: Set<u64>,
    done: Set<u64>,
    result: Seq<Board>,
    cand: Candidate,
    rest: Set<int>,
    i: int,
    grown: Candidate,
)
    requires
        obstacles.wf(),
        cand.wf(obstacles),
        grown.wf(obstacles),
        done.contains(cand.board.board_id()),
        search_inv(obstacles, size, stack, seen, done, result, cand.board.board_id(), rest),
        !seen.contains(grown.board.board_id()),
        grown.board@ == cand.board@.insert(cell_at(obstacles.width() as int, i)),
    ensures
        search_inv(
            obstacles,
            size,
            stack.push(grown),
            seen.insert(grown.board.board_id()),
            done,
            result,
            cand.board.board_id(),
            rest.remove(i),
        ),
{
    let cur = cand.board.board_id();
    let id1 = grown.board.board_id();
    let w = obstacles.width() as int;
    let h = obstacles.height() as int;
    let s = cand.board@;
    let stack2 = stack.push(grown);
    let seen2 = seen.insert(id1);
    let n = stack.len() as int;
    assert(pattern(obstacles, cur) == s);
    assert(pattern(obstacles, id1) == grown.board@);
    assert(id1 != 0) by {
        lemma_cells_of_zero(w, h);
        assert(grown.board@.contains(cell_at(w, i)));
    }
    assert(stack2[n] == grown);
    assert forall|k: int| 0 <= k < n implies (#[trigger] stack2[k]) == stack[k] by {}
    assert forall|k: int| 0 <= k < stack2.len() implies (#[trigger] stack2[k]).wf(obstacles) by {
        if k < n {
            assert(stack2[k] == stack[k]);
        }
    }
    assert forall|k: int, l: int| 0 <= k < l < stack2.len() implies (
    #[trigger] stack2[k]).board.board_id() != (#[trigger] stack2[l]).board.board_id() by {
        assert(stack2[k] == stack[k]);
        if l < n {
            assert(stack2[l] == stack[l]);
        }
    }
    assert forall|k: int| 0 <= k < stack2.len() implies !done.contains(
        (#[trigger] stack2[k]).board.board_id(),
    ) by {
        if k < n {
            assert(stack2[k] == stack[k]);
        }
    }
    assert forall|k: int| 0 <= k < stack2.len() implies (#[trigger] stack2[k]).board.board_id()
        == 0 || seen2.contains(stack2[k].board.board_id()) by {
        if k < n {
            assert(stack2[k] == stack[k]);
        }
    }
    assert forall|id: u64| on_stack(stack, id) implies on_stack(stack2, id) by {
        let k = choose|k: int| 0 <= k < stack.len() && (#[trigger] stack[k]).board.board_id() == id;
        assert(stack2[k] == stack[k]);
    }
    assert(on_stack(stack2, id1));
    assert forall|id: u64| #[trigger] done.contains(id) implies explored(
        obstacles,
        size,
        seen2,
        result,
        id,
        if id == cur {
            rest.remove(i)
        } else {
            Set::empty()
        },
    ) by {
        let r0 = if id == cur {
            rest
        } else {
            Set::empty()
        };
        let r1 = if id == cur {
            rest.remove(i)
        } else {
            Set::empty()
        };
        let p = pattern(obstacles, id);
        assert(explored(obstacles, size, seen, result, id, r0));
        if p.len() != size {
            assert forall|c: Coord| #[trigger]
                frontier(obstacles, p).contains(c) && !r1.contains(pos_of(w, c)) implies known(
                obstacles,
                seen2,
                p.insert(c),
            ) by {
                if !r0.contains(pos_of(w, c)) {
                    assert(known(obstacles, seen, p.insert(c)));
                    let j = choose|j: u64| #[trigger]
                        seen.contains(j) && pattern(obstacles, j) == p.insert(c);
                    assert(seen2.contains(j));
                } else {
                    lemma_pos_of_cell(w, h, c);
                    assert(c == cell_at(w, i));
                    assert(seen2.contains(id1) && pattern(obstacles, id1) == p.insert(c));
                }
            }
        }
    }
}

/// Once the stack is empty, every set of free cells that can be built up to `s`
/// cell by cell, each touching the ones before, has been met, and `s` itself,
/// a cluster of full size, is among the results.
proof fn lemma_reaches(
    obstacles: &Board,
    size: int,
    seen: Set<u64>,
    done: Set<u64>,
    result: Seq<Board>,
    s: Set<Coord>,
    id: u64,
)
    requires
        obstacles.wf(),
        search_inv(
            obstacles,
            size,
            Seq::<Candidate>::empty(),
            seen,
            done,
            result,
            0,
            Set::<int>::empty(),
        ),
        is_cluster(obstacles, s, size),
        done.contains(id),
        pattern(obstacles, id).subset_of(s),
    ensures
        holds(result, s),
    decreases s.len() - pattern(obstacles, id).len(),
{
    let w = obstacles.width() as int;
    let h = obstacles.height() as int;
    let t = pattern(obstacles, id);
    lemma_cells_finite(w, h, id);
    lemma_len_subset(t, s);
    let r0 = if id == 0 {
        Set::<int>::empty()
    } else {
        Set::empty()
    };
    assert(explored(obstacles, size, seen, result, id, r0));
    if t.len() == s.len() {
        lemma_subset_equality(t, s);
        let i = choose|i: int| 0 <= i < result.len() && (#[trigger] result[i]).board_id() == id;
        assert(result[i]@ == s);
    } else {
        let c = lemma_next_cell(obstacles, s, t);
        assert(!r0.contains(pos_of(w, c)));
        assert(known(obstacles, seen, t.insert(c)));
        let id2 = choose|j: u64| #[trigger] seen.contains(j) && pattern(obstacles, j) == t.insert(c);
        assert(done.contains(id2) || on_stack(Seq::<Candidate>::empty(), id2));
        assert(done.contains(id2));
        lemma_reaches(obstacles, size, seen, done, result, s, id2);
    }
}

/// A connected set of free cells that is not yet all of the cluster `s` can
/// grow by a cell of `s`.
proof fn lemma_next_cell(obstacles: &Board, s: Set<Coord>, t: Set<Coord>) -> (c: Coord)
    requires
        placeable(obstacles, s),
        connected(s),
        s.finite(),
        t.finite(),
        t.subset_of(s),
        t.len() < s.len(),
    ensures
        s.contains(c),
        !t.contains(c),
        frontier(obstacles, t).contains(c),
{
    let d = s.difference(t);
    lemma_len_difference_positive(s, t);
    let b = d.choose();
    assert(d.contains(b));
    if t.is_empty() {
        b
    } else {
        let a = t.choose();
        assert(t.contains(a));
        lemma_part_can_grow(s, t, a, b)
    }
}

/// A set that is smaller than a set around it leaves something over.
proof fn lemma_len_difference_positive(s: Set<Coord>, t: Set<Coord>)
    requires
        s.finite(),
        t.subset_of(s),
        t.len() < s.len(),
    ensures
        s.difference(t).finite(),
        s.difference(t).len() > 0,
{
    let d = s.difference(t);
    lemma_len_subset(t, s);
    if d.len() == 0 {
        assert(d.is_empty());
        assert forall|a: Coord| s.contains(a) implies t.contains(a) by {
            if !t.contains(a) {
                assert(d.contains(a));
            }
        }
        assert(s =~= t);
    }
}

/// Once the stack is empty, the results are the clusters of full size.
proof fn lemma_search_end(
    obstacles: &Board,
    size: int,
    seen: Set<u64>,
    done: Set<u64>,
    result: Seq<Board>,
)
    requires
        obstacles.wf(),
        search_inv(
            obstacles,
            size,
            Seq::<Candidate>::empty(),
            seen,
            done,
            result,
            0,
            Set::<int>::empty(),
        ),
    ensures
        enumerates(obstacles, size, result),
{
    let w = obstacles.width() as int;
    let h = obstacles.height() as int;
    assert(!on_stack(Seq::<Candidate>::empty(), 0));
    assert forall|s: Set<Coord>| #[trigger] is_cluster(obstacles, s, size) implies holds(
        result,
        s,
    ) by {
        lemma_cells_of_zero(w, h);
        lemma_reaches(obstacles, size, seen, done, result, s, 0);
    }
}

/// All clusters of `size` cells on the grid of `obstacles`: every connected set of
/// that many cells that no obstacle blocks, each once, as a board of its own, in
/// no particular order. The obstacles count towards the area but never towards a
/// cluster, so a size above the number of free cells gives no cluster.
pub fn all_possible_clusters(obstacles: &Board, size: i64) -> (result: Vec<Board>)
    requires
        obstacles.wf(),
    ensures
        enumerates(obstacles, size as int, result@),
        edge_sizes(obstacles, size as int, result@),
{
    let width = obstacles.width();
    let height = obstacles.height();
    let area = obstacles.area();

    if size > area {
        proof {
            lemma_none_above_area(obstacles, size as int);
            lemma_edge_sizes(obstacles, size as int, Seq::<Board>::empty());
        }
        return Vec::new();
    }
    let room = match usize::try_from(area) {
        Ok(n) => n,
        Err(_) => 0,
    };
    let mut stack: Vec<Candidate> = Vec::with_capacity(room);
    let root = Candidate {
        board: Board::new(width, height),
        current_size: 0,
        boundary: open_positions(obstacles),
    };
    proof {
        lemma_search_start(obstacles, size as int, root);
    }
    stack.push(root);
    assert(stack@ =~= seq![root]);

    // The identities met so far. A hash set grows with the sets that are met,
    // where a table over all identities would grow with two to the power of the area.
    let mut seen: HashSet<u64> = HashSet::new();
    let mut result: Vec<Board> = Vec::new();
    let ghost mut done: Set<u64> = Set::empty();

    loop
        invariant
            obstacles.wf(),
            width == obstacles.width(),
            search_inv(
                obstacles,
                size as int,
                stack@,
                seen@,
                done,
                result@,
                0,
                Set::<int>::empty(),
            ),
        ensures
            stack@.len() == 0,
        decreases Set::<u64>::full().len() - done.len(),
    {
        let ghost stack0 = stack@;
        let ghost done0 = done;
        let cand = match stack.pop() {
            Some(c) => c,
            None => {
                break ;
            },
        };
        let ghost id0 = cand.board.board_id();
        proof {
            assert(stack@ =~= stack0.drop_last());
            assert(cand == stack0.last());
            <u64 as FiniteFull>::full_properties();
            lemma_len_subset(done.insert(id0), Set::<u64>::full());
        }
        if cand.current_size == size {
            proof {
                lemma_pop_result(obstacles, size as int, stack0, seen@, done, result@);
                done = done.insert(id0);
            }
            result.push(cand.board);
        } else {
            proof {
                lemma_pop_expand(obstacles, size as int, stack0, seen@, done, result@);
                done = done.insert(id0);
            }
            let mut it = cand.boundary.ones();
            loop
                invariant
                    obstacles.wf(),
                    width == obstacles.width(),
                    cand.wf(obstacles),
                    cand.board.board_id() == id0,
                    done == done0.insert(id0),
                    it.wf(),
                    it.remaining().subset_of(cand.boundary@),
                    search_inv(
                        obstacles,
                        size as int,
                        stack@,
                        seen@,
                        done,
                        result@,
                        id0,
                        it.remaining(),
                    ),
                ensures
                    search_inv(
                        obstacles,
                        size as int,
                        stack@,
                        seen@,
                        done,
                        result@,
                        id0,
                        Set::<int>::empty(),
                    ),
                decreases it.remaining().len(),
            {
                let ghost rest = it.remaining();
                proof {
                    it.lemma_remaining_bounded();
                }
                let i = match it.next() {
                    Some(i) => i,
                    None => {
                        break ;
                    },
                };
                proof {
                    lemma_grow_candidate(obstacles, cand, i as int);
                }
                let x = i % width;
                let y = i / width;
                let mut new_board = cand.board.clone();
                new_board.set(x, y);
                let id = new_board.board_id();
                let ghost seen0 = seen@;
                if seen.insert(id) {
                    let new_boundary = rim_positions(&new_board, obstacles);
                    let grown = Candidate {
                        board: new_board,
                        boundary: new_boundary,
                        current_size: cand.current_size + 1,
                    };
                    proof {
                        lemma_step_push(
                            obstacles,
                            size as int,
                            stack@,
                            seen0,
                            done,
                            result@,
                            cand,
                            rest,
                            i as int,
                            grown,
                        );
                    }
                    stack.push(grown);
                } else {
                    proof {
                        assert(seen@ =~= seen0);
                        lemma_step_skip(
                            obstacles,
                            size as int,
                            stack@,
                            seen@,
                            done,
                            result@,
                            cand,
                            rest,
                            i as int,
                            id,
                        );
                    }
                }
            }
            proof {
                lemma_search_rest(obstacles, size as int, stack@, seen@, done, result@, id0);
            }
        }
    }
    proof {
        assert(stack@ =~= Seq::<Candidate>::empty());
        lemma_search_end(obstacles, size as int, seen@, done, result@);
        lemma_edge_sizes(obstacles, size as int, result@);
    }
    result
}

} // verus!
