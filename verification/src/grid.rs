//! The geometry of a rectangular grid: cells, their row-major positions,
//! and what it means for a set of cells to hang together.

use vstd::arithmetic::div_mod::*;
use vstd::prelude::*;
use vstd::set_lib::*;

verus! {

/// A cell of the grid: its column, then its row.
pub type Coord = (int, int);

/// Whether `c` lies inside the rectangle of `w` columns and `h` rows.
pub open spec fn in_grid(w: int, h: int, c: Coord) -> bool {
    0 <= c.0 < w && 0 <= c.1 < h
}

/// All cells of the rectangle of `w` columns and `h` rows.
pub open spec fn grid(w: int, h: int) -> Set<Coord> {
    Set::new(|c: Coord| in_grid(w, h, c))
}

/// The row-major position of a cell in a grid of `w` columns.
pub open spec fn pos_of(w: int, c: Coord) -> int {
    c.1 * w + c.0
}

/// The cell at a row-major position in a grid of `w` columns.
pub open spec fn cell_at(w: int, p: int) -> Coord {
    (p % w, p / w)
}

/// A cell of the grid has a position below the area, and the position leads back to it.
pub proof fn lemma_pos_of_cell(w: int, h: int, c: Coord)
    requires
        in_grid(w, h, c),
    ensures
        0 <= pos_of(w, c) < w * h,
        cell_at(w, pos_of(w, c)) == c,
{
    let (x, y) = c;
    assert(0 <= y * w && y * w + w <= w * h) by (nonlinear_arith)
        requires
            0 <= y < h,
            0 < w,
    ;
    lemma_fundamental_div_mod_converse(y * w + x, w, y, x);
}

/// A position below the area is that of exactly one cell of the grid.
pub proof fn lemma_cell_at_pos(w: int, h: int, p: int)
    requires
        0 <= w,
        0 <= h,
        0 <= p < w * h,
    ensures
        in_grid(w, h, cell_at(w, p)),
        pos_of(w, cell_at(w, p)) == p,
{
    assert(0 < w) by (nonlinear_arith)
        requires
            0 <= w,
            0 <= p < w * h,
    ;
    lemma_mod_pos_bound(p, w);
    lemma_div_pos_is_pos(p, w);
    lemma_multiply_divide_lt(p, w, h);
    lemma_fundamental_div_mod(p, w);
    assert((p / w) * w == w * (p / w)) by (nonlinear_arith);
}

/// Two cells of the grid with the same position are the same cell.
pub proof fn lemma_pos_injective(w: int, h: int, a: Coord, b: Coord)
    requires
        in_grid(w, h, a),
        in_grid(w, h, b),
        pos_of(w, a) == pos_of(w, b),
    ensures
        a == b,
{
    lemma_pos_of_cell(w, h, a);
    lemma_pos_of_cell(w, h, b);
}

/// Whether `b` is the cell right of, left of, below or above `a`.
pub open spec fn adjacent(a: Coord, b: Coord) -> bool {
    ||| b == (a.0 + 1, a.1)
    ||| b == (a.0 - 1, a.1)
    ||| b == (a.0, a.1 + 1)
    ||| b == (a.0, a.1 - 1)
}

/// Whether one of the four neighbours of `c` belongs to `s`.
pub open spec fn touches(s: Set<Coord>, c: Coord) -> bool {
    ||| s.contains((c.0 + 1, c.1))
    ||| s.contains((c.0 - 1, c.1))
    ||| s.contains((c.0, c.1 + 1))
    ||| s.contains((c.0, c.1 - 1))
}

/// Whether step `i` of the walk leads to a neighbouring cell.
pub open spec fn step_ok(p: Seq<Coord>, i: int) -> bool {
    adjacent(p[i], p[i + 1])
}

/// Whether `p` is a walk through `s`: a non-empty sequence of cells of `s`,
/// each next to the one before it.
pub open spec fn is_walk(s: Set<Coord>, p: Seq<Coord>) -> bool {
    &&& p.len() > 0
    &&& forall|i: int| 0 <= i < p.len() ==> s.contains(#[trigger] p[i])
    &&& forall|i: int| 0 <= i < p.len() - 1 ==> #[trigger] step_ok(p, i)
}

/// Whether `p` is a walk through `s` that starts at `a` and ends at `b`.
pub open spec fn walk_between(s: Set<Coord>, p: Seq<Coord>, a: Coord, b: Coord) -> bool {
    is_walk(s, p) && p[0] == a && p[p.len() - 1] == b
}

/// Whether `b` can be reached from `a` by steps to neighbouring cells, never leaving `s`.
pub open spec fn linked(s: Set<Coord>, a: Coord, b: Coord) -> bool {
    exists|p: Seq<Coord>| #[trigger] walk_between(s, p, a, b)
}

/// Whether every cell of `s` can be reached from every other one without leaving `s`.
/// The empty set and a single cell are connected.
pub open spec fn connected(s: Set<Coord>) -> bool {
    forall|a: Coord, b: Coord| s.contains(a) && s.contains(b) ==> #[trigger] linked(s, a, b)
}

/// A cell next to a member of `s` touches `s`.
pub proof fn lemma_neighbour_touches(s: Set<Coord>, d: Coord, c: Coord)
    requires
        s.contains(d),
        adjacent(d, c),
    ensures
        touches(s, c),
{
}

/// A cell that touches `s` has a neighbour in `s`.
pub proof fn lemma_touched_by(s: Set<Coord>, c: Coord) -> (d: Coord)
    requires
        touches(s, c),
    ensures
        s.contains(d),
        adjacent(d, c),
        adjacent(c, d),
{
    if s.contains((c.0 + 1, c.1)) {
        (c.0 + 1, c.1)
    } else if s.contains((c.0 - 1, c.1)) {
        (c.0 - 1, c.1)
    } else if s.contains((c.0, c.1 + 1)) {
        (c.0, c.1 + 1)
    } else {
        (c.0, c.1 - 1)
    }
}

/// A walk through a set is a walk through every larger set.
pub proof fn lemma_walk_in_superset(s: Set<Coord>, t: Set<Coord>, p: Seq<Coord>)
    requires
        is_walk(s, p),
        s.subset_of(t),
    ensures
        is_walk(t, p),
{
    assert forall|i: int| 0 <= i < p.len() implies t.contains(#[trigger] p[i]) by {
        assert(s.contains(p[i]));
    }
}

/// A walk that starts inside `t` and ends outside it crosses the border of `t`
/// at some step.
pub proof fn lemma_walk_leaves(s: Set<Coord>, t: Set<Coord>, p: Seq<Coord>, j: int) -> (i: int)
    requires
        is_walk(s, p),
        0 <= j < p.len(),
        t.contains(p[0]),
        !t.contains(p[j]),
    ensures
        0 <= i < j,
        t.contains(p[i]),
        !t.contains(p[i + 1]),
        s.contains(p[i + 1]),
        adjacent(p[i], p[i + 1]),
    decreases j,
{
    assert(j > 0);
    if t.contains(p[j - 1]) {
        assert(step_ok(p, j - 1));
        j - 1
    } else {
        lemma_walk_leaves(s, t, p, j - 1)
    }
}

/// A connected set stays connected when it gains a cell that touches it;
/// an empty set may gain any cell.
pub proof fn lemma_grow_connected(s: Set<Coord>, c: Coord)
    requires
        connected(s),
        s.is_empty() || touches(s, c),
    ensures
        connected(s.insert(c)),
{
    let t = s.insert(c);
    assert forall|a: Coord, b: Coord| t.contains(a) && t.contains(b) implies #[trigger] linked(
        t,
        a,
        b,
    ) by {
        if a != c && b != c {
            assert(linked(s, a, b));
            let p = choose|p: Seq<Coord>| #[trigger] walk_between(s, p, a, b);
            lemma_walk_in_superset(s, t, p);
            assert(walk_between(t, p, a, b));
        } else if a == c && b == c {
            let p = seq![c];
            assert(walk_between(t, p, a, b));
        } else if a == c {
            assert(s.contains(b));
            let d = lemma_touched_by(s, c);
            assert(linked(s, d, b));
            let p = choose|p: Seq<Coord>| #[trigger] walk_between(s, p, d, b);
            lemma_walk_in_superset(s, t, p);
            let q = seq![c] + p;
            assert forall|i: int| 0 <= i < q.len() implies t.contains(#[trigger] q[i]) by {
                if i > 0 {
                    assert(q[i] == p[i - 1]);
                }
            }
            assert forall|i: int| 0 <= i < q.len() - 1 implies #[trigger] step_ok(q, i) by {
                if i > 0 {
                    assert(step_ok(p, i - 1));
                    assert(q[i] == p[i - 1]);
                    assert(q[i + 1] == p[i]);
                } else {
                    assert(q[0] == c);
                    assert(q[1] == p[0]);
                }
            }
            assert(q[q.len() - 1] == p[p.len() - 1]);
            assert(walk_between(t, q, a, b));
        } else {
            assert(s.contains(a));
            let d = lemma_touched_by(s, c);
            assert(linked(s, a, d));
            let p = choose|p: Seq<Coord>| #[trigger] walk_between(s, p, a, d);
            lemma_walk_in_superset(s, t, p);
            let q = p.push(c);
            assert forall|i: int| 0 <= i < q.len() implies t.contains(#[trigger] q[i]) by {
                if i < p.len() {
                    assert(q[i] == p[i]);
                }
            }
            assert forall|i: int| 0 <= i < q.len() - 1 implies #[trigger] step_ok(q, i) by {
                if i < p.len() - 1 {
                    assert(step_ok(p, i));
                    assert(q[i] == p[i]);
                    assert(q[i + 1] == p[i + 1]);
                } else {
                    assert(q[i] == d);
                    assert(q[i + 1] == c);
                }
            }
            assert(walk_between(t, q, a, b));
        }
    }
}

/// Where a part of a connected set leaves out a cell of the set, some cell of the
/// set outside the part touches the part.
pub proof fn lemma_part_can_grow(s: Set<Coord>, t: Set<Coord>, a: Coord, b: Coord) -> (c: Coord)
    requires
        connected(s),
        t.subset_of(s),
        t.contains(a),
        s.contains(b),
        !t.contains(b),
    ensures
        s.contains(c),
        !t.contains(c),
        touches(t, c),
{
    assert(linked(s, a, b));
    let p = choose|p: Seq<Coord>| #[trigger] walk_between(s, p, a, b);
    let i = lemma_walk_leaves(s, t, p, p.len() - 1);
    lemma_neighbour_touches(t, p[i], p[i + 1]);
    p[i + 1]
}

/// The cells that come before column `x` of row `y` in row-major order.
pub open spec fn cells_before(w: int, y: int, x: int) -> Set<Coord> {
    Set::new(|c: Coord| 0 <= c.0 < w && 0 <= c.1 && (c.1 < y || (c.1 == y && c.0 < x)))
}

/// The cells before a given one are finitely many, as many as its position says,
/// and connected.
pub proof fn lemma_cells_before(w: int, y: int, x: int)
    requires
        0 <= w,
        0 <= y,
        0 <= x <= w,
    ensures
        cells_before(w, y, x).finite(),
        cells_before(w, y, x).len() == y * w + x,
        connected(cells_before(w, y, x)),
    decreases y, x,
{
    let s = cells_before(w, y, x);
    if x > 0 {
        let r = cells_before(w, y, x - 1);
        let c = (x - 1, y);
        lemma_cells_before(w, y, x - 1);
        assert(s =~= r.insert(c));
        assert(!r.contains(c));
        if x - 1 > 0 {
            assert(r.contains((x - 2, y)));
        } else if y > 0 {
            assert(r.contains((0, y - 1)));
        } else {
            assert(r =~= Set::<Coord>::empty());
        }
        lemma_grow_connected(r, c);
    } else if y > 0 {
        lemma_cells_before(w, y - 1, w);
        assert(s =~= cells_before(w, y - 1, w));
        assert((y - 1) * w + w == y * w) by (nonlinear_arith);
    } else {
        assert(s =~= Set::<Coord>::empty());
        assert(y * w == 0) by (nonlinear_arith)
            requires
                y == 0,
        ;
    }
}

/// A grid has as many cells as its area says, and is connected.
pub proof fn lemma_grid(w: int, h: int)
    requires
        0 <= w,
        0 <= h,
    ensures
        grid(w, h).finite(),
        grid(w, h).len() == w * h,
        connected(grid(w, h)),
{
    lemma_cells_before(w, h, 0);
    assert(grid(w, h) =~= cells_before(w, h, 0));
    assert(h * w == w * h) by (nonlinear_arith);
}

/// A set of cells of the grid is finite and no larger than the grid.
pub proof fn lemma_in_grid_finite(w: int, h: int, s: Set<Coord>)
    requires
        0 <= w,
        0 <= h,
        s.subset_of(grid(w, h)),
    ensures
        s.finite(),
        s.len() <= w * h,
{
    lemma_grid(w, h);
    lemma_len_subset(s, grid(w, h));
}

} // verus!
