//! Splitting a grid into connected regions of equal area, grown cell by cell in
//! the order in which a hash set hands out its items.

use crate::grid::{
    adjacent, cell_at, connected, grid, in_grid, lemma_cell_at_pos, lemma_grid,
    lemma_grow_connected, lemma_in_grid_finite, lemma_neighbour_touches, lemma_part_can_grow,
    lemma_pos_of_cell, pos_of, touches, Coord,
};
use std::collections::HashSet;
use vstd::prelude::*;
use vstd::set_lib::*;

verus! {

broadcast use vstd::std_specs::hash::group_hash_axioms;

/// The number that the grid holds at a cell: 0 for a blank cell, else its region.
pub open spec fn colour(g: Seq<Vec<usize>>, c: Coord) -> usize {
    g[c.1][c.0]
}

/// Whether `g` has `h` rows of `w` cells each.
pub open spec fn is_grid(g: Seq<Vec<usize>>, w: int, h: int) -> bool {
    g.len() == h && forall|y: int| 0 <= y < h ==> (#[trigger] g[y]).len() == w
}

/// The cells of the grid that hold the number `k`.
pub open spec fn region(g: Seq<Vec<usize>>, w: int, h: int, k: usize) -> Set<Coord> {
    Set::new(|c: Coord| in_grid(w, h, c) && colour(g, c) == k)
}

/// Whether `g` is split into the regions 1 to `n`: every cell belongs to one of
/// them, and each region is connected and holds the `n`-th part of the cells.
pub open spec fn is_split(g: Seq<Vec<usize>>, w: int, h: int, n: int) -> bool {
    &&& is_grid(g, w, h)
    &&& forall|c: Coord| in_grid(w, h, c) ==> 1 <= #[trigger] colour(g, c) <= n
    &&& forall|k: usize|
        1 <= k <= n ==> connected(#[trigger] region(g, w, h, k)) && region(g, w, h, k).len() == (w
            * h) / n
}

/// Whether some cell of region `k` comes before the cell `d` in row-major order.
pub open spec fn leads(g: Seq<Vec<usize>>, w: int, h: int, k: usize, d: Coord) -> bool {
    exists|a: Coord| in_grid(w, h, a) && #[trigger] colour(g, a) == k && pos_of(w, a) < pos_of(w, d)
}

/// Whether the regions are numbered in the order of their first cells: before
/// every cell there is a cell of each region with a smaller number than its own.
pub open spec fn in_order(g: Seq<Vec<usize>>, w: int, h: int) -> bool {
    forall|d: Coord, k: usize|
        in_grid(w, h, d) && 1 <= k < colour(g, d) ==> #[trigger] leads(g, w, h, k, d)
}

/// Whether `q` is the position of a blank cell next to `cell`.
pub open spec fn blank_beside(g: Seq<Vec<usize>>, w: int, h: int, cell: Coord, q: usize) -> bool {
    q < w * h && adjacent(cell, cell_at(w, q as int)) && colour(g, cell_at(w, q as int)) == 0
}

/// Whether `g2` is `g` with the cell at position `p` painted in the colour `c`
/// and every other cell as it was.
pub open spec fn painted(
    g: Seq<Vec<usize>>,
    g2: Seq<Vec<usize>>,
    w: int,
    h: int,
    c: usize,
    p: usize,
) -> bool {
    &&& is_grid(g2, w, h)
    &&& colour(g2, cell_at(w, p as int)) == c
    &&& forall|d: Coord|
        in_grid(w, h, d) && d != cell_at(w, p as int) ==> #[trigger] colour(g2, d) == colour(g, d)
}

/// Whether `fringe2` is `fringe` without the position `p` and with the positions
/// of the cells beside it that are blank in `g`.
pub open spec fn fringe_after(
    g: Seq<Vec<usize>>,
    w: int,
    h: int,
    fringe: Set<usize>,
    fringe2: Set<usize>,
    p: usize,
) -> bool {
    forall|q: usize| #[trigger]
        fringe2.contains(q) <==> q != p && (fringe.contains(q) || blank_beside(
            g,
            w,
            h,
            cell_at(w, p as int),
            q,
        ))
}

/// Before every cell that is blank or of a later region there is a cell of each
/// of the regions 1 to `c`.
spec fn ordered(g: Seq<Vec<usize>>, w: int, h: int, c: int) -> bool {
    forall|d: Coord, k: usize|
        in_grid(w, h, d) && 1 <= k <= c && (colour(g, d) == 0 || colour(g, d) > k)
            ==> #[trigger] leads(g, w, h, k, d)
}

/// The regions 1 to `c` are finished, each of `ca` cells, and the other cells are blank.
spec fn settled(g: Seq<Vec<usize>>, w: int, h: int, ca: int, c: usize) -> bool {
    &&& is_grid(g, w, h)
    &&& forall|d: Coord| in_grid(w, h, d) ==> #[trigger] colour(g, d) <= c
    &&& forall|k: usize|
        1 <= k <= c ==> connected(#[trigger] region(g, w, h, k)) && region(g, w, h, k).len() == ca
    &&& region(g, w, h, 0).len() == w * h - c * ca
    &&& ordered(g, w, h, c as int)
}

/// The regions below `c` are finished, region `c` is connected and holds `area`
/// cells, and `fringe` holds the positions by which it can grow: blank cells that
/// touch it, all of them, or the first blank cell while the region is empty.
spec fn growing(
    g: Seq<Vec<usize>>,
    w: int,
    h: int,
    ca: int,
    c: usize,
    area: int,
    fringe: Set<usize>,
) -> bool {
    &&& is_grid(g, w, h)
    &&& c >= 1
    &&& forall|d: Coord| in_grid(w, h, d) ==> #[trigger] colour(g, d) <= c
    &&& forall|k: usize|
        1 <= k < c ==> connected(#[trigger] region(g, w, h, k)) && region(g, w, h, k).len() == ca
    &&& connected(region(g, w, h, c))
    &&& region(g, w, h, c).len() == area
    &&& region(g, w, h, 0).len() == w * h - (c - 1) * ca - area
    &&& forall|p: usize| #[trigger]
        fringe.contains(p) ==> p < w * h && colour(g, cell_at(w, p as int)) == 0 && (area == 0
            || touches(region(g, w, h, c), cell_at(w, p as int)))
    &&& area == 0 ==> forall|p: usize, q: usize|
        #[trigger] fringe.contains(p) && #[trigger] fringe.contains(q) ==> p == q
    &&& area > 0 ==> forall|d: Coord|
        in_grid(w, h, d) && colour(g, d) == 0 && #[trigger] touches(region(g, w, h, c), d)
            ==> fringe.contains(pos_of(w, d) as usize)
    &&& area == 0 && region(g, w, h, 0).len() > 0 ==> exists|p: usize| fringe.contains(p)
    &&& ordered(g, w, h, c - 1)
    &&& area > 0 ==> forall|d: Coord|
        in_grid(w, h, d) && #[trigger] colour(g, d) == 0 ==> leads(g, w, h, c, d)
    &&& area == 0 ==> first_among_blank(g, w, h, fringe)
}

/// No blank cell comes before a position of the fringe.
spec fn first_among_blank(g: Seq<Vec<usize>>, w: int, h: int, fringe: Set<usize>) -> bool {
    forall|p: usize, d: Coord|
        #[trigger] fringe.contains(p) && in_grid(w, h, d) && #[trigger] colour(g, d) == 0 ==> p
            <= pos_of(w, d)
}

/// The regions of a grid are finite, no larger than the grid.
proof fn lemma_region_finite(g: Seq<Vec<usize>>, w: int, h: int, k: usize)
    requires
        0 <= w,
        0 <= h,
    ensures
        region(g, w, h, k).finite(),
        region(g, w, h, k).len() <= w * h,
        region(g, w, h, k).subset_of(grid(w, h)),
{
    lemma_in_grid_finite(w, h, region(g, w, h, k));
}

/// A grid of blank cells has no region finished and nothing but blank cells.
proof fn lemma_blank_settled(g: Seq<Vec<usize>>, w: int, h: int, ca: int)
    requires
        0 <= w,
        0 <= h,
        is_grid(g, w, h),
        forall|y: int, x: int| 0 <= y < h && 0 <= x < w ==> #[trigger] g[y][x] == 0,
    ensures
        settled(g, w, h, ca, 0),
{
    lemma_grid(w, h);
    assert forall|d: Coord| in_grid(w, h, d) implies #[trigger] colour(g, d) <= 0 by {
        assert(g[d.1][d.0] == 0);
    }
    assert(region(g, w, h, 0) =~= grid(w, h));
    assert(0 * ca == 0) by (nonlinear_arith);
}

/// The next region starts empty, with the first blank cell, if there is one, to grow from.
proof fn lemma_start_region(
    g: Seq<Vec<usize>>,
    w: int,
    h: int,
    ca: int,
    c: usize,
    fringe: Set<usize>,
)
    requires
        0 <= w,
        0 <= h,
        c < usize::MAX,
        settled(g, w, h, ca, c),
        forall|p: usize| #[trigger]
            fringe.contains(p) ==> p < w * h && colour(g, cell_at(w, p as int)) == 0,
        forall|p: usize, q: usize|
            #[trigger] fringe.contains(p) && #[trigger] fringe.contains(q) ==> p == q,
        region(g, w, h, 0).len() > 0 ==> exists|p: usize| fringe.contains(p),
        first_among_blank(g, w, h, fringe),
    ensures
        growing(g, w, h, ca, (c + 1) as usize, 0, fringe),
{
    let c1 = (c + 1) as usize;
    assert(region(g, w, h, c1) =~= Set::<Coord>::empty());
    assert((c1 - 1) * ca == c * ca);
    assert forall|d: Coord| in_grid(w, h, d) implies #[trigger] colour(g, d) <= c1 by {
        assert(colour(g, d) <= c);
    }
}

/// A region that has reached its full area is finished.
proof fn lemma_finish_region(
    g: Seq<Vec<usize>>,
    w: int,
    h: int,
    ca: int,
    c: usize,
    fringe: Set<usize>,
)
    requires
        0 <= w,
        0 <= h,
        ca > 0 || w * h == 0,
        growing(g, w, h, ca, c, ca, fringe),
    ensures
        settled(g, w, h, ca, c),
{
    assert((c - 1) * ca + ca == c * ca) by (nonlinear_arith);
    assert forall|d: Coord, k: usize|
        in_grid(w, h, d) && 1 <= k <= c && (colour(g, d) == 0 || colour(g, d) > k)
            implies #[trigger] leads(g, w, h, k, d) by {
        lemma_pos_of_cell(w, h, d);
        assert(colour(g, d) <= c);
        if k < c {
            assert(leads(g, w, h, k, d));
        }
    }
}

/// A grid with all `n` regions finished is split into them.
proof fn lemma_settled_split(g: Seq<Vec<usize>>, w: int, h: int, n: usize)
    requires
        0 <= w,
        0 <= h,
        n > 0,
        (w * h) % (n as int) == 0,
        settled(g, w, h, (w * h) / (n as int), n),
    ensures
        is_split(g, w, h, n as int),
        in_order(g, w, h),
        w * h > 0 ==> colour(g, (0, 0)) == 1,
{
    let ca = (w * h) / (n as int);
    vstd::arithmetic::div_mod::lemma_fundamental_div_mod(w * h, n as int);
    assert(n * ca == (n as int) * ca);
    lemma_region_finite(g, w, h, 0);
    assert(region(g, w, h, 0).len() == 0);
    region(g, w, h, 0).lemma_len0_is_empty();
    assert forall|c: Coord| in_grid(w, h, c) implies 1 <= #[trigger] colour(g, c) <= n by {
        assert(colour(g, c) <= n);
        if colour(g, c) == 0 {
            assert(region(g, w, h, 0).contains(c));
        }
    }
    assert forall|d: Coord, k: usize| in_grid(w, h, d) && 1 <= k < colour(g, d) implies #[trigger] leads(
        g,
        w,
        h,
        k,
        d,
    ) by {
        assert(colour(g, d) <= n);
    }
    if w * h > 0 {
        let o = (0int, 0int);
        assert(in_grid(w, h, o)) by (nonlinear_arith)
            requires
                0 <= w,
                0 <= h,
                w * h > 0,
                o == (0int, 0int),
        ;
        assert(1 <= colour(g, o) <= n);
        if colour(g, o) > 1 {
            assert(leads(g, w, h, 1, o));
            let a = choose|a: Coord|
                in_grid(w, h, a) && #[trigger] colour(g, a) == 1 && pos_of(w, a) < pos_of(w, o);
            lemma_pos_of_cell(w, h, a);
            assert(pos_of(w, o) == 0) by (nonlinear_arith)
                requires
                    o == (0int, 0int),
            ;
        }
    }
}

/// Painting a cell of the fringe in the colour of the growing region, with the
/// blank cells beside it joining the fringe, keeps the region growing soundly.
proof fn lemma_paint(
    g: Seq<Vec<usize>>,
    g2: Seq<Vec<usize>>,
    w: int,
    h: int,
    ca: int,
    c: usize,
    area: int,
    fringe: Set<usize>,
    fringe2: Set<usize>,
    p: usize,
)
    requires
        0 <= w,
        0 <= h,
        w * h <= usize::MAX,
        growing(g, w, h, ca, c, area, fringe),
        fringe.contains(p),
        painted(g, g2, w, h, c, p),
        fringe_after(g, w, h, fringe, fringe2, p),
    ensures
        growing(g2, w, h, ca, c, area + 1, fringe2),
{
    let cell = cell_at(w, p as int);
    let old_c = region(g, w, h, c);
    let new_c = region(g2, w, h, c);
    lemma_cell_at_pos(w, h, p as int);
    lemma_region_finite(g, w, h, c);
    lemma_region_finite(g, w, h, 0);
    assert(new_c =~= old_c.insert(cell));
    assert(region(g2, w, h, 0) =~= region(g, w, h, 0).remove(cell));
    assert(region(g, w, h, 0).contains(cell));
    assert(!old_c.contains(cell));
    if area == 0 {
        old_c.lemma_len0_is_empty();
    }
    lemma_grow_connected(old_c, cell);
    assert forall|k: usize| 1 <= k < c implies connected(#[trigger] region(g2, w, h, k))
        && region(g2, w, h, k).len() == ca by {
        assert(region(g2, w, h, k) =~= region(g, w, h, k));
    }
    assert forall|d: Coord| in_grid(w, h, d) implies #[trigger] colour(g2, d) <= c by {
        if d != cell {
            assert(colour(g2, d) == colour(g, d));
            assert(colour(g, d) <= c);
        }
    }
    assert forall|q: usize| #[trigger] fringe2.contains(q) implies q < w * h && colour(
        g2,
        cell_at(w, q as int),
    ) == 0 && touches(new_c, cell_at(w, q as int)) by {
        let d = cell_at(w, q as int);
        if fringe.contains(q) {
            lemma_cell_at_pos(w, h, q as int);
            assert(d != cell);
            assert(colour(g2, d) == colour(g, d));
            assert(area != 0);
            assert(touches(old_c, d));
        } else {
            assert(blank_beside(g, w, h, cell, q));
            lemma_cell_at_pos(w, h, q as int);
            assert(d != cell);
            assert(colour(g2, d) == colour(g, d));
            lemma_neighbour_touches(new_c, cell, d);
        }
    }
    assert forall|d: Coord|
        in_grid(w, h, d) && colour(g2, d) == 0 && #[trigger] touches(
            new_c,
            d,
        ) implies fringe2.contains(pos_of(w, d) as usize) by {
        lemma_pos_of_cell(w, h, d);
        let q = pos_of(w, d) as usize;
        assert(d != cell);
        assert(colour(g2, d) == colour(g, d));
        assert(q != p);
        if touches(old_c, d) {
            assert(area > 0) by {
                if area == 0 {
                    assert(old_c =~= Set::<Coord>::empty());
                }
            }
            assert(fringe.contains(q));
        } else {
            assert(adjacent(cell, d));
            assert(blank_beside(g, w, h, cell, q));
        }
    }
    assert forall|d: Coord, k: usize|
        in_grid(w, h, d) && 1 <= k <= c - 1 && (colour(g2, d) == 0 || colour(g2, d) > k)
            implies #[trigger] leads(g2, w, h, k, d) by {
        assert(leads(g, w, h, k, d));
        let a = choose|a: Coord|
            in_grid(w, h, a) && #[trigger] colour(g, a) == k && pos_of(w, a) < pos_of(w, d);
        assert(colour(g2, a) == k);
    }
    assert forall|d: Coord| in_grid(w, h, d) && #[trigger] colour(g2, d) == 0 implies leads(
        g2,
        w,
        h,
        c,
        d,
    ) by {
        assert(d != cell);
        assert(colour(g2, d) == colour(g, d));
        if area > 0 {
            assert(leads(g, w, h, c, d));
            let a = choose|a: Coord|
                in_grid(w, h, a) && #[trigger] colour(g, a) == c && pos_of(w, a) < pos_of(w, d);
            assert(colour(g2, a) == c);
        } else {
            lemma_pos_of_cell(w, h, d);
            assert(p <= pos_of(w, d));
            assert(colour(g2, cell) == c);
        }
    }
}

/// While region `c` is short of its area, its fringe is not empty, where the
/// region is still empty or is the only region of the grid.
proof fn lemma_fringe_not_empty(
    g: Seq<Vec<usize>>,
    w: int,
    h: int,
    ca: int,
    n: usize,
    c: usize,
    area: int,
    fringe: Set<usize>,
)
    requires
        0 <= w,
        0 <= h,
        w * h <= usize::MAX,
        n > 0,
        c <= n,
        n * ca == w * h,
        0 <= area < ca,
        growing(g, w, h, ca, c, area, fringe),
        area == 0 || n == 1,
    ensures
        exists|p: usize| fringe.contains(p),
{
    if area == 0 {
        assert((c - 1) * ca <= (n - 1) * ca) by (nonlinear_arith)
            requires
                c <= n,
                0 <= ca,
        ;
        assert((n - 1) * ca == n * ca - ca) by (nonlinear_arith);
    } else {
        let s = grid(w, h);
        let t = region(g, w, h, c);
        lemma_grid(w, h);
        lemma_region_finite(g, w, h, c);
        assert(ca == w * h) by (nonlinear_arith)
            requires
                n == 1,
                n * ca == w * h,
        ;
        let a = t.choose();
        assert(t.contains(a));
        lemma_len_subset(t, s);
        let rest = s.difference(t);
        assert(rest.len() > 0) by {
            lemma_set_difference_len(s, t);
            assert(s.intersect(t) =~= t);
        }
        let b = rest.choose();
        assert(rest.contains(b));
        let d = lemma_part_can_grow(s, t, a, b);
        assert(colour(g, d) <= c);
        lemma_pos_of_cell(w, h, d);
        assert(fringe.contains(pos_of(w, d) as usize));
    }
}

/// The position of the first blank cell, in row-major order.
fn first_blank(res: &Vec<Vec<usize>>, w: usize, h: usize) -> (r: Option<usize>)
    requires
        is_grid(res@, w as int, h as int),
        w * h <= usize::MAX,
    ensures
        match r {
            Some(p) => {
                &&& p < w * h
                &&& colour(res@, cell_at(w as int, p as int)) == 0
                &&& forall|d: Coord|
                    in_grid(w as int, h as int, d) && pos_of(w as int, d) < p
                        ==> #[trigger] colour(res@, d) != 0
            },
            None => forall|d: Coord|
                in_grid(w as int, h as int, d) ==> #[trigger] colour(res@, d) != 0,
        },
{
    let mut y: usize = 0;
    while y < h
        invariant
            is_grid(res@, w as int, h as int),
            w * h <= usize::MAX,
            y <= h,
            forall|d: Coord|
                in_grid(w as int, h as int, d) && d.1 < y ==> #[trigger] colour(res@, d) != 0,
        decreases h - y,
    {
        let mut x: usize = 0;
        while x < w
            invariant
                is_grid(res@, w as int, h as int),
                w * h <= usize::MAX,
                y < h,
                x <= w,
                forall|d: Coord|
                    in_grid(w as int, h as int, d) && (d.1 < y || (d.1 == y && d.0 < x))
                        ==> #[trigger] colour(res@, d) != 0,
            decreases w - x,
        {
            proof {
                lemma_pos_of_cell(w as int, h as int, (x as int, y as int));
            }
            if res[y][x] == 0 {
                proof {
                    assert forall|d: Coord|
                        in_grid(w as int, h as int, d) && pos_of(w as int, d) < y * w
                            + x implies #[trigger] colour(res@, d) != 0 by {
                        assert(d.1 <= y) by (nonlinear_arith)
                            requires
                                d.1 * w + d.0 < y * w + x,
                                0 <= d.0,
                                x < w,
                        ;
                    }
                }
                return Some(y * w + x);
            }
            x += 1;
        }
        y += 1;
    }
    None
}

/// Some item of the set, whichever the set hands out first.
fn pick(set: &HashSet<usize>) -> (r: Option<usize>)
    ensures
        match r {
            Some(k) => set@.contains(k),
            None => forall|k: usize| !set@.contains(k),
        },
{
    let mut picked: Option<usize> = None;
    for k in it: set.iter()
        invariant_except_break
            picked is None,
            it.index() == 0,
        ensures
            picked is None ==> set@.len() == 0 && set@.finite(),
            picked matches Some(j) ==> set@.contains(j),
    {
        assert(it.seq().unref().to_set().contains(*k)) by {
            assert(it.seq().unref()[0] == *k);
        }
        picked = Some(*k);
        break ;
    }
    proof {
        if picked is None {
            set@.lemma_len0_is_empty();
        }
    }
    picked
}

/// Splits a grid of `w` by `h` cells into `n` connected regions of equal area,
/// numbered from 1 in the order of their first cells. Each region starts at the
/// first blank cell and grows, one call of `grow` at a time, by a cell of its
/// fringe, whichever the hash set hands out. There is no result where the fringe
/// is empty while the region is short of its area: the region is walled in.
pub fn random_grid(w: usize, h: usize, n: usize) -> (r: Option<Vec<Vec<usize>>>)
    requires
        n > 0,
        w * h <= usize::MAX,
        (w * h) % (n as int) == 0,
    ensures
        r matches Some(g) ==> {
            &&& is_split(g@, w as int, h as int, n as int)
            &&& in_order(g@, w as int, h as int)
            &&& w * h > 0 ==> colour(g@, (0, 0)) == 1
        },
        n == 1 || (w * h) / (n as int) <= 1 ==> r is Some,
{
    let cluster_area = w * h / n;
    let ghost ca = cluster_area as int;
    let mut res: Vec<Vec<usize>> = vec![vec![0usize; w]; h];
    proof {
        lemma_blank_settled(res@, w as int, h as int, ca);
        vstd::arithmetic::div_mod::lemma_fundamental_div_mod((w * h) as int, n as int);
    }
    let mut c: usize = 0;
    while c < n
        invariant
            n > 0,
            c <= n,
            w * h <= usize::MAX,
            ca == cluster_area,
            ca == (w * h) / (n as int),
            n * ca == w * h,
            settled(res@, w as int, h as int, ca, c),
        decreases n - c,
    {
        let mut boundary: HashSet<usize> = HashSet::new();
        match first_blank(&res, w, h) {
            Some(p) => {
                boundary.insert(p);
                assert(boundary@.contains(p));
            },
            None => {
                assert(region(res@, w as int, h as int, 0) =~= Set::<Coord>::empty());
            },
        }
        proof {
            lemma_start_region(res@, w as int, h as int, ca, c, boundary@);
        }
        c += 1;

        let mut area: usize = 0;
        while area < cluster_area
            invariant
                n > 0,
                1 <= c <= n,
                w * h <= usize::MAX,
                ca == cluster_area,
                ca == (w * h) / (n as int),
                n * ca == w * h,
                area <= cluster_area,
                growing(res@, w as int, h as int, ca, c, area as int, boundary@),
            decreases cluster_area - area,
        {
            let p = match pick(&boundary) {
                Some(p) => p,
                None => {
                    proof {
                        if area == 0 || n == 1 {
                            lemma_fringe_not_empty(
                                res@,
                                w as int,
                                h as int,
                                ca,
                                n,
                                c,
                                area as int,
                                boundary@,
                            );
                        }
                    }
                    return None;
                },
            };
            let ghost before = res@;
            let ghost fringe = boundary@;
            grow(&mut res, &mut boundary, w, h, c, p);
            proof {
                lemma_paint(
                    before,
                    res@,
                    w as int,
                    h as int,
                    ca,
                    c,
                    area as int,
                    fringe,
                    boundary@,
                    p,
                );
            }
            area += 1;
        }
        proof {
            assert(ca > 0 || w * h == 0) by (nonlinear_arith)
                requires
                    n * ca == w * h,
                    ca >= 0,
            ;
            lemma_finish_region(res@, w as int, h as int, ca, c, boundary@);
        }
    }
    proof {
        lemma_settled_split(res@, w as int, h as int, n);
    }
    Some(res)
}

/// Paints the cell at position `p` in the colour `c`, takes `p` off the fringe
/// and puts the blank cells beside it on the fringe: one step of a region's growth.
pub fn grow(
    res: &mut Vec<Vec<usize>>,
    boundary: &mut HashSet<usize>,
    w: usize,
    h: usize,
    c: usize,
    p: usize,
)
    requires
        is_grid(old(res)@, w as int, h as int),
        w * h <= usize::MAX,
        p < w * h,
    ensures
        painted(old(res)@, final(res)@, w as int, h as int, c, p),
        fringe_after(old(res)@, w as int, h as int, old(boundary)@, final(boundary)@, p),
{
    let ghost before = res@;
    let ghost fringe = boundary@;
    proof {
        lemma_cell_at_pos(w as int, h as int, p as int);
    }
    let x = p % w;
    let y = p / w;
    if y > 0 && res[y - 1][x] == 0 {
        proof {
            lemma_pos_of_cell(w as int, h as int, (x as int, y - 1));
        }
        boundary.insert((y - 1) * w + x);
    }
    if y + 1 < h && res[y + 1][x] == 0 {
        proof {
            lemma_pos_of_cell(w as int, h as int, (x as int, y + 1));
        }
        boundary.insert((y + 1) * w + x);
    }
    if x > 0 && res[y][x - 1] == 0 {
        proof {
            lemma_pos_of_cell(w as int, h as int, (x - 1, y as int));
        }
        boundary.insert(y * w + (x - 1));
    }
    if x + 1 < w && res[y][x + 1] == 0 {
        proof {
            lemma_pos_of_cell(w as int, h as int, (x + 1, y as int));
        }
        boundary.insert(y * w + (x + 1));
    }
    boundary.remove(&p);
    res[y][x] = c;
    proof {
        let cell = cell_at(w as int, p as int);
        assert(cell == (x as int, y as int));
        assert forall|q: usize| #[trigger]
            boundary@.contains(q) <==> q != p && (fringe.contains(q) || blank_beside(
                before,
                w as int,
                h as int,
                cell,
                q,
            )) by {
            if blank_beside(before, w as int, h as int, cell, q) {
                lemma_cell_at_pos(w as int, h as int, q as int);
            }
        }
    }
}

} // verus!
