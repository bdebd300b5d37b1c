//! A rectangular board whose occupied cells are packed into one word.

use crate::bitfield::{bit_at, bits_of, lemma_bits_injective, lemma_bits_of_zero, Bitfield};
use crate::grid::{
    cell_at, grid, in_grid, lemma_cell_at_pos, lemma_in_grid_finite, lemma_pos_injective,
    lemma_pos_of_cell, pos_of, Coord,
};
use vstd::prelude::*;

verus! {

/// The cells of a `w` by `h` grid whose row-major position is a set bit of `id`.
pub open spec fn cells_of(id: u64, w: int, h: int) -> Set<Coord> {
    Set::new(|c: Coord| in_grid(w, h, c) && bit_at(id, pos_of(w, c)))
}

/// Whether every set bit of `id` lies below `area`.
pub open spec fn fits(id: u64, area: int) -> bool {
    forall|p: int| #[trigger] bit_at(id, p) ==> p < area
}

/// Zero stands for the empty set of cells.
pub proof fn lemma_cells_of_zero(w: int, h: int)
    ensures
        cells_of(0, w, h) == Set::<Coord>::empty(),
        fits(0, w * h),
{
    lemma_bits_of_zero();
    assert forall|p: int| !#[trigger] bit_at(0, p) by {
        assert(bits_of(0).contains(p) == bit_at(0, p));
    }
    assert(cells_of(0, w, h) =~= Set::<Coord>::empty());
}

/// On a grid that both fit, two words that stand for the same cells are the same word.
pub proof fn lemma_cells_injective(w: int, h: int, a: u64, b: u64)
    requires
        0 <= w,
        0 <= h,
        fits(a, w * h),
        fits(b, w * h),
        cells_of(a, w, h) == cells_of(b, w, h),
    ensures
        a == b,
{
    assert forall|p: int| #[trigger] bit_at(a, p) == bit_at(b, p) by {
        if bit_at(a, p) || bit_at(b, p) {
            lemma_cell_at_pos(w, h, p);
            let c = cell_at(w, p);
            assert(cells_of(a, w, h).contains(c) == bit_at(a, p));
            assert(cells_of(b, w, h).contains(c) == bit_at(b, p));
        }
    }
    assert(bits_of(a) =~= bits_of(b));
    lemma_bits_injective(a, b);
}

/// The cells that a word stands for are cells of the grid, so there are finitely
/// many of them, no more than the area.
pub proof fn lemma_cells_finite(w: int, h: int, id: u64)
    requires
        0 <= w,
        0 <= h,
    ensures
        cells_of(id, w, h).subset_of(grid(w, h)),
        cells_of(id, w, h).finite(),
        cells_of(id, w, h).len() <= w * h,
{
    lemma_in_grid_finite(w, h, cells_of(id, w, h));
}

/// A grid of `width` columns and `height` rows, each cell occupied or free.
#[derive(Debug, PartialEq, Eq, Structural)]
pub struct Board {
    data: Bitfield,
    width: i64,
    height: i64,
}

impl View for Board {
    type V = Set<Coord>;

    /// The occupied cells, each as column and row.
    open spec fn view(&self) -> Set<Coord> {
        cells_of(self.spec_board_id(), self.spec_width() as int, self.spec_height() as int)
    }
}

impl Clone for Board {
    fn clone(&self) -> (r: Self)
        ensures
            r == *self,
    {
        Board { data: self.data, width: self.width, height: self.height }
    }
}

impl Board {
    /// The number of columns.
    pub closed spec fn spec_width(&self) -> i64 {
        self.width
    }

    /// The number of rows.
    pub closed spec fn spec_height(&self) -> i64 {
        self.height
    }

    /// The identity of the board: bit `row * width + column` is set exactly when
    /// that cell is occupied.
    pub closed spec fn spec_board_id(&self) -> u64 {
        self.data.value()
    }

    /// The number of cells.
    pub open spec fn spec_area(&self) -> int {
        self.spec_width() * self.spec_height()
    }

    /// The board's dimensions are not negative, its cells fit into one word,
    /// and no bit is set beyond its last cell.
    pub open spec fn wf(&self) -> bool {
        &&& 0 <= self.spec_width()
        &&& 0 <= self.spec_height()
        &&& self.spec_area() <= 64
        &&& fits(self.spec_board_id(), self.spec_area())
    }

    /// Whether `other` has the same number of columns and of rows.
    pub open spec fn same_shape(&self, other: &Board) -> bool {
        self.spec_width() == other.spec_width() && self.spec_height() == other.spec_height()
    }

    /// Two boards of one shape with the same occupied cells have the same identity.
    pub proof fn lemma_identity(a: &Board, b: &Board)
        requires
            a.wf(),
            b.wf(),
            a.same_shape(b),
        ensures
            a@ == b@ <==> a.spec_board_id() == b.spec_board_id(),
    {
        if a@ == b@ {
            lemma_cells_injective(
                a.spec_width() as int,
                a.spec_height() as int,
                a.spec_board_id(),
                b.spec_board_id(),
            );
        }
    }

    /// A board is fixed by its shape and its identity.
    pub proof fn lemma_equal(a: &Board, b: &Board)
        requires
            a.spec_width() == b.spec_width(),
            a.spec_height() == b.spec_height(),
            a.spec_board_id() == b.spec_board_id(),
        ensures
            *a == *b,
    {
        Bitfield::lemma_equal(a.data, b.data);
    }

    /// An empty board of the given shape.
    pub fn new(width: i64, height: i64) -> (r: Self)
        requires
            0 <= width,
            0 <= height,
            width * height <= 64,
        ensures
            r.wf(),
            r.spec_width() == width,
            r.spec_height() == height,
            r@ == Set::<Coord>::empty(),
            r.spec_board_id() == 0,
    {
        proof {
            lemma_cells_of_zero(width as int, height as int);
        }
        Self { data: Bitfield::new(), width, height }
    }

    /// The number of cells.
    pub fn area(&self) -> (r: i64)
        requires
            self.wf(),
        ensures
            r == self.spec_area(),
            0 <= r <= 64,
    {
        assert(0 <= self.width * self.height) by (nonlinear_arith)
            requires
                0 <= self.width,
                0 <= self.height,
        ;
        self.width * self.height
    }

    /// The number of columns.
    #[verifier::when_used_as_spec(spec_width)]
    pub fn width(&self) -> (r: i64)
        ensures
            r == self.spec_width(),
    {
        self.width
    }

    /// The number of rows.
    #[verifier::when_used_as_spec(spec_height)]
    pub fn height(&self) -> (r: i64)
        ensures
            r == self.spec_height(),
    {
        self.height
    }

    /// The identity of the board: two boards of one shape have the same identity
    /// exactly when the same cells are occupied.
    #[verifier::when_used_as_spec(spec_board_id)]
    pub fn board_id(&self) -> (r: u64)
        ensures
            r == self.spec_board_id(),
    {
        self.data.data()
    }

    /// Turns the cell in column `x` of row `y` from free to occupied or from
    /// occupied to free, and leaves every other cell as it was.
    pub fn toggle(&mut self, x: i64, y: i64)
        requires
            old(self).wf(),
            0 <= x < old(self).spec_width(),
            0 <= y < old(self).spec_height(),
        ensures
            final(self).wf(),
            final(self).same_shape(old(self)),
            final(self)@ == if old(self)@.contains((x as int, y as int)) {
                old(self)@.remove((x as int, y as int))
            } else {
                old(self)@.insert((x as int, y as int))
            },
    {
        let ghost w = self.width as int;
        let ghost h = self.height as int;
        let ghost c = (x as int, y as int);
        proof {
            lemma_pos_of_cell(w, h, c);
        }
        self.data.toggle(y * self.width + x);
        proof {
            let now = self.data.value();
            let was = old(self).data.value();
            assert forall|p: int| #[trigger]
                bit_at(now, p) == ((p == pos_of(w, c)) != bit_at(was, p)) by {
                assert(bits_of(now).contains(p) == bit_at(now, p));
                assert(bits_of(was).contains(p) == bit_at(was, p));
            }
            let after = if old(self)@.contains(c) {
                old(self)@.remove(c)
            } else {
                old(self)@.insert(c)
            };
            assert forall|d: Coord| #[trigger] self@.contains(d) == after.contains(d) by {
                if in_grid(w, h, d) && pos_of(w, d) == pos_of(w, c) {
                    lemma_pos_injective(w, h, d, c);
                }
            }
            assert(self@ =~= after);
        }
    }

    /// Turns every occupied cell into a free one and every free cell into an occupied one.
    pub fn toggle_all(&mut self)
        requires
            old(self).wf(),
        ensures
            final(self).wf(),
            final(self).same_shape(old(self)),
            final(self)@ == grid(old(self).spec_width() as int, old(self).spec_height() as int)
                .difference(old(self)@),
    {
        let ghost before = self.data@;
        let ghost w = self.width as int;
        let ghost h = self.height as int;
        let width = self.width;
        let height = self.height;
        for y in 0..height
            invariant
                width == w,
                height == h,
                self.width == w,
                self.height == h,
                0 <= w,
                0 <= h,
                w * h <= 64,
                self.data@ == flipped_below(before, y * w),
        {
            for x in 0..width
                invariant
                    width == w,
                    height == h,
                    self.width == w,
                    self.height == h,
                    0 <= w,
                    0 <= y < h,
                    w * h <= 64,
                    self.data@ == flipped_below(before, y * w + x),
            {
                proof {
                    lemma_pos_of_cell(w, h, (x as int, y as int));
                }
                self.data.toggle(y * width + x);
                assert(self.data@ =~= flipped_below(before, y * w + x + 1));
            }
            assert((y + 1) * w == y * w + w) by (nonlinear_arith);
        }
        proof {
            assert(h * w == w * h) by (nonlinear_arith);
            assert forall|p: int| #[trigger] bit_at(self.data.value(), p) implies p < w * h by {
                assert(self.data@.contains(p));
                assert(before.contains(p) == bit_at(old(self).data.value(), p));
            }
            assert forall|c: Coord| #[trigger]
                self@.contains(c) == grid(w, h).difference(old(self)@).contains(c) by {
                if in_grid(w, h, c) {
                    lemma_pos_of_cell(w, h, c);
                    let p = pos_of(w, c);
                    assert(self.data@.contains(p) == bit_at(self.data.value(), p));
                    assert(before.contains(p) == bit_at(old(self).data.value(), p));
                }
            }
            assert(self@ =~= grid(w, h).difference(old(self)@));
        }
    }

    /// Occupies the cell in column `x` of row `y`.
    pub fn set(&mut self, x: i64, y: i64)
        requires
            old(self).wf(),
            0 <= x < old(self).spec_width(),
            0 <= y < old(self).spec_height(),
        ensures
            final(self).wf(),
            final(self).same_shape(old(self)),
            final(self)@ == old(self)@.insert((x as int, y as int)),
    {
        let ghost w = self.width as int;
        let ghost h = self.height as int;
        let ghost c = (x as int, y as int);
        proof {
            lemma_pos_of_cell(w, h, c);
        }
        self.data.set(y * self.width + x);
        proof {
            let now = self.data.value();
            let was = old(self).data.value();
            assert forall|p: int| #[trigger] bit_at(now, p) == (p == pos_of(w, c) || bit_at(was, p)) by {
                assert(bits_of(now).contains(p) == bit_at(now, p));
                assert(bits_of(was).contains(p) == bit_at(was, p));
            }
            assert forall|d: Coord| #[trigger]
                self@.contains(d) == old(self)@.insert(c).contains(d) by {
                if in_grid(w, h, d) && pos_of(w, d) == pos_of(w, c) {
                    lemma_pos_injective(w, h, d, c);
                }
            }
            assert(self@ =~= old(self)@.insert(c));
        }
    }

    /// Frees the cell in column `x` of row `y`.
    pub fn clear(&mut self, x: i64, y: i64)
        requires
            old(self).wf(),
            0 <= x < old(self).spec_width(),
            0 <= y < old(self).spec_height(),
        ensures
            final(self).wf(),
            final(self).same_shape(old(self)),
            final(self)@ == old(self)@.remove((x as int, y as int)),
    {
        let ghost w = self.width as int;
        let ghost h = self.height as int;
        let ghost c = (x as int, y as int);
        proof {
            lemma_pos_of_cell(w, h, c);
        }
        self.data.clear(y * self.width + x);
        proof {
            let now = self.data.value();
            let was = old(self).data.value();
            assert forall|p: int| #[trigger] bit_at(now, p) == (p != pos_of(w, c) && bit_at(was, p)) by {
                assert(bits_of(now).contains(p) == bit_at(now, p));
                assert(bits_of(was).contains(p) == bit_at(was, p));
            }
            assert forall|d: Coord| #[trigger]
                self@.contains(d) == old(self)@.remove(c).contains(d) by {
                if in_grid(w, h, d) && pos_of(w, d) == pos_of(w, c) {
                    lemma_pos_injective(w, h, d, c);
                }
            }
            assert(self@ =~= old(self)@.remove(c));
        }
    }

    /// Whether the cell in column `x` of row `y` is occupied.
    pub fn get(&self, x: i64, y: i64) -> (r: bool)
        requires
            self.wf(),
            0 <= x < self.spec_width(),
            0 <= y < self.spec_height(),
        ensures
            r == self@.contains((x as int, y as int)),
    {
        proof {
            lemma_pos_of_cell(self.width as int, self.height as int, (x as int, y as int));
            let p = pos_of(self.width as int, (x as int, y as int));
            assert(bits_of(self.data.value()).contains(p) == bit_at(self.data.value(), p));
        }
        self.data.get(y * self.width + x)
    }
}

/// The set that differs from `s` exactly at the positions from 0 up to `n`.
pub open spec fn flipped_below(s: Set<int>, n: int) -> Set<int> {
    Set::new(|p: int| if 0 <= p < n { !s.contains(p) } else { s.contains(p) })
}

} // verus!
