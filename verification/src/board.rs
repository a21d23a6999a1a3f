//! The board: a bounded matrix of boolean cells with the life step, editing
//! primitives (point, line and area writes), cropping and recentering
//! resize. Reads outside the bounds count as dead, so the border behaves as
//! an infinite dead margin, not as a torus.

use crate::gridops::{
    grid_cells, grid_col_count, grid_cols, grid_from_vec, grid_get, grid_remove_col,
    grid_remove_row, grid_row_count, grid_set,
};
use crate::rule::Rule;
use vstd::arithmetic::div_mod::lemma_fundamental_div_mod_converse;
use vstd::prelude::*;

verus! {

/// A pair of grid coordinates.
#[derive(Clone, Copy, Debug, PartialEq, Eq, Structural)]
pub struct VecU2 {
    pub x: usize,
    pub y: usize,
}

impl VecU2 {
    pub fn new(x: usize, y: usize) -> (r: VecU2)
        ensures
            r.x == x,
            r.y == y,
    {
        VecU2 { x, y }
    }

    pub fn as_tuple(&self) -> (r: (usize, usize))
        ensures
            r.0 == self.x,
            r.1 == self.y,
    {
        (self.x, self.y)
    }
}

/// One if the flag is set, zero otherwise.
pub open spec fn b2i(b: bool) -> int {
    if b {
        1
    } else {
        0
    }
}

/// Splits a flat row-major index into grid coordinates.
pub fn i_to_xy(width: usize, i: usize) -> (r: (usize, usize))
    requires
        width > 0,
    ensures
        r.0 == i as int % width as int,
        r.1 == i as int / width as int,
{
    (i % width, i / width)
}

/// The board of cells.
pub struct Board {
    pub tiles: grid::Grid<bool>,
}

impl Board {
    /// The rows of cells.
    pub open spec fn grid_seq(self) -> Seq<Seq<bool>> {
        grid_cells(self.tiles)
    }

    /// Cell count per row.
    pub open spec fn width_spec(self) -> int {
        grid_cols(self.tiles) as int
    }

    /// Row count.
    pub open spec fn height_spec(self) -> int {
        grid_cells(self.tiles).len() as int
    }

    /// The board's shape is consistent: every row is as wide as the board,
    /// an empty board is empty in both directions, and the cell count fits
    /// the machine.
    pub open spec fn wf(self) -> bool {
        &&& forall|y: int|
            0 <= y < self.height_spec() ==> (#[trigger] self.grid_seq()[y]).len()
                == self.width_spec()
        &&& (self.height_spec() == 0 <==> self.width_spec() == 0)
        &&& self.width_spec() * self.height_spec() <= usize::MAX
        &&& self.width_spec() <= usize::MAX
        &&& self.height_spec() <= usize::MAX
    }

    /// The cell at (x, y), dead outside the bounds.
    pub open spec fn cell(self, x: int, y: int) -> bool {
        &&& 0 <= x < self.width_spec()
        &&& 0 <= y < self.height_spec()
        &&& self.grid_seq()[y][x]
    }

    /// Same width, height and cells.
    pub open spec fn congruent(self, other: Board) -> bool {
        &&& self.width_spec() == other.width_spec()
        &&& self.grid_seq() == other.grid_seq()
    }

    /// Creates a board of the given size with every cell dead. A width or
    /// height of zero yields the empty 0 x 0 board.
    pub fn new(width: usize, height: usize) -> (r: Board)
        requires
            width * height <= usize::MAX,
        ensures
            r.wf(),
            r.width_spec() == (if width == 0 || height == 0 {
                0int
            } else {
                width as int
            }),
            r.height_spec() == (if width == 0 || height == 0 {
                0int
            } else {
                height as int
            }),
            forall|x: int, y: int| !r.cell(x, y),
    {
        let n = width * height;
        let mut data: Vec<bool> = Vec::new();
        while data.len() < n
            invariant
                n <= usize::MAX,
                data@.len() <= n,
                forall|i: int| 0 <= i < data@.len() ==> !data@[i],
            decreases n - data@.len(),
        {
            data.push(false);
        }
        proof {
            assert(n as int == width as int * height as int);
            if width > 0 {
                lemma_fundamental_div_mod_converse(n as int, width as int, height as int, 0);
            }
            if width > 0 && height > 0 {
                assert(width as int * height as int > 0) by (nonlinear_arith)
                    requires
                        width as int >= 1,
                        height as int >= 1,
                ;
            }
        }
        let tiles = grid_from_vec(data, width);
        proof {
            lemma_row_major_bounds(width as int, height as int);
        }
        Board { tiles }
    }

    /// Builds a board from a flat row-major cell vector whose length is a
    /// multiple of the width; `None` when the shape does not fit. The
    /// inverse of `cells`.
    #[verifier::rlimit(60)]
    pub fn from_cells(data: Vec<bool>, width: usize) -> (r: Option<Board>)
        ensures
            r is Some <==> ((width == 0 && data@.len() == 0) || (width > 0 && data@.len() as int % (
            width as int) == 0)),
            r matches Some(b) ==> b.wf(),
            r matches Some(b) ==> b.width_spec() == (if data@.len() == 0 {
                0int
            } else {
                width as int
            }),
            r matches Some(b) ==> b.height_spec() == (if width == 0 {
                0int
            } else {
                data@.len() as int / (width as int)
            }),
            r matches Some(b) ==> forall|x: int, y: int|
                0 <= x < b.width_spec() && 0 <= y < b.height_spec() ==> #[trigger] b.grid_seq()[y][x]
                    == data@[y * (width as int) + x],
    {
        if width == 0 {
            if data.len() > 0 {
                return None;
            }
        } else {
            if data.len() % width != 0 {
                return None;
            }
        }
        let ghost len: int = data@.len() as int;
        let tiles = grid_from_vec(data, width);
        proof {
            if width > 0 {
                let w: int = width as int;
                let h: int = len / w;
                vstd::arithmetic::div_mod::lemma_fundamental_div_mod(len, w);
                vstd::arithmetic::div_mod::lemma_div_pos_is_pos(len, w);
                assert(len == w * h);
                assert(len > 0 ==> h > 0) by (nonlinear_arith)
                    requires
                        len == w * h,
                        w >= 1,
                        h >= 0,
                ;
                assert(h <= len) by (nonlinear_arith)
                    requires
                        len == w * h,
                        w >= 1,
                        h >= 0,
                ;
                assert(w * h == h * w) by (nonlinear_arith);
                lemma_row_major_bounds(w, h);
                if len > 0 {
                    assert forall|x: int, y: int|
                        0 <= x < w && 0 <= y < h implies #[trigger] grid_cells(tiles)[y][x]
                        == data@[y * w + x] by {
                        assert(0 <= y * w + x < w * h);
                    }
                }
            }
        }
        let b = Board { tiles };
        proof {
            assert(b.height_spec() == 0 <==> b.width_spec() == 0);
            assert(b.width_spec() * b.height_spec() <= usize::MAX) by {
                if width > 0 && len > 0 {
                    assert(b.width_spec() == width as int);
                    assert(b.height_spec() == len / (width as int));
                    assert(b.width_spec() * b.height_spec() == len);
                } else {
                    assert(b.width_spec() == 0);
                    assert(b.width_spec() * b.height_spec() == 0) by (nonlinear_arith)
                        requires
                            b.width_spec() == 0,
                    ;
                }
            }
            assert(b.wf());
        }
        Some(b)
    }

    /// The flat row-major cell vector of the board. The inverse of
    /// `from_cells`.
    pub fn cells(&self) -> (r: Vec<bool>)
        requires
            self.wf(),
        ensures
            r@.len() == self.width_spec() * self.height_spec(),
            forall|x: int, y: int|
                0 <= x < self.width_spec() && 0 <= y < self.height_spec() ==> r@[y
                    * self.width_spec() + x] == #[trigger] self.grid_seq()[y][x],
    {
        let w = self.width();
        let h = self.height();
        proof {
            lemma_row_major_bounds(w as int, h as int);
        }
        let n = w * h;
        let mut out: Vec<bool> = Vec::new();
        let mut i: usize = 0;
        while i < n
            invariant
                self.wf(),
                w == self.width_spec(),
                h == self.height_spec(),
                n == w * h,
                i <= n,
                n > 0 ==> w > 0,
                out@.len() == i,
                forall|j: int|
                    0 <= j < i ==> #[trigger] out@[j] == self.grid_seq()[j / (w as int)][j % (
                w as int)],
            decreases n - i,
        {
            let (x, y) = i_to_xy(w, i);
            proof {
                vstd::arithmetic::div_mod::lemma_mod_bound(i as int, w as int);
                vstd::arithmetic::div_mod::lemma_div_pos_is_pos(i as int, w as int);
                assert(i as int / (w as int) * (w as int) + i as int % (w as int) == i as int) by {
                    vstd::arithmetic::div_mod::lemma_fundamental_div_mod(i as int, w as int);
                }
                assert(i as int / (w as int) < h as int) by (nonlinear_arith)
                    requires
                        (w as int) > 0,
                        0 <= (i as int) < (w as int) * (h as int),
                        i as int / (w as int) * (w as int) + i as int % (w as int) == i as int,
                        0 <= i as int % (w as int) < w as int,
                ;
            }
            let v = match self.get(x, y) {
                Some(b) => b,
                None => false,
            };
            out.push(v);
            i = i + 1;
        }
        proof {
            assert forall|x: int, y: int|
                0 <= x < self.width_spec() && 0 <= y < self.height_spec() implies out@[y
                * self.width_spec() + x] == #[trigger] self.grid_seq()[y][x] by {
                lemma_fundamental_div_mod_converse(y * (w as int) + x, w as int, y, x);
            }
        }
        out
    }

    /// Cell count per row.
    pub fn width(&self) -> (r: usize)
        ensures
            r == self.width_spec(),
    {
        grid_col_count(&self.tiles)
    }

    /// Row count.
    pub fn height(&self) -> (r: usize)
        ensures
            r == self.height_spec(),
    {
        grid_row_count(&self.tiles)
    }

    /// Width and height as a pair.
    pub fn wh(&self) -> (r: (usize, usize))
        ensures
            r.0 == self.width_spec(),
            r.1 == self.height_spec(),
    {
        (self.width(), self.height())
    }

    /// The cell at (x, y), or `None` outside the bounds.
    pub fn get(&self, x: usize, y: usize) -> (r: Option<bool>)
        ensures
            r == (if x < self.width_spec() && y < self.height_spec() {
                Some(self.grid_seq()[y as int][x as int])
            } else {
                None::<bool>
            }),
    {
        grid_get(&self.tiles, y, x)
    }

    /// The cell at (x, y), dead outside the bounds.
    pub fn get_or_empty(&self, x: isize, y: isize) -> (r: bool)
        ensures
            r == self.cell(x as int, y as int),
    {
        if x < 0 || y < 0 {
            return false;
        }
        match self.get(x as usize, y as usize) {
            Some(b) => b,
            None => false,
        }
    }

    /// Overwrites the cell at (x, y); out of bounds, the board is
    /// untouched.
    pub fn set(&mut self, x: usize, y: usize, value: bool)
        requires
            old(self).wf(),
        ensures
            final(self).wf(),
            final(self).width_spec() == old(self).width_spec(),
            final(self).height_spec() == old(self).height_spec(),
            x < old(self).width_spec() && y < old(self).height_spec() ==> final(self).cell(
                x as int,
                y as int,
            ) == value,
            forall|i: int, j: int|
                !(i == x && j == y) ==> final(self).cell(i, j) == old(self).cell(i, j),
            !(x < old(self).width_spec() && y < old(self).height_spec()) ==> final(self).grid_seq()
                == old(self).grid_seq(),
    {
        let hit = grid_set(&mut self.tiles, y, x, value);
        proof {
            lemma_point_write(*old(self), *self, x as int, y as int, value, hit);
        }
    }

    /// Overwrites the cell at (x, y); `Some(())` exactly when it was in
    /// bounds.
    pub fn try_set(&mut self, x: usize, y: usize, value: bool) -> (r: Option<()>)
        requires
            old(self).wf(),
        ensures
            final(self).wf(),
            final(self).width_spec() == old(self).width_spec(),
            final(self).height_spec() == old(self).height_spec(),
            r is Some <==> x < old(self).width_spec() && y < old(self).height_spec(),
            x < old(self).width_spec() && y < old(self).height_spec() ==> final(self).cell(
                x as int,
                y as int,
            ) == value,
            forall|i: int, j: int|
                !(i == x && j == y) ==> final(self).cell(i, j) == old(self).cell(i, j),
            !(x < old(self).width_spec() && y < old(self).height_spec()) ==> final(self).grid_seq()
                == old(self).grid_seq(),
    {
        let hit = grid_set(&mut self.tiles, y, x, value);
        proof {
            lemma_point_write(*old(self), *self, x as int, y as int, value, hit);
        }
        if hit {
            Some(())
        } else {
            None
        }
    }

    /// Reinitializes every cell to dead, keeping the dimensions.
    pub fn clear(&mut self)
        requires
            old(self).wf(),
        ensures
            final(self).wf(),
            final(self).width_spec() == old(self).width_spec(),
            final(self).height_spec() == old(self).height_spec(),
            forall|x: int, y: int| !final(self).cell(x, y),
    {
        let w = self.width();
        let h = self.height();
        proof {
            assert(w * h <= usize::MAX);
        }
        *self = Board::new(w, h);
    }

    /// One when the cell at (x, y) is alive, zero otherwise.
    fn live(&self, x: usize, y: usize) -> (r: u8)
        ensures
            r as int == b2i(self.cell(x as int, y as int)),
    {
        match self.get(x, y) {
            Some(true) => 1,
            _ => 0,
        }
    }

    /// How many of the eight Moore neighbors of (x, y) are alive; cells
    /// beyond the border count as dead.
    pub open spec fn neighbor_count(self, x: int, y: int) -> int {
        b2i(self.cell(x - 1, y - 1)) + b2i(self.cell(x, y - 1)) + b2i(self.cell(x + 1, y - 1))
            + b2i(self.cell(x - 1, y)) + b2i(self.cell(x + 1, y)) + b2i(self.cell(x - 1, y + 1))
            + b2i(self.cell(x, y + 1)) + b2i(self.cell(x + 1, y + 1))
    }

    /// Counts the live cells among the eight neighbors of (x, y).
    pub fn count_neighbors(&self, x: usize, y: usize) -> (count: u8)
        requires
            self.wf(),
        ensures
            count as int == self.neighbor_count(x as int, y as int),
            count <= 8,
    {
        let mut count: u8 = 0;
        if x > 0 && y > 0 {
            count = count + self.live(x - 1, y - 1);
        }
        if y > 0 {
            count = count + self.live(x, y - 1);
        }
        if x < usize::MAX && y > 0 {
            count = count + self.live(x + 1, y - 1);
        }
        if x > 0 {
            count = count + self.live(x - 1, y);
        }
        if x < usize::MAX {
            count = count + self.live(x + 1, y);
        }
        if x > 0 && y < usize::MAX {
            count = count + self.live(x - 1, y + 1);
        }
        if y < usize::MAX {
            count = count + self.live(x, y + 1);
        }
        if x < usize::MAX && y < usize::MAX {
            count = count + self.live(x + 1, y + 1);
        }
        count
    }

    /// The state the cell at (x, y) takes in the next generation: a live
    /// cell stays alive exactly when the rule keeps its neighbor count, a
    /// dead cell comes alive exactly when the rule breeds on it.
    pub open spec fn next_cell_spec(self, rule: Rule, x: int, y: int) -> bool {
        if self.cell(x, y) {
            rule.survives(self.neighbor_count(x, y))
        } else {
            rule.is_born(self.neighbor_count(x, y))
        }
    }

    /// Computes one cell of the next generation without touching the
    /// board.
    pub fn next_state(&self, rule: &Rule, x: usize, y: usize) -> (r: bool)
        requires
            self.wf(),
        ensures
            r == self.next_cell_spec(*rule, x as int, y as int),
    {
        let count = self.count_neighbors(x, y);
        let cell = match self.get(x, y) {
            Some(b) => b,
            None => false,
        };
        (!cell && rule.born(count)) || (cell && rule.survive(count))
    }

    /// Advances the board one generation under the rule. Every output cell
    /// is a function of the prior generation alone, so the result is the
    /// same whatever order the cells are computed in.
    pub fn advance(&mut self, rule: &Rule)
        requires
            old(self).wf(),
        ensures
            final(self).wf(),
            final(self).width_spec() == old(self).width_spec(),
            final(self).height_spec() == old(self).height_spec(),
            forall|x: int, y: int|
                0 <= x < old(self).width_spec() && 0 <= y < old(self).height_spec()
                    ==> #[trigger] final(self).grid_seq()[y][x] == old(self).next_cell_spec(
                    *rule,
                    x,
                    y,
                ),
    {
        let width = self.width();
        let height = self.height();
        proof {
            lemma_row_major_bounds(width as int, height as int);
        }
        let n = width * height;
        let mut next: Vec<bool> = Vec::new();
        let mut i: usize = 0;
        while i < n
            invariant
                self.wf(),
                *self == *old(self),
                width == self.width_spec(),
                height == self.height_spec(),
                n == width * height,
                width > 0 ==> n == width * height,
                i <= n,
                n > 0 ==> width > 0,
                next@.len() == i,
                forall|j: int|
                    0 <= j < i ==> #[trigger] next@[j] == self.next_cell_spec(
                        *rule,
                        j % (width as int),
                        j / (width as int),
                    ),
            decreases n - i,
        {
            let (x, y) = i_to_xy(width, i);
            proof {
                vstd::arithmetic::div_mod::lemma_mod_bound(i as int, width as int);
                vstd::arithmetic::div_mod::lemma_div_pos_is_pos(i as int, width as int);
                assert(i as int / (width as int) * (width as int) + i as int % (width as int)
                    == i as int) by {
                    vstd::arithmetic::div_mod::lemma_fundamental_div_mod(i as int, width as int);
                }
                assert(i as int / (width as int) < height as int) by (nonlinear_arith)
                    requires
                        (width as int) > 0,
                        0 <= (i as int) < (width as int) * (height as int),
                        i as int / (width as int) * (width as int) + i as int % (width as int)
                            == i as int,
                        0 <= i as int % (width as int) < width as int,
                ;
            }
            let v = self.next_state(rule, x, y);
            next.push(v);
            i = i + 1;
        }
        proof {
            if width > 0 {
                lemma_fundamental_div_mod_converse(n as int, width as int, height as int, 0);
            }
        }
        let tiles = grid_from_vec(next, width);
        self.tiles = tiles;
        proof {
            assert forall|x: int, y: int|
                0 <= x < old(self).width_spec() && 0 <= y
                    < old(self).height_spec() implies #[trigger] final(self).grid_seq()[y][x] == old(
                self,
            ).next_cell_spec(*rule, x, y) by {
                let w = width as int;
                lemma_fundamental_div_mod_converse(y * w + x, w, y, x);
                assert(final(self).grid_seq()[y][x] == next@[y * w + x]);
            }
        }
    }

    /// Resizes the board to `w` x `h`, all dead, then copies every old
    /// cell shifted so that the old center lands on the new center; cells
    /// that fall outside the new bounds are dropped.
    pub fn set_wh(&mut self, w: usize, h: usize)
        requires
            old(self).wf(),
            w * h <= usize::MAX,
        ensures
            final(self).wf(),
            final(self).width_spec() == (if w == 0 || h == 0 {
                0int
            } else {
                w as int
            }),
            final(self).height_spec() == (if w == 0 || h == 0 {
                0int
            } else {
                h as int
            }),
            forall|x: int, y: int|
                #[trigger] final(self).cell(x, y) == (0 <= x < final(self).width_spec() && 0 <= y
                    < final(self).height_spec() && old(self).cell(
                    x - center_offset(w as int, old(self).width_spec()),
                    y - center_offset(h as int, old(self).height_spec()),
                )),
    {
        let ow = self.width();
        let oh = self.height();
        proof {
            lemma_row_major_bounds(w as int, h as int);
        }
        let n = w * h;
        let mut next: Vec<bool> = Vec::new();
        let mut i: usize = 0;
        while i < n
            invariant
                self.wf(),
                *self == *old(self),
                ow == self.width_spec(),
                oh == self.height_spec(),
                n == w * h,
                i <= n,
                n > 0 ==> w > 0,
                next@.len() == i,
                forall|j: int|
                    0 <= j < i ==> #[trigger] next@[j] == self.cell(
                        j % (w as int) - center_offset(w as int, ow as int),
                        j / (w as int) - center_offset(h as int, oh as int),
                    ),
            decreases n - i,
        {
            let (x, y) = i_to_xy(w, i);
            proof {
                vstd::arithmetic::div_mod::lemma_mod_bound(i as int, w as int);
                vstd::arithmetic::div_mod::lemma_div_pos_is_pos(i as int, w as int);
                assert(i as int / (w as int) * (w as int) + i as int % (w as int) == i as int) by {
                    vstd::arithmetic::div_mod::lemma_fundamental_div_mod(i as int, w as int);
                }
                assert(i as int / (w as int) < h as int) by (nonlinear_arith)
                    requires
                        (w as int) > 0,
                        0 <= (i as int) < (w as int) * (h as int),
                        i as int / (w as int) * (w as int) + i as int % (w as int) == i as int,
                        0 <= i as int % (w as int) < w as int,
                ;
            }
            let v = match (src_coord(x, w, ow), src_coord(y, h, oh)) {
                (Some(sx), Some(sy)) => match self.get(sx, sy) {
                    Some(b) => b,
                    None => false,
                },
                _ => false,
            };
            next.push(v);
            i = i + 1;
        }
        proof {
            if w > 0 {
                assert(n as int == (h as int) * (w as int)) by (nonlinear_arith)
                    requires
                        n as int == (w as int) * (h as int),
                ;
                lemma_fundamental_div_mod_converse(n as int, w as int, h as int, 0);
            }
        }
        let tiles = grid_from_vec(next, w);
        self.tiles = tiles;
        proof {
            let ghost fin = *self;
            assert forall|x: int, y: int| #[trigger] fin.cell(x, y) == (0 <= x
                < fin.width_spec() && 0 <= y < fin.height_spec() && old(self).cell(
                x - center_offset(w as int, ow as int),
                y - center_offset(h as int, oh as int),
            )) by {
                if 0 <= x < fin.width_spec() && 0 <= y < fin.height_spec() {
                    lemma_fundamental_div_mod_converse(y * (w as int) + x, w as int, y, x);
                    assert(fin.grid_seq()[y][x] == next@[y * (w as int) + x]);
                }
            }
        }
    }

    /// Overwrites the rectangle starting at `pos` with the patch's cells;
    /// patch cells that map outside the board are skipped.
    pub fn set_area(&mut self, pos: VecU2, tiles: &grid::Grid<bool>)
        requires
            old(self).wf(),
            pos.x + grid_cols(*tiles) <= usize::MAX,
            pos.y + grid_cells(*tiles).len() <= usize::MAX,
        ensures
            final(self).wf(),
            final(self).width_spec() == old(self).width_spec(),
            final(self).height_spec() == old(self).height_spec(),
            forall|i: int, j: int|
                pos.x <= i < pos.x + grid_cols(*tiles) && pos.y <= j < pos.y + grid_cells(
                    *tiles,
                ).len() ==> #[trigger] final(self).cell(i, j) == (i < old(self).width_spec() && j
                    < old(self).height_spec() && grid_cells(*tiles)[j - pos.y][i - pos.x]),
            forall|i: int, j: int|
                !(pos.x <= i < pos.x + grid_cols(*tiles) && pos.y <= j < pos.y + grid_cells(
                    *tiles,
                ).len()) ==> #[trigger] final(self).cell(i, j) == old(self).cell(i, j),
    {
        let (dx, dy) = pos.as_tuple();
        let pw = grid_col_count(tiles);
        let ph = grid_row_count(tiles);
        let ghost dxi = dx as int;
        let ghost dyi = dy as int;
        let mut x: usize = 0;
        while x < pw
            invariant
                self.wf(),
                self.width_spec() == old(self).width_spec(),
                self.height_spec() == old(self).height_spec(),
                dx == pos.x,
                dy == pos.y,
                pw == grid_cols(*tiles),
                ph == grid_cells(*tiles).len(),
                dxi == dx as int,
                dyi == dy as int,
                dx + pw <= usize::MAX,
                dy + ph <= usize::MAX,
                x <= pw,
                forall|i: int, j: int|
                    area_written(dxi, dyi, pw as int, ph as int, x as int, 0, i, j)
                        ==> #[trigger] self.cell(i, j) == (i < old(self).width_spec() && j < old(
                        self,
                    ).height_spec() && grid_cells(*tiles)[j - dyi][i - dxi]),
                forall|i: int, j: int|
                    !area_written(dxi, dyi, pw as int, ph as int, x as int, 0, i, j)
                        ==> #[trigger] self.cell(i, j) == old(self).cell(i, j),
            decreases pw - x,
        {
            let mut y: usize = 0;
            while y < ph
                invariant
                    self.wf(),
                    self.width_spec() == old(self).width_spec(),
                    self.height_spec() == old(self).height_spec(),
                    dx == pos.x,
                    dy == pos.y,
                    pw == grid_cols(*tiles),
                    ph == grid_cells(*tiles).len(),
                    dxi == dx as int,
                    dyi == dy as int,
                    dx + pw <= usize::MAX,
                    dy + ph <= usize::MAX,
                    x < pw,
                    y <= ph,
                    forall|i: int, j: int|
                        area_written(dxi, dyi, pw as int, ph as int, x as int, y as int, i, j)
                            ==> #[trigger] self.cell(i, j) == (i < old(self).width_spec() && j
                            < old(self).height_spec() && grid_cells(*tiles)[j - dyi][i - dxi]),
                    forall|i: int, j: int|
                        !area_written(dxi, dyi, pw as int, ph as int, x as int, y as int, i, j)
                            ==> #[trigger] self.cell(i, j) == old(self).cell(i, j),
                decreases ph - y,
            {
                let v = match grid_get(tiles, y, x) {
                    Some(b) => b,
                    None => false,
                };
                let ghost mid = *self;
                self.set(x + dx, y + dy, v);
                proof {
                    assert forall|i: int, j: int|
                        area_written(
                            dxi,
                            dyi,
                            pw as int,
                            ph as int,
                            x as int,
                            y + 1,
                            i,
                            j,
                        ) implies #[trigger] self.cell(i, j) == (i < old(self).width_spec() && j
                        < old(self).height_spec() && grid_cells(*tiles)[j - dyi][i - dxi]) by {
                        if i == dxi + x && j == dyi + y {
                        } else {
                            assert(area_written(
                                dxi,
                                dyi,
                                pw as int,
                                ph as int,
                                x as int,
                                y as int,
                                i,
                                j,
                            ));
                            assert(self.cell(i, j) == mid.cell(i, j));
                        }
                    }
                    assert forall|i: int, j: int|
                        !area_written(
                            dxi,
                            dyi,
                            pw as int,
                            ph as int,
                            x as int,
                            y + 1,
                            i,
                            j,
                        ) implies #[trigger] self.cell(i, j) == old(self).cell(i, j) by {
                        assert(!(i == dxi + x && j == dyi + y));
                        assert(self.cell(i, j) == mid.cell(i, j));
                    }
                }
                y = y + 1;
            }
            proof {
                assert forall|i: int, j: int|
                    area_written(dxi, dyi, pw as int, ph as int, x + 1, 0, i, j) implies area_written(
                    dxi,
                    dyi,
                    pw as int,
                    ph as int,
                    x as int,
                    ph as int,
                    i,
                    j,
                ) by {}
                assert forall|i: int, j: int|
                    !area_written(dxi, dyi, pw as int, ph as int, x + 1, 0, i, j) implies !area_written(
                    dxi,
                    dyi,
                    pw as int,
                    ph as int,
                    x as int,
                    ph as int,
                    i,
                    j,
                ) by {}
            }
            x = x + 1;
        }
    }

    /// Some cell of row `y` is alive.
    pub open spec fn row_live(self, y: int) -> bool {
        exists|x: int| 0 <= x < self.width_spec() && self.grid_seq()[y][x]
    }

    /// Some cell of column `x` is alive.
    pub open spec fn col_live(self, x: int) -> bool {
        exists|y: int| 0 <= y < self.height_spec() && self.grid_seq()[y][x]
    }

    /// No border row or column is entirely dead: the board is empty, or
    /// all four borders hold a live cell.
    pub open spec fn is_cropped(self) -> bool {
        ||| (self.width_spec() == 0 && self.height_spec() == 0)
        ||| (self.width_spec() > 0 && self.height_spec() > 0 && self.col_live(0) && self.col_live(
            self.width_spec() - 1,
        ) && self.row_live(0) && self.row_live(self.height_spec() - 1))
    }

    /// This board is the rectangle of `orig` starting at (ox, oy), and
    /// every cell of `orig` outside that rectangle is dead. (Coordinates
    /// beyond either board read as dead, so one pointwise equation says
    /// both.)
    pub open spec fn is_window(self, orig: Board, ox: int, oy: int) -> bool {
        &&& 0 <= ox
        &&& 0 <= oy
        &&& ox + self.width_spec() <= orig.width_spec()
        &&& oy + self.height_spec() <= orig.height_spec()
        &&& forall|x: int, y: int| #[trigger] self.cell(x, y) == orig.cell(x + ox, y + oy)
    }

    /// Is every cell of column `x` dead?
    fn col_dead(&self, x: usize) -> (r: bool)
        requires
            self.wf(),
            x < self.width_spec(),
        ensures
            r == !self.col_live(x as int),
    {
        let h = self.height();
        let mut y: usize = 0;
        while y < h
            invariant
                self.wf(),
                x < self.width_spec(),
                h == self.height_spec(),
                y <= h,
                forall|j: int| 0 <= j < y ==> !self.grid_seq()[j][x as int],
            decreases h - y,
        {
            match self.get(x, y) {
                Some(true) => {
                    return false;
                },
                _ => {},
            }
            y = y + 1;
        }
        true
    }

    /// Is every cell of row `y` dead?
    fn row_dead(&self, y: usize) -> (r: bool)
        requires
            self.wf(),
            y < self.height_spec(),
        ensures
            r == !self.row_live(y as int),
    {
        let w = self.width();
        let mut x: usize = 0;
        while x < w
            invariant
                self.wf(),
                y < self.height_spec(),
                w == self.width_spec(),
                x <= w,
                forall|i: int| 0 <= i < x ==> !self.grid_seq()[y as int][i],
            decreases w - x,
        {
            match self.get(x, y) {
                Some(true) => {
                    return false;
                },
                _ => {},
            }
            x = x + 1;
        }
        true
    }

    /// Strips every entirely dead border row and column from all four
    /// sides, until each border holds a live cell or the board is empty.
    /// Cropping an already cropped board leaves it unchanged, so cropping
    /// twice is cropping once.
    pub fn crop(&mut self)
        requires
            old(self).wf(),
        ensures
            final(self).wf(),
            final(self).is_cropped(),
            exists|ox: int, oy: int| final(self).is_window(*old(self), ox, oy),
            old(self).is_cropped() ==> final(self).congruent(*old(self)),
    {
        let ghost orig = *old(self);
        let ghost mut ox: int = 0;
        let ghost mut oy: int = 0;
        proof {
            assert(self.is_window(orig, 0, 0));
        }
        loop
            invariant
                self.wf(),
                0 <= ox,
                oy == 0,
                self.is_window(orig, ox, oy),
                orig.is_cropped() ==> self.congruent(orig),
            ensures
                self.wf(),
                self.is_window(orig, ox, oy),
                oy == 0,
                self.width_spec() > 0 ==> self.col_live(0),
                orig.is_cropped() ==> self.congruent(orig),
            decreases self.width_spec(),
        {
            let w = self.width();
            if w == 0 {
                break ;
            }
            if !self.col_dead(0) {
                break ;
            }
            let ghost pre = *self;
            proof {
                if orig.is_cropped() {
                    assert(pre.congruent(orig));
                    if orig.width_spec() == 0 {
                        assert(false);
                    } else {
                        let y = choose|y: int|
                            0 <= y < orig.height_spec() && orig.grid_seq()[y][0];
                        assert(pre.grid_seq()[y][0]);
                        assert(pre.col_live(0));
                        assert(false);
                    }
                }
            }
            grid_remove_col(&mut self.tiles, 0);
            proof {
                lemma_trim_left(pre, *self, orig, ox, oy);
                ox = ox + 1;
            }
        }
        loop
            invariant
                self.wf(),
                0 <= ox,
                oy == 0,
                self.is_window(orig, ox, oy),
                self.width_spec() > 0 ==> self.col_live(0),
                orig.is_cropped() ==> self.congruent(orig),
            ensures
                self.wf(),
                self.is_window(orig, ox, oy),
                oy == 0,
                self.width_spec() > 0 ==> self.col_live(0) && self.col_live(
                    self.width_spec() - 1,
                ),
                orig.is_cropped() ==> self.congruent(orig),
            decreases self.width_spec(),
        {
            let w = self.width();
            if w == 0 {
                break ;
            }
            if !self.col_dead(w - 1) {
                break ;
            }
            let ghost pre = *self;
            proof {
                if orig.is_cropped() {
                    assert(pre.congruent(orig));
                    if orig.width_spec() == 0 {
                        assert(false);
                    } else {
                        let y = choose|y: int|
                            0 <= y < orig.height_spec() && orig.grid_seq()[y][orig.width_spec()
                                - 1];
                        assert(pre.grid_seq()[y][pre.width_spec() - 1]);
                        assert(pre.col_live(pre.width_spec() - 1));
                        assert(false);
                    }
                }
            }
            grid_remove_col(&mut self.tiles, w - 1);
            proof {
                lemma_trim_right(pre, *self, orig, ox, oy);
            }
        }
        loop
            invariant
                self.wf(),
                0 <= ox,
                0 <= oy,
                self.is_window(orig, ox, oy),
                self.width_spec() > 0 ==> self.col_live(0) && self.col_live(
                    self.width_spec() - 1,
                ),
                orig.is_cropped() ==> self.congruent(orig),
            ensures
                self.wf(),
                self.is_window(orig, ox, oy),
                self.width_spec() > 0 ==> self.col_live(0) && self.col_live(
                    self.width_spec() - 1,
                ),
                self.height_spec() > 0 ==> self.row_live(0),
                orig.is_cropped() ==> self.congruent(orig),
            decreases self.height_spec(),
        {
            let h = self.height();
            if h == 0 {
                break ;
            }
            if !self.row_dead(0) {
                break ;
            }
            let ghost pre = *self;
            proof {
                if orig.is_cropped() {
                    assert(pre.congruent(orig));
                    if orig.height_spec() == 0 {
                        assert(false);
                    } else {
                        let x = choose|x: int|
                            #![trigger orig.grid_seq()[0][x]]
                            0 <= x < orig.width_spec() && orig.grid_seq()[0][x];
                        assert(pre.grid_seq()[0][x]);
                        assert(pre.row_live(0));
                        assert(false);
                    }
                }
            }
            grid_remove_row(&mut self.tiles, 0);
            proof {
                lemma_trim_top(pre, *self, orig, ox, oy);
                oy = oy + 1;
            }
        }
        loop
            invariant
                self.wf(),
                0 <= ox,
                0 <= oy,
                self.is_window(orig, ox, oy),
                self.width_spec() > 0 ==> self.col_live(0) && self.col_live(
                    self.width_spec() - 1,
                ),
                self.height_spec() > 0 ==> self.row_live(0),
                orig.is_cropped() ==> self.congruent(orig),
            ensures
                self.wf(),
                self.is_window(orig, ox, oy),
                self.is_cropped(),
                orig.is_cropped() ==> self.congruent(orig),
            decreases self.height_spec(),
        {
            let h = self.height();
            if h == 0 {
                break ;
            }
            if !self.row_dead(h - 1) {
                break ;
            }
            let ghost pre = *self;
            proof {
                if orig.is_cropped() {
                    assert(pre.congruent(orig));
                    if orig.height_spec() == 0 {
                        assert(false);
                    } else {
                        let x = choose|x: int|
                            #![trigger orig.grid_seq()[orig.height_spec() - 1][x]]
                            0 <= x < orig.width_spec() && orig.grid_seq()[orig.height_spec()
                                - 1][x];
                        assert(pre.grid_seq()[pre.height_spec() - 1][x]);
                        assert(pre.row_live(pre.height_spec() - 1));
                        assert(false);
                    }
                }
            }
            grid_remove_row(&mut self.tiles, h - 1);
            proof {
                lemma_trim_bottom(pre, *self, orig, ox, oy);
            }
        }
    }

    /// Sets every cell on the discrete line between the two points to
    /// `to`. The written set is exactly the in-bounds part of `line_path`,
    /// the error-accumulator walk between the two points: those cells take
    /// `to`, every other cell keeps its value.
    pub fn draw_line(
        &mut self,
        start_x: usize,
        start_y: usize,
        end_x: usize,
        end_y: usize,
        to: bool,
    )
        requires
            old(self).wf(),
            start_x as int <= isize::MAX as int / 8,
            start_y as int <= isize::MAX as int / 8,
            end_x as int <= isize::MAX as int / 8,
            end_y as int <= isize::MAX as int / 8,
        ensures
            final(self).wf(),
            final(self).width_spec() == old(self).width_spec(),
            final(self).height_spec() == old(self).height_spec(),
            start_x < old(self).width_spec() && start_y < old(self).height_spec()
                ==> final(self).cell(start_x as int, start_y as int) == to,
            end_x < old(self).width_spec() && end_y < old(self).height_spec() ==> final(self).cell(
                end_x as int,
                end_y as int,
            ) == to,
            forall|i: int, j: int|
                #[trigger] final(self).cell(i, j) != old(self).cell(i, j) ==> final(self).cell(i, j)
                    == to && min_c(start_x as int, end_x as int) <= i <= max_c(
                    start_x as int,
                    end_x as int,
                ) && min_c(start_y as int, end_y as int) <= j <= max_c(
                    start_y as int,
                    end_y as int,
                ),
            start_y == end_y ==> forall|i: int|
                min_c(start_x as int, end_x as int) <= i <= max_c(start_x as int, end_x as int)
                    && i < old(self).width_spec() && (start_y as int) < old(self).height_spec()
                    ==> final(self).cell(i, start_y as int) == to,
            start_x == end_x ==> forall|j: int|
                min_c(start_y as int, end_y as int) <= j <= max_c(start_y as int, end_y as int)
                    && j < old(self).height_spec() && (start_x as int) < old(self).width_spec()
                    ==> final(self).cell(start_x as int, j) == to,
            forall|i: int, j: int|
                #[trigger] final(self).cell(i, j) == (if line_path(
                    start_x as int,
                    start_y as int,
                    end_x as int,
                    end_y as int,
                ).contains((i, j)) && 0 <= i < old(self).width_spec() && 0 <= j < old(
                    self,
                ).height_spec() {
                    to
                } else {
                    old(self).cell(i, j)
                }),
    {
        let coords = rasterize_line(start_x, start_y, end_x, end_y);
        let ghost pts = coords@;
        let ghost path = line_path(start_x as int, start_y as int, end_x as int, end_y as int);
        let mut k: usize = 0;
        while k < coords.len()
            invariant
                self.wf(),
                self.width_spec() == old(self).width_spec(),
                self.height_spec() == old(self).height_spec(),
                pts == coords@,
                k <= pts.len(),
                pts.contains((start_x, start_y)),
                pts.contains((end_x, end_y)),
                forall|m: int|
                    0 <= m < pts.len() ==> min_c(start_x as int, end_x as int) <= (
                    #[trigger] pts[m]).0 <= max_c(start_x as int, end_x as int) && min_c(
                        start_y as int,
                        end_y as int,
                    ) <= pts[m].1 <= max_c(start_y as int, end_y as int),
                forall|m: int|
                    0 <= m < k && (#[trigger] pts[m]).0 < self.width_spec() && pts[m].1
                        < self.height_spec() ==> self.cell(pts[m].0 as int, pts[m].1 as int) == to,
                forall|i: int, j: int|
                    #[trigger] self.cell(i, j) != old(self).cell(i, j) ==> self.cell(i, j) == to
                        && min_c(start_x as int, end_x as int) <= i <= max_c(
                        start_x as int,
                        end_x as int,
                    ) && min_c(start_y as int, end_y as int) <= j <= max_c(
                        start_y as int,
                        end_y as int,
                    ),
                path == line_path(start_x as int, start_y as int, end_x as int, end_y as int),
                int_pairs(pts) == path,
                forall|i: int, j: int|
                    #[trigger] self.cell(i, j) != old(self).cell(i, j) ==> path.contains((i, j)),
            decreases pts.len() - k,
        {
            let (cx, cy) = coords[k];
            let ghost mid = *self;
            self.set(cx, cy, to);
            proof {
                assert(pts[k as int] == (cx, cy));
                assert(int_pairs(pts)[k as int] == (cx as int, cy as int));
                assert(path.contains((cx as int, cy as int)));
                assert forall|i: int, j: int|
                    #[trigger] self.cell(i, j) != old(self).cell(i, j) implies path.contains(
                    (i, j),
                ) by {
                    if !(i == cx && j == cy) {
                        assert(self.cell(i, j) == mid.cell(i, j));
                    }
                }
                assert forall|m: int|
                    0 <= m < k + 1 && (#[trigger] pts[m]).0 < self.width_spec() && pts[m].1
                        < self.height_spec() implies self.cell(pts[m].0 as int, pts[m].1 as int)
                    == to by {
                    if pts[m].0 == cx && pts[m].1 == cy {
                    } else {
                        assert(self.cell(pts[m].0 as int, pts[m].1 as int) == mid.cell(
                            pts[m].0 as int,
                            pts[m].1 as int,
                        ));
                    }
                }
            }
            k = k + 1;
        }
        proof {
            let si = choose|m: int| 0 <= m < pts.len() && pts[m] == (start_x, start_y);
            assert(pts[si].0 == start_x && pts[si].1 == start_y);
            let ei = choose|m: int| 0 <= m < pts.len() && pts[m] == (end_x, end_y);
            assert(pts[ei].0 == end_x && pts[ei].1 == end_y);
            if start_y == end_y {
                assert forall|i: int|
                    min_c(start_x as int, end_x as int) <= i <= max_c(start_x as int, end_x as int)
                        && i < old(self).width_spec() && (start_y as int) < old(
                        self,
                    ).height_spec() implies self.cell(i, start_y as int) == to by {
                    assert(pts.contains((i as usize, start_y)));
                    let m = choose|m: int| 0 <= m < pts.len() && pts[m] == (i as usize, start_y);
                    assert(pts[m].0 == i as usize && pts[m].1 == start_y);
                }
            }
            if start_x == end_x {
                assert forall|j: int|
                    min_c(start_y as int, end_y as int) <= j <= max_c(start_y as int, end_y as int)
                        && j < old(self).height_spec() && (start_x as int) < old(
                        self,
                    ).width_spec() implies self.cell(start_x as int, j) == to by {
                    assert(pts.contains((start_x, j as usize)));
                    let m = choose|m: int| 0 <= m < pts.len() && pts[m] == (start_x, j as usize);
                    assert(pts[m].0 == start_x && pts[m].1 == j as usize);
                }
            }
            assert forall|i: int, j: int| #[trigger] self.cell(i, j) == (if path.contains(
                (i, j),
            ) && 0 <= i < old(self).width_spec() && 0 <= j < old(self).height_spec() {
                to
            } else {
                old(self).cell(i, j)
            }) by {
                if path.contains((i, j)) && 0 <= i < old(self).width_spec() && 0 <= j < old(
                    self,
                ).height_spec() {
                    let m = choose|m: int| 0 <= m < path.len() && path[m] == (i, j);
                    assert(int_pairs(pts)[m] == (i, j));
                    assert(pts[m].0 as int == i && pts[m].1 as int == j);
                    assert(pts[m] == (i as usize, j as usize));
                    assert(self.cell(pts[m].0 as int, pts[m].1 as int) == to);
                } else {
                    if self.cell(i, j) != old(self).cell(i, j) {
                        assert(path.contains((i, j)));
                        assert(0 <= i < old(self).width_spec() && 0 <= j < old(
                            self,
                        ).height_spec());
                        assert(false);
                    }
                }
            }
        }
    }

    /// Splits a flat row-major index into this board's coordinates.
    pub fn i_to_xy(&self, i: usize) -> (r: (usize, usize))
        requires
            self.width_spec() > 0,
        ensures
            r.0 == i as int % self.width_spec(),
            r.1 == i as int / self.width_spec(),
    {
        i_to_xy(self.width(), i)
    }
}

/// The line path is 8-connected from the start cell through the whole
/// error-accumulator walk: consecutive cells there are distinct touching
/// neighbors. The endpoint appended after the walk is not covered by this
/// statement: the walk usually ends on it (making the last pair equal),
/// but the walk's own early exits are not proven to land next to it.
pub proof fn lemma_line_path_connected(sx0: int, sy0: int, ex: int, ey: int)
    ensures
        line_path(sx0, sy0, ex, ey).len() >= 2,
        line_path(sx0, sy0, ex, ey)[0] == (sx0, sy0),
        line_path(sx0, sy0, ex, ey).last() == (ex, ey),
        forall|k: int|
            0 <= k < line_path(sx0, sy0, ex, ey).len() - 2 ==> adjacent(
                #[trigger] line_path(sx0, sy0, ex, ey)[k],
                line_path(sx0, sy0, ex, ey)[k + 1],
            ) && line_path(sx0, sy0, ex, ey)[k] != line_path(sx0, sy0, ex, ey)[k + 1],
{
    let dx = vstd::math::abs(ex - sx0) as int;
    let dy = -(vstd::math::abs(ey - sy0) as int);
    let stepx: int = if sx0 < ex {
        1
    } else {
        -1
    };
    let stepy: int = if sy0 < ey {
        1
    } else {
        -1
    };
    let w = line_walk(sx0, sy0, ex, ey, stepx, stepy, dx, dy, dx + dy);
    let p = line_path(sx0, sy0, ex, ey);
    lemma_line_walk_connected(sx0, sy0, ex, ey, stepx, stepy, dx, dy, dx + dy);
    assert(p.len() == w.len() + 2);
    assert(p[0] == (sx0, sy0));
    assert(p.last() == (ex, ey));
    assert forall|k: int|
        0 <= k < p.len() - 2 implies adjacent(#[trigger] p[k], p[k + 1]) && p[k] != p[k + 1] by {
        if k == 0 {
            assert(w.len() > 0);
            assert(p[1] == w[0]);
        } else {
            assert(p[k] == w[k - 1] && p[k + 1] == w[k]);
        }
    }
}

proof fn lemma_line_walk_connected(
    x: int,
    y: int,
    ex: int,
    ey: int,
    sx: int,
    sy: int,
    dx: int,
    dy: int,
    err: int,
)
    requires
        sx == 1 || sx == -1,
        sy == 1 || sy == -1,
        sx == 1 ==> x <= ex,
        sx == -1 ==> x >= ex,
        sy == 1 ==> y <= ey,
        sy == -1 ==> y >= ey,
        dy <= 0 <= dx,
    ensures
        ({
            let w = line_walk(x, y, ex, ey, sx, sy, dx, dy, err);
            &&& (w.len() > 0 ==> adjacent((x, y), w[0]) && (x, y) != w[0])
            &&& forall|k: int|
                0 <= k < w.len() - 1 ==> adjacent(#[trigger] w[k], w[k + 1]) && w[k] != w[k + 1]
        }),
    decreases vstd::math::abs(ex - x) + vstd::math::abs(ey - y),
{
    let w = line_walk(x, y, ex, ey, sx, sy, dx, dy, err);
    if x == ex && y == ey {
    } else if 2 * err >= dy && x == ex {
    } else {
        let x1 = if 2 * err >= dy {
            x + sx
        } else {
            x
        };
        let e1 = if 2 * err >= dy {
            err + dy
        } else {
            err
        };
        if 2 * err <= dx && y == ey {
        } else {
            let y1 = if 2 * err <= dx {
                y + sy
            } else {
                y
            };
            let e2 = if 2 * err <= dx {
                e1 + dx
            } else {
                e1
            };
            let tail = line_walk(x1, y1, ex, ey, sx, sy, dx, dy, e2);
            assert(w == seq![(x1, y1)] + tail);
            lemma_line_walk_connected(x1, y1, ex, ey, sx, sy, dx, dy, e2);
            assert(x1 != x || y1 != y);
            assert(w[0] == (x1, y1));
            assert forall|k: int|
                0 <= k < w.len() - 1 implies adjacent(#[trigger] w[k], w[k + 1]) && w[k] != w[k
                + 1] by {
                if k == 0 {
                    if tail.len() > 0 {
                        assert(w[1] == tail[0]);
                        assert(adjacent((x1, y1), tail[0]) && (x1, y1) != tail[0]);
                    }
                } else {
                    assert(w[k] == tail[k - 1] && w[k + 1] == tail[k]);
                }
            }
        }
    }
}

/// The smaller of two coordinates.
pub open spec fn min_c(a: int, b: int) -> int {
    if a <= b {
        a
    } else {
        b
    }
}

/// The larger of two coordinates.
pub open spec fn max_c(a: int, b: int) -> int {
    if a <= b {
        b
    } else {
        a
    }
}

/// One turn of the error-accumulator walk from (x, y) toward (ex, ey),
/// and everything after it: when twice the error is at least `dy` the walk
/// steps along x, when it is at most `dx` it steps along y, and it ends --
/// without another cell -- when the endpoint, or the endpoint's column or
/// row under the matching error test, is reached. Mirrors the executable
/// loop step for step.
pub open spec fn line_walk(
    x: int,
    y: int,
    ex: int,
    ey: int,
    sx: int,
    sy: int,
    dx: int,
    dy: int,
    err: int,
) -> Seq<(int, int)>
    decreases vstd::math::abs(ex - x) + vstd::math::abs(ey - y),
        when ((sx == 1 || sx == -1) && (sy == 1 || sy == -1) && (sx == 1 ==> x <= ex) && (sx == -1
            ==> x >= ex) && (sy == 1 ==> y <= ey) && (sy == -1 ==> y >= ey) && dy <= 0 <= dx)
{
    if x == ex && y == ey {
        Seq::empty()
    } else if 2 * err >= dy && x == ex {
        Seq::empty()
    } else {
        let x1 = if 2 * err >= dy {
            x + sx
        } else {
            x
        };
        let e1 = if 2 * err >= dy {
            err + dy
        } else {
            err
        };
        if 2 * err <= dx && y == ey {
            Seq::empty()
        } else {
            let y1 = if 2 * err <= dx {
                y + sy
            } else {
                y
            };
            let e2 = if 2 * err <= dx {
                e1 + dx
            } else {
                e1
            };
            seq![(x1, y1)] + line_walk(x1, y1, ex, ey, sx, sy, dx, dy, e2)
        }
    }
}

/// The whole discrete line from (sx0, sy0) to (ex, ey): the start cell,
/// then the error-accumulator walk, then the end cell (appended once more,
/// as the executable code does, whether or not the walk reached it).
pub open spec fn line_path(sx0: int, sy0: int, ex: int, ey: int) -> Seq<(int, int)> {
    let dx = vstd::math::abs(ex - sx0) as int;
    let dy = -(vstd::math::abs(ey - sy0) as int);
    let stepx: int = if sx0 < ex {
        1
    } else {
        -1
    };
    let stepy: int = if sy0 < ey {
        1
    } else {
        -1
    };
    seq![(sx0, sy0)] + line_walk(sx0, sy0, ex, ey, stepx, stepy, dx, dy, dx + dy) + seq![
        (ex, ey),
    ]
}

/// Two cells equal or touching, diagonals included.
pub open spec fn adjacent(a: (int, int), b: (int, int)) -> bool {
    -1 <= a.0 - b.0 <= 1 && -1 <= a.1 - b.1 <= 1
}

/// The coordinate pairs of a cell list as mathematical integers.
pub open spec fn int_pairs(s: Seq<(usize, usize)>) -> Seq<(int, int)> {
    s.map_values(|p: (usize, usize)| (p.0 as int, p.1 as int))
}

/// The cells of the discrete straight segment between the two points,
/// computed with the integer error-accumulator stepping scheme: each turn
/// steps one cell along the axis whose accumulated error calls for it.
/// Both endpoints are in the result, and every cell of it lies in the
/// bounding box of the endpoints.
#[verifier::rlimit(100)]
pub fn rasterize_line(start_x: usize, start_y: usize, end_x: usize, end_y: usize) -> (r: Vec<
    (usize, usize),
>)
    requires
        start_x as int <= isize::MAX as int / 8,
        start_y as int <= isize::MAX as int / 8,
        end_x as int <= isize::MAX as int / 8,
        end_y as int <= isize::MAX as int / 8,
    ensures
        r@.contains((start_x, start_y)),
        r@.contains((end_x, end_y)),
        forall|m: int|
            0 <= m < r@.len() ==> min_c(start_x as int, end_x as int) <= (#[trigger] r@[m]).0
                <= max_c(start_x as int, end_x as int) && min_c(start_y as int, end_y as int)
                <= r@[m].1 <= max_c(start_y as int, end_y as int),
        start_y == end_y ==> forall|cx: usize|
            min_c(start_x as int, end_x as int) <= cx as int <= max_c(start_x as int, end_x as int)
                ==> r@.contains((cx, start_y)),
        start_x == end_x ==> forall|cy: usize|
            min_c(start_y as int, end_y as int) <= cy as int <= max_c(start_y as int, end_y as int)
                ==> r@.contains((start_x, cy)),
        int_pairs(r@) == line_path(start_x as int, start_y as int, end_x as int, end_y as int),
{
    let mut coords: Vec<(usize, usize)> = Vec::new();

    let mut x = start_x as isize;
    let mut y = start_y as isize;

    let dx = if end_x >= start_x {
        (end_x - start_x) as isize
    } else {
        (start_x - end_x) as isize
    };
    let dy = -(if end_y >= start_y {
        (end_y - start_y) as isize
    } else {
        (start_y - end_y) as isize
    });
    let sx: isize = if start_x < end_x {
        1
    } else {
        -1
    };
    let sy: isize = if start_y < end_y {
        1
    } else {
        -1
    };
    let mut err = dx + dy;

    let ghost lox = min_c(start_x as int, end_x as int);
    let ghost hix = max_c(start_x as int, end_x as int);
    let ghost loy = min_c(start_y as int, end_y as int);
    let ghost hiy = max_c(start_y as int, end_y as int);

    let ghost exi: int = end_x as int;
    let ghost eyi: int = end_y as int;
    let ghost sxi: int = sx as int;
    let ghost syi: int = sy as int;
    let ghost dxi: int = dx as int;
    let ghost dyi: int = dy as int;
    let ghost startp: (int, int) = (start_x as int, start_y as int);
    let ghost full = line_walk(startp.0, startp.1, exi, eyi, sxi, syi, dxi, dyi, dxi + dyi);

    coords.push((start_x, start_y));
    proof {
        assert(coords@.contains((start_x, start_y))) by {
            assert(coords@[0] == (start_x, start_y));
        }
        assert(int_pairs(coords@) =~= seq![startp]);
    }
    loop
        invariant
            dx as int == hix - lox,
            dy as int == loy - hiy,
            sx as int == (if start_x < end_x {
                1int
            } else {
                -1int
            }),
            sy as int == (if start_y < end_y {
                1int
            } else {
                -1int
            }),
            lox == min_c(start_x as int, end_x as int),
            hix == max_c(start_x as int, end_x as int),
            loy == min_c(start_y as int, end_y as int),
            hiy == max_c(start_y as int, end_y as int),
            0 <= lox,
            0 <= loy,
            hix <= isize::MAX as int / 8,
            hiy <= isize::MAX as int / 8,
            lox <= x as int <= hix,
            loy <= y as int <= hiy,
            sx as int == 1 ==> x as int <= end_x as int,
            sx as int != 1 ==> x as int >= end_x as int,
            sy as int == 1 ==> y as int <= end_y as int,
            sy as int != 1 ==> y as int >= end_y as int,
            2 * (dy as int) <= err as int <= 2 * (dx as int),
            coords@.contains((start_x, start_y)),
            forall|m: int|
                0 <= m < coords@.len() ==> lox <= (#[trigger] coords@[m]).0 <= hix && loy
                    <= coords@[m].1 <= hiy,
            start_y == end_y ==> y as int == start_y as int && dy as int == 0 && err == dx,
            start_x == end_x ==> x as int == start_x as int && dx as int == 0 && err == dy,
            start_y == end_y ==> forall|cx: usize|
                min_c(start_x as int, x as int) <= cx as int <= max_c(start_x as int, x as int)
                    ==> coords@.contains((cx, start_y)),
            start_x == end_x ==> forall|cy: usize|
                min_c(start_y as int, y as int) <= cy as int <= max_c(start_y as int, y as int)
                    ==> coords@.contains((start_x, cy)),
            exi == end_x as int,
            eyi == end_y as int,
            sxi == sx as int,
            syi == sy as int,
            dxi == dx as int,
            dyi == dy as int,
            startp == (start_x as int, start_y as int),
            full == line_walk(startp.0, startp.1, exi, eyi, sxi, syi, dxi, dyi, dxi + dyi),
            int_pairs(coords@) + line_walk(
                x as int,
                y as int,
                exi,
                eyi,
                sxi,
                syi,
                dxi,
                dyi,
                err as int,
            ) == seq![startp] + full,
        ensures
            coords@.contains((start_x, start_y)),
            forall|m: int|
                0 <= m < coords@.len() ==> lox <= (#[trigger] coords@[m]).0 <= hix && loy
                    <= coords@[m].1 <= hiy,
            start_y == end_y ==> x as int == end_x as int && (forall|cx: usize|
                lox <= cx as int <= hix ==> coords@.contains((cx, start_y))),
            start_x == end_x ==> y as int == end_y as int && (forall|cy: usize|
                loy <= cy as int <= hiy ==> coords@.contains((start_x, cy))),
            int_pairs(coords@) == seq![startp] + full,
        decreases vstd::math::abs(end_x as int - x as int) + vstd::math::abs(
            end_y as int - y as int,
        ),
    {
        let ghost xa: int = x as int;
        let ghost ya: int = y as int;
        let ghost erra: int = err as int;
        let ghost rest = line_walk(xa, ya, exi, eyi, sxi, syi, dxi, dyi, erra);
        if x == end_x as isize && y == end_y as isize {
            proof {
                assert(rest =~= Seq::<(int, int)>::empty());
                assert(int_pairs(coords@) =~= seq![startp] + full);
            }
            break ;
        }
        let e2 = 2 * err;
        if e2 >= dy {
            if x == end_x as isize {
                proof {
                    assert(e2 as int == 2 * erra);
                    assert(rest =~= Seq::<(int, int)>::empty());
                    assert(int_pairs(coords@) =~= seq![startp] + full);
                }
                break ;
            }
            err = err + dy;
            x = x + sx;
        }
        if e2 <= dx {
            if y == end_y as isize {
                proof {
                    assert(e2 as int == 2 * erra);
                    assert(ya == y as int);
                    assert(rest =~= Seq::<(int, int)>::empty());
                    assert(int_pairs(coords@) =~= seq![startp] + full);
                }
                break ;
            }
            err = err + dx;
            y = y + sy;
        }
        let ghost before = coords@;
        coords.push((x as usize, y as usize));
        proof {
            assert(coords@ == before.push((x as usize, y as usize)));
            assert(e2 as int == 2 * erra);
            assert(rest =~= seq![(x as int, y as int)] + line_walk(
                x as int,
                y as int,
                exi,
                eyi,
                sxi,
                syi,
                dxi,
                dyi,
                err as int,
            ));
            lemma_int_pairs_push(before, (x as usize, y as usize));
            assert(int_pairs(coords@) + line_walk(
                x as int,
                y as int,
                exi,
                eyi,
                sxi,
                syi,
                dxi,
                dyi,
                err as int,
            ) =~= seq![startp] + full);
            let w = choose|m: int| 0 <= m < before.len() && before[m] == (start_x, start_y);
            assert(coords@[w] == (start_x, start_y));
            assert(coords@.contains((start_x, start_y)));
            assert(forall|p: (usize, usize)| before.contains(p) ==> coords@.contains(p)) by {
                assert forall|p: (usize, usize)| before.contains(p) implies coords@.contains(
                    p,
                ) by {
                    let m = choose|m: int| 0 <= m < before.len() && before[m] == p;
                    assert(coords@[m] == p);
                }
            }
            if start_y == end_y {
                assert forall|cx: usize|
                    min_c(start_x as int, x as int) <= cx as int <= max_c(
                        start_x as int,
                        x as int,
                    ) implies coords@.contains((cx, start_y)) by {
                    if cx as int == x as int {
                        assert(coords@[before.len() as int] == (cx, start_y));
                    } else {
                        assert(before.contains((cx, start_y)));
                    }
                }
            }
            if start_x == end_x {
                assert forall|cy: usize|
                    min_c(start_y as int, y as int) <= cy as int <= max_c(
                        start_y as int,
                        y as int,
                    ) implies coords@.contains((start_x, cy)) by {
                    if cy as int == y as int {
                        assert(coords@[before.len() as int] == (start_x, cy));
                    } else {
                        assert(before.contains((start_x, cy)));
                    }
                }
            }
        }
    }
    let ghost before = coords@;
    coords.push((end_x, end_y));
    proof {
        assert(coords@ == before.push((end_x, end_y)));
        assert(coords@[before.len() as int] == (end_x, end_y));
        assert(coords@.contains((end_x, end_y)));
        assert forall|p: (usize, usize)| before.contains(p) implies coords@.contains(p) by {
            let m = choose|m: int| 0 <= m < before.len() && before[m] == p;
            assert(coords@[m] == p);
        }
        assert(coords@.contains((start_x, start_y)));
        if start_y == end_y {
            assert forall|cx: usize| lox <= cx as int <= hix implies coords@.contains(
                (cx, start_y),
            ) by {
                assert(before.contains((cx, start_y)));
            }
        }
        if start_x == end_x {
            assert forall|cy: usize| loy <= cy as int <= hiy implies coords@.contains(
                (start_x, cy),
            ) by {
                assert(before.contains((start_x, cy)));
            }
        }
        lemma_int_pairs_push(before, (end_x, end_y));
        assert(vstd::math::abs(exi - startp.0) == dxi);
        assert(vstd::math::abs(eyi - startp.1) == hiy - loy);
        assert(int_pairs(coords@) =~= line_path(startp.0, startp.1, exi, eyi));
    }
    coords
}

proof fn lemma_int_pairs_push(s: Seq<(usize, usize)>, p: (usize, usize))
    ensures
        int_pairs(s.push(p)) =~= int_pairs(s).push((p.0 as int, p.1 as int)),
{
}

/// How far a resize shifts coordinates along one axis: half the growth,
/// truncated toward zero (negative when the axis shrinks).
pub open spec fn center_offset(new_len: int, old_len: int) -> int {
    if new_len >= old_len {
        (new_len - old_len) / 2
    } else {
        -((old_len - new_len) / 2)
    }
}

/// The old coordinate a resized destination coordinate reads from, or
/// `None` when it falls outside the old axis.
fn src_coord(dst: usize, new_len: usize, old_len: usize) -> (r: Option<usize>)
    requires
        dst < new_len,
    ensures
        ({
            let s = dst - center_offset(new_len as int, old_len as int);
            if 0 <= s < old_len {
                r == Some(s as usize)
            } else {
                r is None
            }
        }),
{
    if new_len >= old_len {
        let off = (new_len - old_len) / 2;
        if dst >= off && dst - off < old_len {
            Some(dst - off)
        } else {
            None
        }
    } else {
        let off = (old_len - new_len) / 2;
        if dst < old_len - off {
            Some(dst + off)
        } else {
            None
        }
    }
}

/// The part of the patch rectangle at (dx, dy) of size pw x ph that a
/// column-major sweep has already written when it stands at column cx,
/// row cy.
pub open spec fn area_written(
    dx: int,
    dy: int,
    pw: int,
    ph: int,
    cx: int,
    cy: int,
    i: int,
    j: int,
) -> bool {
    &&& dx <= i < dx + pw
    &&& dy <= j < dy + ph
    &&& (i - dx < cx || (i - dx == cx && j - dy < cy))
}

/// The step is deterministic: `advance` pins every output cell as a
/// function of the prior generation and the rule alone, so any two boards
/// that meet its contract for the same prior board and rule hold the same
/// cells — whatever order the cells were computed in.
pub proof fn lemma_advance_deterministic(pre: Board, a: Board, b: Board, rule: Rule)
    requires
        a.wf(),
        b.wf(),
        a.width_spec() == pre.width_spec(),
        a.height_spec() == pre.height_spec(),
        b.width_spec() == pre.width_spec(),
        b.height_spec() == pre.height_spec(),
        forall|x: int, y: int|
            0 <= x < pre.width_spec() && 0 <= y < pre.height_spec()
                ==> #[trigger] a.grid_seq()[y][x] == pre.next_cell_spec(rule, x, y),
        forall|x: int, y: int|
            0 <= x < pre.width_spec() && 0 <= y < pre.height_spec()
                ==> #[trigger] b.grid_seq()[y][x] == pre.next_cell_spec(rule, x, y),
    ensures
        a.congruent(b),
{
    assert forall|y: int| 0 <= y < a.height_spec() implies #[trigger] a.grid_seq()[y]
        =~= b.grid_seq()[y] by {
        assert(a.grid_seq()[y].len() == a.width_spec());
        assert(b.grid_seq()[y].len() == a.width_spec());
        assert forall|x: int| 0 <= x < a.width_spec() implies #[trigger] a.grid_seq()[y][x]
            == b.grid_seq()[y][x] by {
            assert(a.grid_seq()[y][x] == pre.next_cell_spec(rule, x, y));
            assert(b.grid_seq()[y][x] == pre.next_cell_spec(rule, x, y));
        }
    }
    assert(a.grid_seq() =~~= b.grid_seq());
}

/// A live cell in the corner of an otherwise dead board has no live
/// neighbors, whatever the board's size; one step of a rule that does not
/// keep cells with zero neighbors therefore kills it.
pub proof fn lemma_lone_corner_cell(b: Board, r: Rule)
    requires
        b.wf(),
        b.cell(0, 0),
        forall|x: int, y: int| !(x == 0 && y == 0) ==> !b.cell(x, y),
    ensures
        b.neighbor_count(0, 0) == 0,
        !r.survives(0) ==> !b.next_cell_spec(r, 0, 0),
{
    assert(!b.cell(-1, -1));
    assert(!b.cell(0, -1));
    assert(!b.cell(1, -1));
    assert(!b.cell(-1, 0));
    assert(!b.cell(1, 0));
    assert(!b.cell(-1, 1));
    assert(!b.cell(0, 1));
    assert(!b.cell(1, 1));
}

proof fn lemma_trim_left(pre: Board, post: Board, orig: Board, ox: int, oy: int)
    requires
        pre.wf(),
        0 < pre.width_spec(),
        0 < pre.height_spec(),
        pre.is_window(orig, ox, oy),
        !pre.col_live(0),
        pre.width_spec() == 1 ==> post.grid_seq() =~= Seq::<Seq<bool>>::empty()
            && post.width_spec() == 0,
        pre.width_spec() > 1 ==> post.width_spec() == pre.width_spec() - 1 && post.grid_seq().len()
            == pre.grid_seq().len() && (forall|r: int|
            0 <= r < pre.grid_seq().len() ==> #[trigger] post.grid_seq()[r] =~= pre.grid_seq()[r].remove(
                0,
            )),
    ensures
        post.wf(),
        post.is_window(orig, ox + 1, oy),
        post.width_spec() < pre.width_spec(),
{
    let pw = pre.width_spec();
    let ph = pre.height_spec();
    assert(post.width_spec() * post.height_spec() <= usize::MAX) by (nonlinear_arith)
        requires
            0 <= post.width_spec() <= pw,
            0 <= post.height_spec() <= ph,
            pw * ph <= usize::MAX,
    ;
    assert forall|yy: int| 0 <= yy < post.height_spec() implies (
    #[trigger] post.grid_seq()[yy]).len() == post.width_spec() by {
        assert(pre.width_spec() > 1);
        assert(post.grid_seq()[yy] == pre.grid_seq()[yy].remove(0));
        assert(pre.grid_seq()[yy].len() == pre.width_spec());
    }
    assert forall|x: int, y: int| #[trigger] post.cell(x, y) == orig.cell(x + (ox + 1), y + oy) by {
        if 0 <= x < post.width_spec() && 0 <= y < post.height_spec() {
            assert(post.grid_seq()[y] == pre.grid_seq()[y].remove(0));
            assert(post.grid_seq()[y][x] == pre.grid_seq()[y][x + 1]);
            assert(post.cell(x, y) == pre.cell(x + 1, y));
        } else {
            assert(!post.cell(x, y));
            if x == -1 {
                assert(!pre.cell(0, y)) by {
                    if 0 <= y < pre.height_spec() {
                        assert(!pre.grid_seq()[y][0]) by {
                            assert(!pre.col_live(0));
                        }
                    }
                }
            } else {
                assert(!pre.cell(x + 1, y));
            }
        }
        assert(pre.cell(x + 1, y) == orig.cell(x + 1 + ox, y + oy));
    }
}

proof fn lemma_trim_right(pre: Board, post: Board, orig: Board, ox: int, oy: int)
    requires
        pre.wf(),
        0 < pre.width_spec(),
        0 < pre.height_spec(),
        pre.is_window(orig, ox, oy),
        !pre.col_live(pre.width_spec() - 1),
        pre.width_spec() == 1 ==> post.grid_seq() =~= Seq::<Seq<bool>>::empty()
            && post.width_spec() == 0,
        pre.width_spec() > 1 ==> post.width_spec() == pre.width_spec() - 1 && post.grid_seq().len()
            == pre.grid_seq().len() && (forall|r: int|
            0 <= r < pre.grid_seq().len() ==> #[trigger] post.grid_seq()[r] =~= pre.grid_seq()[r].remove(
                pre.width_spec() - 1,
            )),
    ensures
        post.wf(),
        post.is_window(orig, ox, oy),
        post.width_spec() < pre.width_spec(),
        pre.col_live(0) && post.width_spec() > 0 ==> post.col_live(0),
{
    let pw = pre.width_spec();
    let ph = pre.height_spec();
    assert(post.width_spec() * post.height_spec() <= usize::MAX) by (nonlinear_arith)
        requires
            0 <= post.width_spec() <= pw,
            0 <= post.height_spec() <= ph,
            pw * ph <= usize::MAX,
    ;
    assert forall|yy: int| 0 <= yy < post.height_spec() implies (
    #[trigger] post.grid_seq()[yy]).len() == post.width_spec() by {
        assert(pre.width_spec() > 1);
        assert(post.grid_seq()[yy] == pre.grid_seq()[yy].remove(pre.width_spec() - 1));
        assert(pre.grid_seq()[yy].len() == pre.width_spec());
    }
    assert forall|x: int, y: int| #[trigger] post.cell(x, y) == orig.cell(x + ox, y + oy) by {
        if 0 <= x < post.width_spec() && 0 <= y < post.height_spec() {
            assert(post.grid_seq()[y] == pre.grid_seq()[y].remove(pre.width_spec() - 1));
            assert(post.grid_seq()[y][x] == pre.grid_seq()[y][x]);
            assert(post.cell(x, y) == pre.cell(x, y));
        } else {
            assert(!post.cell(x, y));
            if x == pre.width_spec() - 1 && 0 <= y < pre.height_spec() {
                assert(!pre.grid_seq()[y][x]) by {
                    assert(!pre.col_live(pre.width_spec() - 1));
                }
                assert(!pre.cell(x, y));
            } else {
                assert(!pre.cell(x, y));
            }
        }
        assert(pre.cell(x, y) == orig.cell(x + ox, y + oy));
    }
    if pre.col_live(0) && post.width_spec() > 0 {
        let y = choose|y: int| 0 <= y < pre.height_spec() && pre.grid_seq()[y][0];
        assert(post.grid_seq()[y] == pre.grid_seq()[y].remove(pre.width_spec() - 1));
        assert(post.grid_seq()[y][0] == pre.grid_seq()[y][0]);
        assert(post.col_live(0));
    }
}

proof fn lemma_trim_top(pre: Board, post: Board, orig: Board, ox: int, oy: int)
    requires
        pre.wf(),
        0 < pre.width_spec(),
        0 < pre.height_spec(),
        pre.is_window(orig, ox, oy),
        !pre.row_live(0),
        post.grid_seq() =~= pre.grid_seq().remove(0),
        post.width_spec() == (if pre.grid_seq().len() == 1 {
            0int
        } else {
            pre.width_spec()
        }),
    ensures
        post.wf(),
        post.is_window(orig, ox, oy + 1),
        post.height_spec() < pre.height_spec(),
        forall|c: int|
            0 <= c < pre.width_spec() && pre.col_live(c) ==> post.width_spec()
                == pre.width_spec() && #[trigger] post.col_live(c),
{
    let pw = pre.width_spec();
    let ph = pre.height_spec();
    assert(post.width_spec() * post.height_spec() <= usize::MAX) by (nonlinear_arith)
        requires
            0 <= post.width_spec() <= pw,
            0 <= post.height_spec() <= ph,
            pw * ph <= usize::MAX,
    ;
    assert forall|yy: int| 0 <= yy < post.height_spec() implies (
    #[trigger] post.grid_seq()[yy]).len() == post.width_spec() by {
        assert(pre.grid_seq().len() > 1);
        assert(post.grid_seq()[yy] == pre.grid_seq()[yy + 1]);
        assert((pre.grid_seq()[yy + 1]).len() == pre.width_spec());
    }
    assert forall|x: int, y: int| #[trigger] post.cell(x, y) == orig.cell(x + ox, y + (oy + 1)) by {
        if 0 <= x < post.width_spec() && 0 <= y < post.height_spec() {
            assert(post.grid_seq()[y] == pre.grid_seq()[y + 1]);
            assert(post.cell(x, y) == pre.cell(x, y + 1));
        } else {
            assert(!post.cell(x, y));
            if y == -1 && 0 <= x < pre.width_spec() {
                assert(!pre.grid_seq()[0][x]) by {
                    assert(!pre.row_live(0));
                }
                assert(!pre.cell(x, 0));
            } else {
                assert(!pre.cell(x, y + 1));
            }
        }
        assert(pre.cell(x, y + 1) == orig.cell(x + ox, y + 1 + oy));
    }
    assert forall|c: int|
        0 <= c < pre.width_spec() && pre.col_live(c) implies post.width_spec() == pre.width_spec()
        && #[trigger] post.col_live(c) by {
        let y = choose|y: int| 0 <= y < pre.height_spec() && pre.grid_seq()[y][c];
        assert(y != 0) by {
            assert(!pre.row_live(0));
        }
        assert(pre.grid_seq().len() >= 2);
        assert(post.grid_seq()[y - 1] == pre.grid_seq()[y]);
        assert(post.grid_seq()[y - 1][c]);
        assert(post.col_live(c));
    }
}

proof fn lemma_trim_bottom(pre: Board, post: Board, orig: Board, ox: int, oy: int)
    requires
        pre.wf(),
        0 < pre.width_spec(),
        0 < pre.height_spec(),
        pre.is_window(orig, ox, oy),
        !pre.row_live(pre.height_spec() - 1),
        post.grid_seq() =~= pre.grid_seq().remove(pre.height_spec() - 1),
        post.width_spec() == (if pre.grid_seq().len() == 1 {
            0int
        } else {
            pre.width_spec()
        }),
    ensures
        post.wf(),
        post.is_window(orig, ox, oy),
        post.height_spec() < pre.height_spec(),
        forall|c: int|
            0 <= c < pre.width_spec() && pre.col_live(c) ==> post.width_spec()
                == pre.width_spec() && #[trigger] post.col_live(c),
        pre.row_live(0) ==> post.height_spec() > 0 && post.row_live(0),
{
    let pw = pre.width_spec();
    let ph = pre.height_spec();
    assert(post.width_spec() * post.height_spec() <= usize::MAX) by (nonlinear_arith)
        requires
            0 <= post.width_spec() <= pw,
            0 <= post.height_spec() <= ph,
            pw * ph <= usize::MAX,
    ;
    assert forall|yy: int| 0 <= yy < post.height_spec() implies (
    #[trigger] post.grid_seq()[yy]).len() == post.width_spec() by {
        assert(pre.grid_seq().len() > 1);
        assert(post.grid_seq()[yy] == pre.grid_seq()[yy]);
        assert((pre.grid_seq()[yy]).len() == pre.width_spec());
    }
    assert forall|x: int, y: int| #[trigger] post.cell(x, y) == orig.cell(x + ox, y + oy) by {
        if 0 <= x < post.width_spec() && 0 <= y < post.height_spec() {
            assert(post.grid_seq()[y] == pre.grid_seq()[y]);
            assert(post.cell(x, y) == pre.cell(x, y));
        } else {
            assert(!post.cell(x, y));
            if y == pre.height_spec() - 1 && 0 <= x < pre.width_spec() {
                assert(!pre.grid_seq()[y][x]) by {
                    assert(!pre.row_live(pre.height_spec() - 1));
                }
                assert(!pre.cell(x, y));
            } else {
                assert(!pre.cell(x, y));
            }
        }
        assert(pre.cell(x, y) == orig.cell(x + ox, y + oy));
    }
    assert forall|c: int|
        0 <= c < pre.width_spec() && pre.col_live(c) implies post.width_spec() == pre.width_spec()
        && #[trigger] post.col_live(c) by {
        let y = choose|y: int| 0 <= y < pre.height_spec() && pre.grid_seq()[y][c];
        assert(y != pre.height_spec() - 1) by {
            assert(!pre.row_live(pre.height_spec() - 1));
        }
        assert(pre.grid_seq().len() >= 2);
        assert(post.grid_seq()[y] == pre.grid_seq()[y]);
        assert(post.grid_seq()[y][c]);
        assert(post.col_live(c));
    }
    if pre.row_live(0) {
        let x = choose|x: int|
            #![trigger pre.grid_seq()[0][x]]
            0 <= x < pre.width_spec() && pre.grid_seq()[0][x];
        assert(pre.height_spec() >= 2) by {
            assert(!pre.row_live(pre.height_spec() - 1));
        }
        assert(post.grid_seq()[0] == pre.grid_seq()[0]);
        assert(post.row_live(0));
    }
}

proof fn lemma_point_write(pre: Board, post: Board, x: int, y: int, value: bool, hit: bool)
    requires
        pre.wf(),
        hit == (0 <= y < pre.height_spec() && 0 <= x < pre.width_spec()),
        post.width_spec() == pre.width_spec(),
        hit ==> post.grid_seq() == pre.grid_seq().update(y, pre.grid_seq()[y].update(x, value)),
        !hit ==> post.grid_seq() == pre.grid_seq(),
    ensures
        post.wf(),
        post.height_spec() == pre.height_spec(),
        hit ==> post.cell(x, y) == value,
        forall|i: int, j: int| !(i == x && j == y) ==> post.cell(i, j) == pre.cell(i, j),
{
    if hit {
        assert(post.grid_seq().len() == pre.grid_seq().len());
        assert forall|yy: int| 0 <= yy < post.height_spec() implies (
        #[trigger] post.grid_seq()[yy]).len() == post.width_spec() by {
            if yy == y {
                assert(post.grid_seq()[yy] == pre.grid_seq()[y].update(x, value));
            } else {
                assert(post.grid_seq()[yy] == pre.grid_seq()[yy]);
            }
        }
        assert(post.grid_seq()[y][x] == value);
        assert forall|i: int, j: int| !(i == x && j == y) implies post.cell(i, j) == pre.cell(
            i,
            j,
        ) by {
            if 0 <= j < pre.height_spec() {
                if j == y {
                    assert(post.grid_seq()[j] == pre.grid_seq()[y].update(x, value));
                    if 0 <= i < pre.width_spec() && i != x {
                        assert(post.grid_seq()[j][i] == pre.grid_seq()[j][i]);
                    }
                } else {
                    assert(post.grid_seq()[j] == pre.grid_seq()[j]);
                }
            }
        }
    }
}

proof fn lemma_row_major_bounds(w: int, h: int)
    requires
        0 <= w,
        0 <= h,
    ensures
        forall|y: int| 0 <= y <= h ==> #[trigger] (y * w) <= w * h,
        forall|x: int, y: int| 0 <= x < w && 0 <= y < h ==> 0 <= #[trigger] (y * w + x) < w * h,
{
    assert forall|y: int| 0 <= y <= h implies #[trigger] (y * w) <= w * h by {
        assert(y * w <= h * w) by (nonlinear_arith)
            requires
                0 <= y <= h,
                0 <= w,
        ;
        assert(h * w == w * h) by (nonlinear_arith);
    }
    assert forall|x: int, y: int| 0 <= x < w && 0 <= y < h implies 0 <= #[trigger] (y * w + x) < w
        * h by {
        assert(0 <= y * w + x < w * h) by (nonlinear_arith)
            requires
                0 <= x < w,
                0 <= y < h,
        ;
    }
}

} // verus!
