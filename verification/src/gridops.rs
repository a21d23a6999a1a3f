//! Trusted bridge to the `grid` crate. The board stores its cells in a
//! `grid::Grid<bool>`; the declarations here name what such a grid holds
//! and give contracts to the handful of its methods the verified code
//! calls.

use vstd::prelude::*;

verus! {

#[verifier::external_type_specification]
#[verifier::external_body]
#[verifier::reject_recursive_types(T)]
pub struct ExGrid<T>(grid::Grid<T>);

/// The cells a boolean grid holds: one sequence per row, top row first.
pub uninterp spec fn grid_cells(g: grid::Grid<bool>) -> Seq<Seq<bool>>;

/// The column count a boolean grid was built with. Kept separately from
/// `grid_cells` because a grid with zero rows still stores it.
pub uninterp spec fn grid_cols(g: grid::Grid<bool>) -> nat;

/// Relies on `grid::Grid::from_vec`: builds a row-major grid from a flat
/// cell vector and a column count; the vector's length must be a multiple
/// of the column count. A grid left with no rows or no columns is always
/// normalized to the 0 x 0 grid.
#[verifier::external_body]
pub(crate) fn grid_from_vec(data: Vec<bool>, cols: usize) -> (g: grid::Grid<bool>)
    requires
        cols == 0 ==> data@.len() == 0,
        cols > 0 ==> data@.len() as int % (cols as int) == 0,
    ensures
        grid_cols(g) == (if data@.len() == 0 || cols == 0 {
            0int
        } else {
            cols as int
        }),
        grid_cells(g).len() == (if cols == 0 {
            0int
        } else {
            data@.len() as int / (cols as int)
        }),
        forall|r: int| 0 <= r < grid_cells(g).len() ==> (#[trigger] grid_cells(g)[r]).len() == cols,
        forall|r: int, c: int|
            0 <= r < grid_cells(g).len() && 0 <= c < cols ==> grid_cells(g)[r][c] == data@[r * (
            cols as int) + c],
{
    grid::Grid::from_vec(data, cols)
}

/// Relies on `grid::Grid::rows`: the number of rows.
#[verifier::external_body]
pub(crate) fn grid_row_count(g: &grid::Grid<bool>) -> (r: usize)
    ensures
        r == grid_cells(*g).len(),
{
    g.rows()
}

/// Relies on `grid::Grid::cols`: the number of columns.
#[verifier::external_body]
pub(crate) fn grid_col_count(g: &grid::Grid<bool>) -> (r: usize)
    ensures
        r == grid_cols(*g),
{
    g.cols()
}

/// Relies on `grid::Grid::get` (plus `Option::cloned`): the cell at the
/// given row and column when both are in bounds, `None` otherwise.
#[verifier::external_body]
pub(crate) fn grid_get(g: &grid::Grid<bool>, row: usize, col: usize) -> (r: Option<bool>)
    ensures
        r == (if row < grid_cells(*g).len() && col < grid_cols(*g) {
            Some(grid_cells(*g)[row as int][col as int])
        } else {
            None::<bool>
        }),
{
    g.get(row, col).cloned()
}

/// Relies on `grid::Grid::get_mut`: overwrites the cell at the given row
/// and column and reports whether it was in bounds; out of bounds, the
/// grid is untouched.
#[verifier::external_body]
pub(crate) fn grid_set(g: &mut grid::Grid<bool>, row: usize, col: usize, v: bool) -> (hit: bool)
    ensures
        hit == (row < grid_cells(*old(g)).len() && col < grid_cols(*old(g))),
        grid_cols(*final(g)) == grid_cols(*old(g)),
        hit ==> grid_cells(*final(g)) == grid_cells(*old(g)).update(
            row as int,
            grid_cells(*old(g))[row as int].update(col as int, v),
        ),
        !hit ==> grid_cells(*final(g)) == grid_cells(*old(g)),
{
    match g.get_mut(row, col) {
        Some(cell) => {
            *cell = v;
            true
        },
        None => false,
    }
}

/// Relies on `grid::Grid::remove_row`: removes the row at an in-bounds
/// index; when the last row goes, the grid becomes the 0 x 0 grid.
#[verifier::external_body]
pub(crate) fn grid_remove_row(g: &mut grid::Grid<bool>, row: usize)
    requires
        row < grid_cells(*old(g)).len(),
        grid_cols(*old(g)) > 0,
    ensures
        grid_cells(*final(g)) =~= grid_cells(*old(g)).remove(row as int),
        grid_cols(*final(g)) == (if grid_cells(*old(g)).len() == 1 {
            0int
        } else {
            grid_cols(*old(g)) as int
        }),
{
    let _ = g.remove_row(row);
}

/// Relies on `grid::Grid::remove_col`: removes the column at an in-bounds
/// index from every row; when the last column goes, the grid becomes the
/// 0 x 0 grid.
#[verifier::external_body]
pub(crate) fn grid_remove_col(g: &mut grid::Grid<bool>, col: usize)
    requires
        grid_cells(*old(g)).len() > 0,
        col < grid_cols(*old(g)),
    ensures
        grid_cols(*old(g)) == 1 ==> grid_cells(*final(g)) =~= Seq::<Seq<bool>>::empty()
            && grid_cols(*final(g)) == 0,
        grid_cols(*old(g)) > 1 ==> grid_cols(*final(g)) == grid_cols(*old(g)) - 1 && grid_cells(
            *final(g),
        ).len() == grid_cells(*old(g)).len() && (forall|r: int|
            0 <= r < grid_cells(*old(g)).len() ==> #[trigger] grid_cells(*final(g))[r]
                =~= grid_cells(*old(g))[r].remove(col as int)),
{
    let _ = g.remove_col(col);
}

} // verus!
