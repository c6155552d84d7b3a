use vstd::prelude::*;

use crate::field::Field;

verus! {

#[verifier::external_type_specification]
#[verifier::external_body]
#[verifier::reject_recursive_types(T)]
pub struct ExGrid<T>(grid::Grid<T>);

/// The cells of a grid, row by row.
pub uninterp spec fn grid_rows(g: grid::Grid<Field>) -> Seq<Seq<Field>>;

/// Relies on grid::Grid::init: a grid of `rows` rows of `cols` copies of `f`;
/// it panics when `rows * cols` overflows.
#[verifier::external_body]
pub(crate) fn grid_init(rows: usize, cols: usize, f: Field) -> (r: grid::Grid<Field>)
    requires
        rows > 0,
        cols > 0,
        rows * cols <= usize::MAX,
    ensures
        grid_rows(r).len() == rows,
        forall|i: int| 0 <= i < rows ==> (#[trigger] grid_rows(r)[i]).len() == cols,
        forall|i: int, j: int| 0 <= i < rows && 0 <= j < cols ==> #[trigger] grid_rows(r)[i][j] == f,
{
    grid::Grid::init(rows, cols, f)
}

/// Relies on grid::Grid::get: the cell at (`row`, `col`), or nothing out of bounds.
#[verifier::external_body]
pub(crate) fn grid_get(g: &grid::Grid<Field>, row: usize, col: usize) -> (r: Option<Field>)
    ensures
        0 <= row < grid_rows(*g).len() && 0 <= col < grid_rows(*g)[row as int].len() ==> r == Some(
            grid_rows(*g)[row as int][col as int],
        ),
        !(0 <= row < grid_rows(*g).len() && 0 <= col < grid_rows(*g)[row as int].len()) ==> r
            is None,
{
    g.get(row, col).copied()
}

/// Relies on grid::Grid's `IndexMut`: replaces the cell at (`row`, `col`), which
/// must lie inside the grid (it panics otherwise).
#[verifier::external_body]
pub(crate) fn grid_set(g: &mut grid::Grid<Field>, row: usize, col: usize, f: Field)
    requires
        0 <= row < grid_rows(*old(g)).len(),
        0 <= col < grid_rows(*old(g))[row as int].len(),
    ensures
        grid_rows(*final(g)) == grid_rows(*old(g)).update(
            row as int,
            grid_rows(*old(g))[row as int].update(col as int, f),
        ),
{
    g[(row, col)] = f;
}

} // verus!
