//! Lemmas about the total number of mines on a board: how it reacts to a
//! single-cell update, and its value on all-blank and all-mined grids.

use vstd::prelude::*;
use crate::board::{BoardView, Cell, count_mines, count_mines_row};

verus! {

/// Replacing one cell of a row exchanges its mine contribution.
pub proof fn lemma_count_row_update(row: Seq<Cell>, y: int, c: Cell)
    requires
        0 <= y < row.len(),
    ensures
        count_mines_row(row.update(y, c)) + (if row[y].is_mined {
            1nat
        } else {
            0nat
        }) == count_mines_row(row) + (if c.is_mined {
            1nat
        } else {
            0nat
        }),
    decreases row.len(),
{
    let r2 = row.update(y, c);
    if y == row.len() - 1 {
        assert(r2.drop_last() =~= row.drop_last());
    } else {
        assert(r2.drop_last() =~= row.drop_last().update(y, c));
        lemma_count_row_update(row.drop_last(), y, c);
    }
}

/// Replacing one row of a grid exchanges its mine contribution.
pub proof fn lemma_count_update(cells: Seq<Seq<Cell>>, x: int, row: Seq<Cell>)
    requires
        0 <= x < cells.len(),
    ensures
        count_mines(cells.update(x, row)) + count_mines_row(cells[x]) == count_mines(cells)
            + count_mines_row(row),
    decreases cells.len(),
{
    let c2 = cells.update(x, row);
    if x == cells.len() - 1 {
        assert(c2.drop_last() =~= cells.drop_last());
    } else {
        assert(c2.drop_last() =~= cells.drop_last().update(x, row));
        lemma_count_update(cells.drop_last(), x, row);
    }
}

/// Replacing one cell of a board exchanges its mine contribution.
pub proof fn lemma_num_mines_upd(b: BoardView, x: int, y: int, c: Cell)
    requires
        b.dims_ok(),
        b.in_bounds(x, y),
    ensures
        b.upd(x, y, c).num_mines() + (if b.at(x, y).is_mined {
            1nat
        } else {
            0nat
        }) == b.num_mines() + (if c.is_mined {
            1nat
        } else {
            0nat
        }),
{
    lemma_count_row_update(b.cells[x], y, c);
    lemma_count_update(b.cells, x, b.cells[x].update(y, c));
}

/// A row with no mined cell contributes nothing.
pub proof fn lemma_count_row_zero(row: Seq<Cell>)
    requires
        forall|y: int| 0 <= y < row.len() ==> !(#[trigger] row[y]).is_mined,
    ensures
        count_mines_row(row) == 0,
    decreases row.len(),
{
    if row.len() > 0 {
        lemma_count_row_zero(row.drop_last());
    }
}

/// A board with no mined cell has no mines.
pub proof fn lemma_num_mines_zero(b: BoardView)
    requires
        b.dims_ok(),
        forall|x: int, y: int| b.in_bounds(x, y) ==> !(#[trigger] b.at(x, y)).is_mined,
    ensures
        b.num_mines() == 0,
{
    assert forall|x: int, y: int| 0 <= x < b.cells.len() && 0 <= y < b.height implies !(
    #[trigger] b.cells[x][y]).is_mined by {
        assert(!b.at(x, y).is_mined);
    }
    lemma_count_grid_zero(b.cells, b.height);
}

proof fn lemma_count_grid_zero(cells: Seq<Seq<Cell>>, h: int)
    requires
        forall|x: int| 0 <= x < cells.len() ==> (#[trigger] cells[x]).len() == h,
        forall|x: int, y: int| 0 <= x < cells.len() && 0 <= y < h ==> !(#[trigger] cells[x][y]).is_mined,
    ensures
        count_mines(cells) == 0,
    decreases cells.len(),
{
    if cells.len() > 0 {
        lemma_count_grid_zero(cells.drop_last(), h);
        lemma_count_row_zero(cells.last());
    }
}

/// A row mined everywhere except possibly at one index contributes at least
/// its length less one.
proof fn lemma_count_row_full(row: Seq<Cell>, ey: int)
    requires
        forall|y: int| 0 <= y < row.len() && y != ey ==> (#[trigger] row[y]).is_mined,
    ensures
        count_mines_row(row) + 1 >= row.len(),
    decreases row.len(),
{
    if row.len() > 0 {
        if ey == row.len() - 1 {
            lemma_count_row_mined_total(row.drop_last());
        } else {
            lemma_count_row_full(row.drop_last(), ey);
        }
    }
}

/// A board mined everywhere except possibly at one coordinate carries at
/// least one mine fewer than it has cells.
pub proof fn lemma_num_mines_full(b: BoardView, ex: int, ey: int)
    requires
        b.dims_ok(),
        forall|x: int, y: int|
            b.in_bounds(x, y) && !(x == ex && y == ey) ==> (#[trigger] b.at(x, y)).is_mined,
    ensures
        b.num_mines() + 1 >= b.width * b.height,
{
    assert forall|x: int, y: int|
        0 <= x < b.cells.len() && 0 <= y < b.height && !(x == ex && y == ey) implies (
    #[trigger] b.cells[x][y]).is_mined by {
        assert(b.at(x, y).is_mined);
    }
    lemma_count_grid_full(b.cells, b.height, ex, ey);
}

proof fn lemma_count_grid_full(cells: Seq<Seq<Cell>>, h: int, ex: int, ey: int)
    requires
        h >= 0,
        forall|x: int| 0 <= x < cells.len() ==> (#[trigger] cells[x]).len() == h,
        forall|x: int, y: int|
            0 <= x < cells.len() && 0 <= y < h && !(x == ex && y == ey) ==> (#[trigger] cells[x][y]).is_mined,
    ensures
        count_mines(cells) + 1 >= cells.len() * h,
    decreases cells.len(),
{
    let n = cells.len() as int;
    if n > 0 {
        if n - 1 == ex {
            lemma_count_grid_mined_total(cells.drop_last(), h);
            lemma_count_row_full(cells.last(), ey);
        } else {
            lemma_count_grid_full(cells.drop_last(), h, ex, ey);
            lemma_count_row_mined_total(cells.last());
        }
        assert(n * h == (n - 1) * h + h) by (nonlinear_arith);
    }
}

/// A fully mined grid carries exactly one mine per cell.
proof fn lemma_count_grid_mined_total(cells: Seq<Seq<Cell>>, h: int)
    requires
        h >= 0,
        forall|x: int| 0 <= x < cells.len() ==> (#[trigger] cells[x]).len() == h,
        forall|x: int, y: int| 0 <= x < cells.len() && 0 <= y < h ==> (#[trigger] cells[x][y]).is_mined,
    ensures
        count_mines(cells) == cells.len() * h,
    decreases cells.len(),
{
    let n = cells.len() as int;
    if n > 0 {
        lemma_count_grid_mined_total(cells.drop_last(), h);
        lemma_count_row_mined_total(cells.last());
        assert(n * h == (n - 1) * h + h) by (nonlinear_arith);
    }
}

/// A fully mined row contributes its whole length.
proof fn lemma_count_row_mined_total(row: Seq<Cell>)
    requires
        forall|y: int| 0 <= y < row.len() ==> (#[trigger] row[y]).is_mined,
    ensures
        count_mines_row(row) == row.len(),
    decreases row.len(),
{
    if row.len() > 0 {
        lemma_count_row_mined_total(row.drop_last());
    }
}

} // verus!
