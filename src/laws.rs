//! Facts that hold of every board and every placement, stated over the model.

use crate::board::{lemma_board_shape, placement_step, Board, Placement};
use crate::direction::Direction;
use crate::generator::placement_on_grid;
use crate::grid::{in_grid, letter_at, path_col, path_row, step_fits};
use vstd::prelude::*;

verus! {

/// Every cell that a placement writes lies inside the board: row in `0..rows`,
/// column in `0..cols`.
pub proof fn lemma_placement_in_bounds(before: Board, after: Board, p: Placement, d: Direction)
    requires
        before.wf(),
        placement_step(before, after, p, d),
    ensures
        forall|i: int|
            0 <= i < p.word@.len() ==> 0 <= #[trigger] path_row(p.row as int, d, i)
                < before.num_rows() && 0 <= path_col(p.col as int, d, i) < before.num_cols(),
{
    lemma_board_shape(before);
    assert forall|i: int| 0 <= i < p.word@.len() implies 0 <= #[trigger] path_row(
        p.row as int,
        d,
        i,
    ) < before.num_rows() && 0 <= path_col(p.col as int, d, i) < before.num_cols() by {
        assert(step_fits(before.cells(), p.row as int, p.col as int, d, p.word@, i));
        let r = path_row(p.row as int, d, i);
        assert(before.cells()[r].len() == before.num_cols());
    }
}

/// Where two placed words share a cell, the grid holds the letter that each of
/// them puts there, so the two letters are the same.
pub proof fn lemma_overlap_consistent(
    g: Seq<Seq<char>>,
    p1: Placement,
    d1: Direction,
    p2: Placement,
    d2: Direction,
    i: int,
    j: int,
)
    requires
        placement_on_grid(g, p1, d1),
        placement_on_grid(g, p2, d2),
        0 <= i < p1.word@.len(),
        0 <= j < p2.word@.len(),
        path_row(p1.row as int, d1, i) == path_row(p2.row as int, d2, j),
        path_col(p1.col as int, d1, i) == path_col(p2.col as int, d2, j),
    ensures
        in_grid(g, path_row(p1.row as int, d1, i), path_col(p1.col as int, d1, i)),
        g[path_row(p1.row as int, d1, i)][path_col(p1.col as int, d1, i)] == p1.word@[i],
        p1.word@[i] == p2.word@[j],
{
    assert(letter_at(g, p1.row as int, p1.col as int, d1, p1.word@, i));
    assert(letter_at(g, p2.row as int, p2.col as int, d2, p2.word@, j));
}

/// A word longer than both the number of rows and the number of columns fits
/// nowhere on the board, whatever the start cell and the direction.
pub proof fn lemma_long_word_never_fits(b: Board, row: int, col: int, d: Direction, w: Seq<char>)
    requires
        b.wf(),
        d.wf(),
        w.len() > b.num_rows(),
        w.len() > b.num_cols(),
    ensures
        !b.fits_at(row, col, d, w),
{
    lemma_board_shape(b);
    if b.fits_at(row, col, d, w) {
        let last = w.len() - 1;
        assert(step_fits(b.cells(), row, col, d, w, 0));
        assert(step_fits(b.cells(), row, col, d, w, last));
        let r0 = path_row(row, d, 0);
        let rl = path_row(row, d, last);
        assert(b.cells()[r0].len() == b.num_cols());
        assert(b.cells()[rl].len() == b.num_cols());
    }
}

} // verus!
