//! The laws of the reveal and marker operations, stated and proved once over
//! the abstract board.

use vstd::prelude::*;
use crate::board::{BoardView, Cell};
use crate::engine::{
    cascade_opens, chord_fn, chord_upto, expose_fn, lemma_flood_terrain, lemma_lose_facts,
    on_border, in_region,
};

verus! {

/// Law: a primary reveal on a zero-count, unmarked, unmined cell reveals
/// exactly the maximal connected region of zero-count unmarked cells around
/// it plus that region's numbered unmarked border, and changes nothing else:
/// every cell beyond the border keeps its state, and no cell's terrain moves.
pub proof fn lemma_expose_zero_reveals_region(b: BoardView, x: int, y: int)
    requires
        b.dims_ok(),
        b.free(x, y),
        !b.at(x, y).is_mined,
    ensures
        forall|xx: int, yy: int|
            b.in_bounds(xx, yy) ==> #[trigger] expose_fn(b, x, y).at(xx, yy) == (Cell {
                is_open: b.at(xx, yy).is_open || in_region(b, x, y, xx, yy) || on_border(
                    b,
                    x,
                    y,
                    xx,
                    yy,
                ),
                ..b.at(xx, yy)
            }),
        expose_fn(b, x, y).game_over == b.game_over,
{
    lemma_flood_terrain(b, x, y);
    assert forall|xx: int, yy: int| b.in_bounds(xx, yy) implies #[trigger] expose_fn(b, x, y).at(
        xx,
        yy,
    ) == (Cell {
        is_open: b.at(xx, yy).is_open || in_region(b, x, y, xx, yy) || on_border(b, x, y, xx, yy),
        ..b.at(xx, yy)
    }) by {
        assert(cascade_opens(b, x, y, xx, yy) == (in_region(b, x, y, xx, yy) || on_border(
            b,
            x,
            y,
            xx,
            yy,
        )));
    }
}

/// Law: a primary reveal on a hidden, unmarked, mined cell ends the game:
/// the loss flag is set and every cell of the board is forced open.
pub proof fn lemma_expose_mine_loses(b: BoardView, x: int, y: int)
    requires
        b.dims_ok(),
        b.in_bounds(x, y),
        !b.at(x, y).is_open,
        !b.marked(x, y),
        b.at(x, y).is_mined,
    ensures
        expose_fn(b, x, y).game_over,
        !expose_fn(b, x, y).game_won,
        forall|xx: int, yy: int|
            b.in_bounds(xx, yy) ==> (#[trigger] expose_fn(b, x, y).at(xx, yy)).is_open,
{
    lemma_lose_facts(b);
}

/// Law: a primary reveal on a flagged or questioned cell is a complete
/// no-op: the board, every cell included, is exactly what it was.
pub proof fn lemma_expose_marked_noop(b: BoardView, x: int, y: int)
    requires
        b.marked(x, y),
    ensures
        expose_fn(b, x, y) == b,
{
}

/// Law: on a closed, unmarked cell the marker cycle walks
/// hidden -> flagged -> questioned -> hidden, so three steps return the cell
/// to exactly its starting state and a fourth matches the first.
pub proof fn lemma_marker_cycle(c: Cell)
    requires
        !c.is_open,
        !c.is_flagged,
        !c.is_question,
    ensures
        c.marker_next().is_flagged && !c.marker_next().is_question,
        c.marker_next().marker_next().is_question && !c.marker_next().marker_next().is_flagged,
        c.marker_next().marker_next().marker_next() == c,
        c.marker_next().marker_next().marker_next().marker_next() == c.marker_next(),
{
}

/// Law: the marker cycle never raises the flag and the question mark at
/// once, whatever state it starts from.
pub proof fn lemma_marker_exclusive(c: Cell)
    requires
        !(c.is_flagged && c.is_question),
    ensures
        !(c.marker_next().is_flagged && c.marker_next().is_question),
{
}

proof fn lemma_chord_upto_keeps_loss(b: BoardView, px: int, py: int, k: int)
    requires
        b.game_over,
    ensures
        chord_upto(b, px, py, k).game_over,
    decreases k,
{
    if k > 0 {
        lemma_chord_upto_keeps_loss(b, px, py, k - 1);
    }
}

/// Law: the loss transition is irreversible for a board: once the loss flag
/// is set, no reveal and no chord clears it again.
pub proof fn lemma_loss_irreversible(b: BoardView, x: int, y: int)
    requires
        b.game_over,
    ensures
        expose_fn(b, x, y).game_over,
        chord_fn(b, x, y).game_over,
{
    lemma_chord_upto_keeps_loss(b, x, y, 8);
}

} // verus!
