//! The board model: cells, coordinates, the mathematical view of a board,
//! and the basic operations that construct and query a board.

use vstd::prelude::*;

verus! {

/// A grid coordinate. Not necessarily in bounds; validity is checked
/// against the board dimensions before any indexed access.
#[derive(Clone, Copy, PartialEq, Eq, Structural)]
pub struct Point {
    pub x: i8,
    pub y: i8,
}

/// One grid position: its adjacency count, mine flag, revealed flag,
/// and the player-set marker (flag or question, never both).
#[derive(Clone, Copy)]
pub struct Cell {
    /// number of mined cells among the up-to-8 in-bounds neighbors
    pub connections: u8,
    pub is_mined: bool,
    pub is_open: bool,
    pub is_flagged: bool,
    pub is_question: bool,
}

impl Cell {
    /// The default cell: closed, unmined, unmarked, zero adjacency count.
    pub open spec fn blank() -> Cell {
        Cell {
            connections: 0,
            is_mined: false,
            is_open: false,
            is_flagged: false,
            is_question: false,
        }
    }

    pub fn new() -> (c: Cell)
        ensures
            c == Cell::blank(),
    {
        Cell {
            connections: 0,
            is_mined: false,
            is_open: false,
            is_flagged: false,
            is_question: false,
        }
    }

    /// One step of the marker cycle on this cell:
    /// hidden -> flagged -> questioned -> hidden on a closed cell;
    /// on an open cell any stale marker is cleared and nothing else changes.
    pub open spec fn marker_next(self) -> Cell {
        if self.is_open {
            Cell { is_flagged: false, is_question: false, ..self }
        } else if self.is_flagged {
            Cell { is_flagged: false, is_question: true, ..self }
        } else if self.is_question {
            Cell { is_question: false, ..self }
        } else {
            Cell { is_flagged: true, ..self }
        }
    }

    /// Advance the marker state machine by one step.
    pub fn rotate_marker(&mut self)
        ensures
            *final(self) == old(self).marker_next(),
    {
        if self.is_open {
            self.is_flagged = false;
            self.is_question = false;
        } else if self.is_flagged {
            self.is_flagged = false;
            self.is_question = true;
        } else if self.is_question {
            self.is_question = false;
        } else {
            self.is_flagged = true;
        }
    }
}

/// The mathematical model of a board: a `width` x `height` grid of cells
/// (outer index is the x column, inner index the y row) and the two
/// terminal flags.
#[verifier::ext_equal]
pub ghost struct BoardView {
    pub cells: Seq<Seq<Cell>>,
    pub width: int,
    pub height: int,
    pub game_over: bool,
    pub game_won: bool,
}

/// Moore adjacency: distinct coordinates whose components differ by at most one.
pub open spec fn adjacent(x1: int, y1: int, x2: int, y2: int) -> bool {
    &&& (x1 != x2 || y1 != y2)
    &&& -1 <= x1 - x2 <= 1
    &&& -1 <= y1 - y2 <= 1
}

/// The eight neighbor offsets, in the order the operations visit them.
pub open spec fn spec_offset(k: int) -> (int, int) {
    if k == 0 {
        (-1, 0)
    } else if k == 1 {
        (1, 0)
    } else if k == 2 {
        (0, -1)
    } else if k == 3 {
        (0, 1)
    } else if k == 4 {
        (-1, 1)
    } else if k == 5 {
        (1, 1)
    } else if k == 6 {
        (-1, -1)
    } else {
        (1, -1)
    }
}

/// The i-th Moore neighbor of (mx, my).
pub open spec fn neighbor_of(mx: int, my: int, i: int) -> (int, int) {
    (mx + spec_offset(i).0, my + spec_offset(i).1)
}

/// (x, y) is one of the first k Moore neighbors of (mx, my).
pub open spec fn hit_before(mx: int, my: int, k: int, x: int, y: int) -> bool {
    exists|i: int| 0 <= i < k && (x, y) == #[trigger] neighbor_of(mx, my, i)
}

/// The eight neighbor offsets land on eight distinct cells, none of them
/// the center.
pub proof fn lemma_neighbors_distinct(mx: int, my: int)
    ensures
        forall|i: int, j: int|
            0 <= i < 8 && 0 <= j < 8 && i != j ==> neighbor_of(mx, my, i) != neighbor_of(mx, my, j),
        forall|i: int| 0 <= i < 8 ==> neighbor_of(mx, my, i) != (mx, my),
{
}

/// Moore adjacency to (mx, my) is exactly landing on one of its eight
/// neighbor offsets.
pub proof fn lemma_adjacent_iff_neighbor(mx: int, my: int, x: int, y: int)
    ensures
        adjacent(mx, my, x, y) <==> exists|i: int|
            0 <= i < 8 && (x, y) == #[trigger] neighbor_of(mx, my, i),
{
    if adjacent(mx, my, x, y) {
        let dx = x - mx;
        let dy = y - my;
        if dx == -1 && dy == 0 {
            assert((x, y) == neighbor_of(mx, my, 0));
        } else if dx == 1 && dy == 0 {
            assert((x, y) == neighbor_of(mx, my, 1));
        } else if dx == 0 && dy == -1 {
            assert((x, y) == neighbor_of(mx, my, 2));
        } else if dx == 0 && dy == 1 {
            assert((x, y) == neighbor_of(mx, my, 3));
        } else if dx == -1 && dy == 1 {
            assert((x, y) == neighbor_of(mx, my, 4));
        } else if dx == 1 && dy == 1 {
            assert((x, y) == neighbor_of(mx, my, 5));
        } else if dx == -1 && dy == -1 {
            assert((x, y) == neighbor_of(mx, my, 6));
        } else {
            assert((x, y) == neighbor_of(mx, my, 7));
        }
    }
    if exists|i: int| 0 <= i < 8 && (x, y) == #[trigger] neighbor_of(mx, my, i) {
        let i = choose|i: int| 0 <= i < 8 && (x, y) == #[trigger] neighbor_of(mx, my, i);
        assert(adjacent(mx, my, x, y));
    }
}

/// The i-th Moore neighbor offset, as executable coordinates.
pub fn offset(k: usize) -> (d: (i8, i8))
    requires
        k < 8,
    ensures
        (d.0 as int, d.1 as int) == spec_offset(k as int),
{
    match k {
        0 => (-1, 0),
        1 => (1, 0),
        2 => (0, -1),
        3 => (0, 1),
        4 => (-1, 1),
        5 => (1, 1),
        6 => (-1, -1),
        _ => (1, -1),
    }
}

impl BoardView {
    pub open spec fn in_bounds(self, x: int, y: int) -> bool {
        0 <= x < self.width && 0 <= y < self.height
    }

    pub open spec fn at(self, x: int, y: int) -> Cell {
        self.cells[x][y]
    }

    /// The grid really is a `width` x `height` rectangle of the stated size.
    pub open spec fn dims_ok(self) -> bool {
        &&& 0 < self.width <= 127
        &&& 0 < self.height <= 127
        &&& self.cells.len() == self.width
        &&& forall|x: int| 0 <= x < self.width ==> (#[trigger] self.cells[x]).len() == self.height
    }

    /// The cell carries a player marker (flag or question).
    pub open spec fn marked(self, x: int, y: int) -> bool {
        self.at(x, y).is_flagged || self.at(x, y).is_question
    }

    /// A passage cell of the cascade: in bounds, zero adjacency count, unmarked.
    pub open spec fn free(self, x: int, y: int) -> bool {
        &&& self.in_bounds(x, y)
        &&& self.at(x, y).connections == 0
        &&& !self.marked(x, y)
    }

    /// 1 if (x, y) is an in-bounds mined cell, else 0.
    pub open spec fn mine_at(self, x: int, y: int) -> nat {
        if self.in_bounds(x, y) && self.at(x, y).is_mined {
            1
        } else {
            0
        }
    }

    /// The number of mined cells among the in-bounds Moore neighbors of (x, y),
    /// independent of any placement order.
    pub open spec fn adj_mines(self, x: int, y: int) -> nat {
        self.mine_at(x - 1, y - 1) + self.mine_at(x - 1, y) + self.mine_at(x - 1, y + 1)
            + self.mine_at(x, y - 1) + self.mine_at(x, y + 1) + self.mine_at(x + 1, y - 1)
            + self.mine_at(x + 1, y) + self.mine_at(x + 1, y + 1)
    }

    /// Every cell's stored count equals the true count of mined neighbors.
    pub open spec fn counts_ok(self) -> bool {
        forall|x: int, y: int|
            self.in_bounds(x, y) ==> self.at(x, y).connections == #[trigger] self.adj_mines(x, y)
    }

    /// No cell is flagged and questioned at once.
    pub open spec fn markers_ok(self) -> bool {
        forall|x: int, y: int|
            self.in_bounds(x, y) ==> !((#[trigger] self.at(x, y)).is_flagged && self.at(x, y).is_question)
    }

    /// The board with the cell at (x, y) replaced by `c`.
    pub open spec fn upd(self, x: int, y: int, c: Cell) -> BoardView {
        BoardView { cells: self.cells.update(x, self.cells[x].update(y, c)), ..self }
    }

    /// The board with the cell at (x, y) revealed.
    pub open spec fn open_at(self, x: int, y: int) -> BoardView {
        self.upd(x, y, Cell { is_open: true, ..self.at(x, y) })
    }

    /// The board with the cell at (x, y) hidden again (the chord "unchord").
    pub open spec fn close_at(self, x: int, y: int) -> BoardView {
        self.upd(x, y, Cell { is_open: false, ..self.at(x, y) })
    }

    /// The terminal loss transition: every cell revealed and the loss flag set.
    pub open spec fn lose(self) -> BoardView {
        BoardView {
            cells: Seq::new(
                self.cells.len(),
                |x: int| Seq::new(self.cells[x].len(), |y: int| Cell { is_open: true, ..self.cells[x][y] }),
            ),
            game_over: true,
            game_won: false,
            ..self
        }
    }

    /// The game is won right now: not lost, and every safe cell is revealed.
    pub open spec fn won_now(self) -> bool {
        &&& !self.game_over
        &&& forall|x: int, y: int|
            self.in_bounds(x, y) ==> ((#[trigger] self.at(x, y)).is_mined || self.at(x, y).is_open)
    }

    /// Refresh the win flag from the current cells.
    pub open spec fn set_won(self) -> BoardView {
        BoardView { game_won: self.won_now(), ..self }
    }

    /// The total number of mined cells on the board.
    pub open spec fn num_mines(self) -> nat {
        count_mines(self.cells)
    }

    /// Two boards with the same dimensions and the same terrain: only the
    /// `is_open` flags may differ cell by cell.
    pub open spec fn same_terrain(self, other: BoardView) -> bool {
        &&& other.width == self.width
        &&& other.height == self.height
        &&& other.cells.len() == self.cells.len()
        &&& forall|x: int| 0 <= x < self.cells.len() ==> (#[trigger] other.cells[x]).len() == self.cells[x].len()
        &&& forall|x: int, y: int|
            self.in_bounds(x, y) ==> {
                let a = self.at(x, y);
                let b = #[trigger] other.at(x, y);
                b.connections == a.connections && b.is_mined == a.is_mined
                    && b.is_flagged == a.is_flagged && b.is_question == a.is_question
            }
    }
}

pub open spec fn count_mines_row(row: Seq<Cell>) -> nat
    decreases row.len(),
{
    if row.len() == 0 {
        0
    } else {
        count_mines_row(row.drop_last()) + if row.last().is_mined {
            1nat
        } else {
            0nat
        }
    }
}

pub open spec fn count_mines(cells: Seq<Seq<Cell>>) -> nat
    decreases cells.len(),
{
    if cells.len() == 0 {
        0
    } else {
        count_mines(cells.drop_last()) + count_mines_row(cells.last())
    }
}

/// The playable board: a flat row-major grid (index `x * grid_height + y`)
/// with its configuration and the two terminal flags.
pub struct Game {
    pub grid: Vec<Cell>,
    pub grid_width: usize,
    pub grid_height: usize,
    pub mine_percent: usize,
    pub grid_square: usize,
    pub first_click: bool,
    pub game_over: bool,
    pub game_won: bool,
}

impl Game {
    /// The abstract board this value represents. Opaque: everything outside
    /// the indexing helpers reasons through their contracts.
    #[verifier::opaque]
    pub open spec fn bv(self) -> BoardView {
        BoardView {
            cells: Seq::new(
                self.grid_width as nat,
                |x: int| Seq::new(self.grid_height as nat, |y: int| self.grid@[x * self.grid_height + y]),
            ),
            width: self.grid_width as int,
            height: self.grid_height as int,
            game_over: self.game_over,
            game_won: self.game_won,
        }
    }

    /// Structural well-formedness: the flat grid has exactly
    /// `grid_width * grid_height` cells, the dimensions are addressable by a
    /// signed 8-bit coordinate, and the density is a percentage in (0, 100).
    pub open spec fn wf(self) -> bool {
        &&& self.grid@.len() == self.grid_width * self.grid_height
        &&& 0 < self.grid_width <= 127
        &&& 0 < self.grid_height <= 127
        &&& 0 < self.mine_percent < 100
    }

    /// The configuration fields two boards share when an operation only
    /// touches cells and terminal flags.
    pub open spec fn same_config(self, other: Game) -> bool {
        &&& other.grid_width == self.grid_width
        &&& other.grid_height == self.grid_height
        &&& other.mine_percent == self.mine_percent
        &&& other.grid_square == self.grid_square
        &&& other.first_click == self.first_click
    }

    /// What well-formedness says of the abstract board.
    pub proof fn lemma_wf_dims(self)
        requires
            self.wf(),
        ensures
            self.bv().dims_ok(),
            self.bv().width == self.grid_width as int,
            self.bv().height == self.grid_height as int,
            self.bv().game_over == self.game_over,
            self.bv().game_won == self.game_won,
    {
        reveal(Game::bv);
    }

    /// A fresh board of the given dimensions and density: every cell default,
    /// no mines yet, the first reveal still pending. The caller supplies a
    /// density strictly between 0 and 100 and dimensions addressable by a
    /// signed 8-bit coordinate.
    pub fn with_size(grid_width: usize, grid_height: usize, mine_percent: usize, grid_square: usize) -> (g: Game)
        requires
            0 < grid_width <= 127,
            0 < grid_height <= 127,
            0 < mine_percent < 100,
        ensures
            g.wf(),
            g.grid_width == grid_width,
            g.grid_height == grid_height,
            g.mine_percent == mine_percent,
            g.grid_square == grid_square,
            g.first_click,
            !g.game_over,
            !g.game_won,
            forall|x: int, y: int| g.bv().in_bounds(x, y) ==> #[trigger] g.bv().at(x, y) == Cell::blank(),
    {
        proof {
            lemma_flat_index_in_range(grid_width as int - 1, grid_height as int - 1, grid_width as int, grid_height as int);
        }
        let total = grid_width * grid_height;
        let mut grid: Vec<Cell> = Vec::new();
        for i in 0..total
            invariant
                grid@.len() == i,
                forall|j: int| 0 <= j < i ==> grid@[j] == Cell::blank(),
        {
            grid.push(Cell::new());
        }
        let g = Game {
            grid,
            grid_width,
            grid_height,
            mine_percent,
            grid_square,
            first_click: true,
            game_over: false,
            game_won: false,
        };
        proof {
            reveal(Game::bv);
            assert forall|x: int, y: int| g.bv().in_bounds(x, y) implies #[trigger] g.bv().at(x, y)
                == Cell::blank() by {
                lemma_flat_index_in_range(x, y, grid_width as int, grid_height as int);
            }
        }
        g
    }

    /// The default configuration: a 10 x 10 board, 15% mine density,
    /// 60-pixel cells.
    pub fn new() -> (g: Game)
        ensures
            g.wf(),
            g.grid_width == 10,
            g.grid_height == 10,
            g.mine_percent == 15,
            g.grid_square == 60,
            g.first_click,
            !g.game_over,
            !g.game_won,
            forall|x: int, y: int| g.bv().in_bounds(x, y) ==> #[trigger] g.bv().at(x, y) == Cell::blank(),
    {
        Game::with_size(10, 10, 15, 60)
    }

    /// Reveal every cell and set the loss flag: the terminal loss transition.
    pub fn lose_game(&mut self)
        requires
            old(self).wf(),
        ensures
            final(self).wf(),
            old(self).same_config(*final(self)),
            final(self).bv() == old(self).bv().lose(),
    {
        let n = self.grid.len();
        for i in 0..n
            invariant
                self.grid@.len() == n,
                old(self).same_config(*self),
                self.grid_width == old(self).grid_width,
                self.grid_height == old(self).grid_height,
                self.game_over == old(self).game_over,
                self.game_won == old(self).game_won,
                forall|j: int| 0 <= j < i ==> self.grid@[j] == (Cell { is_open: true, ..old(self).grid@[j] }),
                forall|j: int| i <= j < n ==> self.grid@[j] == old(self).grid@[j],
        {
            let mut c = self.grid[i];
            c.is_open = true;
            self.grid[i] = c;
        }
        self.game_over = true;
        self.game_won = false;
        proof {
            reveal(Game::bv);
            let b1 = old(self).bv();
            let b2 = self.bv();
            let l = b1.lose();
            assert forall|x: int| 0 <= x < b2.cells.len() implies b2.cells[x] =~= l.cells[x] by {
                assert forall|y: int| 0 <= y < b1.height implies b2.cells[x][y] == l.cells[x][y] by {
                    lemma_flat_index_in_range(x, y, b1.width, b1.height);
                }
            }
            assert(b2.cells =~~= l.cells);
            assert(b2 =~~= l);
        }
    }

    /// Apply one step of the marker cycle to the cell at an in-bounds
    /// coordinate, leaving every other cell alone.
    pub fn rotate_marker(&mut self, pos: &Point)
        requires
            old(self).wf(),
            old(self).bv().in_bounds(pos.x as int, pos.y as int),
        ensures
            final(self).wf(),
            old(self).same_config(*final(self)),
            final(self).bv() == old(self).bv().upd(
                pos.x as int,
                pos.y as int,
                old(self).bv().at(pos.x as int, pos.y as int).marker_next(),
            ),
            old(self).bv().markers_ok() ==> final(self).bv().markers_ok(),
    {
        let mut c = self.cell_at(pos);
        c.rotate_marker();
        self.set_cell(pos.x, pos.y, c);
        proof {
            old(self).lemma_wf_dims();
            lemma_upd_at(old(self).bv(), pos.x as int, pos.y as int, old(self).bv().at(pos.x as int, pos.y as int).marker_next());
            let b1 = old(self).bv();
            let b2 = self.bv();
            if b1.markers_ok() {
                assert forall|x: int, y: int| b2.in_bounds(x, y) implies !((#[trigger] b2.at(x, y)).is_flagged
                    && b2.at(x, y).is_question) by {
                    assert(!((#[trigger] b1.at(x, y)).is_flagged && b1.at(x, y).is_question));
                }
            }
        }
    }

    /// Record a new value of the win flag; the cells and the loss flag are
    /// untouched.
    pub(crate) fn set_game_won(&mut self, v: bool)
        requires
            old(self).wf(),
        ensures
            final(self).wf(),
            final(self).grid_width == old(self).grid_width,
            final(self).grid_height == old(self).grid_height,
            final(self).mine_percent == old(self).mine_percent,
            final(self).grid_square == old(self).grid_square,
            final(self).first_click == old(self).first_click,
            final(self).bv() == (BoardView { game_won: v, ..old(self).bv() }),
    {
        self.game_won = v;
        proof {
            reveal(Game::bv);
            assert(self.bv().cells =~~= (BoardView { game_won: v, ..old(self).bv() }).cells);
            assert(self.bv() =~~= (BoardView { game_won: v, ..old(self).bv() }));
        }
    }

    /// Record that the first reveal has happened; the abstract board is
    /// untouched.
    pub(crate) fn set_first_click(&mut self, v: bool)
        requires
            old(self).wf(),
        ensures
            final(self).wf(),
            final(self).grid_width == old(self).grid_width,
            final(self).grid_height == old(self).grid_height,
            final(self).mine_percent == old(self).mine_percent,
            final(self).grid_square == old(self).grid_square,
            final(self).first_click == v,
            final(self).bv() == old(self).bv(),
    {
        self.first_click = v;
        proof {
            reveal(Game::bv);
            assert(self.bv().cells =~~= old(self).bv().cells);
            assert(self.bv() =~~= old(self).bv());
        }
    }

    /// Whether the game is won right now: not lost, and every safe cell
    /// revealed.
    pub fn compute_won(&self) -> (r: bool)
        requires
            self.wf(),
        ensures
            r == self.bv().won_now(),
    {
        proof {
            self.lemma_wf_dims();
        }
        if self.game_over {
            return false;
        }
        let w = self.grid_width;
        let h = self.grid_height;
        for x in 0..w
            invariant
                self.wf(),
                w == self.grid_width,
                h == self.grid_height,
                self.bv().width == w as int,
                self.bv().height == h as int,
                !self.bv().game_over,
                forall|xx: int, yy: int|
                    0 <= xx < x && 0 <= yy < h as int ==> ((#[trigger] self.bv().at(
                        xx,
                        yy,
                    )).is_mined || self.bv().at(xx, yy).is_open),
        {
            for y in 0..h
                invariant
                    self.wf(),
                    w == self.grid_width,
                    h == self.grid_height,
                    x < w,
                    self.bv().width == w as int,
                    self.bv().height == h as int,
                    !self.bv().game_over,
                    forall|xx: int, yy: int|
                        0 <= xx < x && 0 <= yy < h as int ==> ((#[trigger] self.bv().at(
                            xx,
                            yy,
                        )).is_mined || self.bv().at(xx, yy).is_open),
                    forall|yy: int|
                        0 <= yy < y ==> ((#[trigger] self.bv().at(x as int, yy)).is_mined
                            || self.bv().at(x as int, yy).is_open),
            {
                let c = self.cell_at(&Point { x: x as i8, y: y as i8 });
                if !c.is_mined && !c.is_open {
                    return false;
                }
            }
        }
        true
    }

    /// Pure bounds check: true iff the point indexes a cell of the grid.
    pub fn in_grid(&self, point: &Point) -> (r: bool)
        ensures
            r == self.bv().in_bounds(point.x as int, point.y as int),
    {
        proof {
            reveal(Game::bv);
        }
        if point.x < 0 || point.y < 0 {
            return false;
        }
        (point.x as usize) < self.grid_width && (point.y as usize) < self.grid_height
    }

    /// Read the cell at an in-bounds coordinate.
    pub fn cell_at(&self, pos: &Point) -> (c: Cell)
        requires
            self.wf(),
            self.bv().in_bounds(pos.x as int, pos.y as int),
        ensures
            c == self.bv().at(pos.x as int, pos.y as int),
    {
        let idx = self.flat_index(pos.x, pos.y);
        self.grid[idx]
    }

    /// The flat index of an in-bounds coordinate.
    pub(crate) fn flat_index(&self, x: i8, y: i8) -> (idx: usize)
        requires
            self.wf(),
            self.bv().in_bounds(x as int, y as int),
        ensures
            idx == x as int * self.grid_height + y as int,
            idx < self.grid@.len(),
            self.grid@[idx as int] == self.bv().at(x as int, y as int),
    {
        proof {
            reveal(Game::bv);
            lemma_flat_index_in_range(x as int, y as int, self.grid_width as int, self.grid_height as int);
        }
        (x as usize) * self.grid_height + (y as usize)
    }

    /// Reveal the cell at an in-bounds coordinate, leaving its other fields
    /// and every other cell alone.
    pub(crate) fn open_cell(&mut self, x: i8, y: i8)
        requires
            old(self).wf(),
            old(self).bv().in_bounds(x as int, y as int),
        ensures
            final(self).wf(),
            old(self).same_config(*final(self)),
            final(self).bv().dims_ok(),
            final(self).bv().width == old(self).bv().width,
            final(self).bv().height == old(self).bv().height,
            final(self).bv().game_over == old(self).bv().game_over,
            final(self).bv().game_won == old(self).bv().game_won,
            forall|xx: int, yy: int|
                old(self).bv().in_bounds(xx, yy) ==> #[trigger] final(self).bv().at(xx, yy) == (
                if xx == x as int && yy == y as int {
                    Cell { is_open: true, ..old(self).bv().at(xx, yy) }
                } else {
                    old(self).bv().at(xx, yy)
                }),
            old(self).bv().same_terrain(final(self).bv()),
    {
        proof {
            old(self).lemma_wf_dims();
        }
        let mut c = self.cell_at(&Point { x, y });
        c.is_open = true;
        self.set_cell(x, y, c);
        proof {
            lemma_upd_at(
                old(self).bv(),
                x as int,
                y as int,
                Cell { is_open: true, ..old(self).bv().at(x as int, y as int) },
            );
        }
    }

    /// Replace the cell at an in-bounds coordinate, leaving everything else
    /// as it was.
    pub(crate) fn set_cell(&mut self, x: i8, y: i8, c: Cell)
        requires
            old(self).wf(),
            old(self).bv().in_bounds(x as int, y as int),
        ensures
            final(self).wf(),
            final(self).bv() == old(self).bv().upd(x as int, y as int, c),
            old(self).same_config(*final(self)),
    {
        let idx = self.flat_index(x, y);
        self.grid[idx] = c;
        proof {
            reveal(Game::bv);
            let h = self.grid_height as int;
            let b1 = old(self).bv();
            let b2 = self.bv();
            assert forall|xx: int, yy: int| b1.in_bounds(xx, yy) implies #[trigger] b2.at(xx, yy)
                == (if xx == x as int && yy == y as int {
                c
            } else {
                b1.at(xx, yy)
            }) by {
                lemma_flat_index_in_range(xx, yy, b1.width, h);
                if xx * h + yy == x as int * h + y as int {
                    lemma_flat_index_injective(xx, yy, x as int, y as int, h);
                }
            }
            lemma_pointwise_upd(b1, b2, x as int, y as int, c);
        }
    }
}

impl BoardView {
    /// The cell the board holds at (x, y) after a mine lands on (mx, my):
    /// the mine flag is set there, and every in-bounds Moore neighbor's
    /// adjacency count grows by one.
    pub open spec fn after_mine(self, mx: int, my: int, x: int, y: int) -> Cell {
        if x == mx && y == my {
            Cell { is_mined: true, ..self.at(x, y) }
        } else if adjacent(mx, my, x, y) {
            Cell { connections: (self.at(x, y).connections + 1) as u8, ..self.at(x, y) }
        } else {
            self.at(x, y)
        }
    }

    /// The cell at (x, y) while a mine is being dropped on (mx, my): the mine
    /// flag already set, and only the first k neighbor offsets bumped so far.
    pub open spec fn after_mine_upto(self, mx: int, my: int, k: int, x: int, y: int) -> Cell {
        if x == mx && y == my {
            Cell { is_mined: true, ..self.at(x, y) }
        } else if hit_before(mx, my, k, x, y) {
            Cell { connections: (self.at(x, y).connections + 1) as u8, ..self.at(x, y) }
        } else {
            self.at(x, y)
        }
    }
}

impl Game {
    /// Increment the adjacency count at (x, y) if it is in bounds; out of
    /// bounds, do nothing.
    fn bump(&mut self, x: i8, y: i8)
        requires
            old(self).wf(),
            old(self).bv().in_bounds(x as int, y as int) ==> old(self).bv().at(
                x as int,
                y as int,
            ).connections < 255,
        ensures
            final(self).wf(),
            old(self).same_config(*final(self)),
            final(self).bv() == if old(self).bv().in_bounds(x as int, y as int) {
                old(self).bv().upd(
                    x as int,
                    y as int,
                    Cell {
                        connections: (old(self).bv().at(x as int, y as int).connections + 1) as u8,
                        ..old(self).bv().at(x as int, y as int)
                    },
                )
            } else {
                old(self).bv()
            },
    {
        let p = Point { x, y };
        if self.in_grid(&p) {
            let mut c = self.cell_at(&p);
            c.connections = c.connections + 1;
            self.set_cell(x, y, c);
        }
    }

    /// Drop a mine on an in-bounds, not-yet-mined coordinate: sets its mine
    /// flag and increments the adjacency count of each in-bounds Moore
    /// neighbor. With correct counts before the call, counts are correct
    /// after it, and the board carries exactly one mine more.
    #[verifier::rlimit(60)]
    pub fn place_mine(&mut self, place_grid: &Point)
        requires
            old(self).wf(),
            old(self).bv().in_bounds(place_grid.x as int, place_grid.y as int),
            !old(self).bv().at(place_grid.x as int, place_grid.y as int).is_mined,
            old(self).bv().counts_ok(),
        ensures
            final(self).wf(),
            old(self).same_config(*final(self)),
            final(self).bv().dims_ok(),
            final(self).bv().width == old(self).bv().width,
            final(self).bv().height == old(self).bv().height,
            final(self).bv().game_over == old(self).bv().game_over,
            final(self).bv().game_won == old(self).bv().game_won,
            forall|xx: int, yy: int|
                old(self).bv().in_bounds(xx, yy) ==> #[trigger] final(self).bv().at(xx, yy) == old(
                    self,
                ).bv().after_mine(place_grid.x as int, place_grid.y as int, xx, yy),
            final(self).bv().counts_ok(),
            final(self).bv().num_mines() == old(self).bv().num_mines() + 1,
    {
        let x = place_grid.x;
        let y = place_grid.y;
        let ghost g0 = *old(self);
        let ghost b0 = old(self).bv();
        let ghost mx = x as int;
        let ghost my = y as int;
        let mut c = self.cell_at(place_grid);
        c.is_mined = true;
        self.set_cell(x, y, c);
        let ghost b1 = self.bv();
        proof {
            g0.lemma_wf_dims();
            lemma_neighbors_distinct(mx, my);
            lemma_upd_at(b0, mx, my, Cell { is_mined: true, ..b0.at(mx, my) });
            assert forall|xx: int, yy: int| b0.in_bounds(xx, yy) implies #[trigger] self.bv().at(
                xx,
                yy,
            ) == b0.after_mine_upto(mx, my, 0, xx, yy) by {
                assert(!hit_before(mx, my, 0, xx, yy));
            }
        }
        for k in 0..8usize
            invariant
                self.wf(),
                g0.same_config(*self),
                b0 == g0.bv(),
                mx == x as int,
                my == y as int,
                b0.dims_ok(),
                b0.in_bounds(mx, my),
                b0.counts_ok(),
                self.bv().dims_ok(),
                self.bv().width == b0.width,
                self.bv().height == b0.height,
                self.bv().game_over == b0.game_over,
                self.bv().game_won == b0.game_won,
                forall|xx: int, yy: int|
                    b0.in_bounds(xx, yy) ==> #[trigger] self.bv().at(xx, yy) == b0.after_mine_upto(
                        mx,
                        my,
                        k as int,
                        xx,
                        yy,
                    ),
        {
            let ghost prev = self.bv();
            let d = offset(k);
            let nx = x + d.0;
            let ny = y + d.1;
            proof {
                lemma_neighbors_distinct(mx, my);
                assert((nx as int, ny as int) == neighbor_of(mx, my, k as int));
                if b0.in_bounds(nx as int, ny as int) {
                    assert(!hit_before(mx, my, k as int, nx as int, ny as int));
                    assert(prev.at(nx as int, ny as int) == b0.at(nx as int, ny as int));
                    assert(b0.at(nx as int, ny as int).connections == b0.adj_mines(
                        nx as int,
                        ny as int,
                    ));
                }
            }
            self.bump(nx, ny);
            proof {
                if prev.in_bounds(nx as int, ny as int) {
                    lemma_upd_at(
                        prev,
                        nx as int,
                        ny as int,
                        Cell {
                            connections: (prev.at(nx as int, ny as int).connections + 1) as u8,
                            ..prev.at(nx as int, ny as int)
                        },
                    );
                }
                assert forall|xx: int, yy: int| b0.in_bounds(xx, yy) implies #[trigger] self.bv().at(
                    xx,
                    yy,
                ) == b0.after_mine_upto(mx, my, k as int + 1, xx, yy) by {
                    if xx == nx as int && yy == ny as int {
                        assert(hit_before(mx, my, k as int + 1, xx, yy));
                    } else {
                        assert(self.bv().at(xx, yy) == prev.at(xx, yy));
                        if hit_before(mx, my, k as int + 1, xx, yy) {
                            let i = choose|i: int|
                                0 <= i < k as int + 1 && (xx, yy) == #[trigger] neighbor_of(
                                    mx,
                                    my,
                                    i,
                                );
                            assert(i < k as int);
                            assert(hit_before(mx, my, k as int, xx, yy));
                        }
                    }
                }
            }
        }
        proof {
            let b9 = self.bv();
            lemma_upto_eight_is_after_mine(b0, b9, mx, my);
            lemma_after_mine_counts(b0, b9, mx, my);
            crate::counts::lemma_num_mines_upd(
                b0,
                mx,
                my,
                Cell { is_mined: true, ..b0.at(mx, my) },
            );
            lemma_same_mines_same_count(b1, b9);
        }
    }
}

/// Visiting all eight neighbor offsets is the whole mine-placement effect.
proof fn lemma_upto_eight_is_after_mine(b0: BoardView, b9: BoardView, mx: int, my: int)
    requires
        b0.dims_ok(),
        b0.in_bounds(mx, my),
        b9.width == b0.width,
        b9.height == b0.height,
        forall|x: int, y: int|
            b0.in_bounds(x, y) ==> #[trigger] b9.at(x, y) == b0.after_mine_upto(mx, my, 8, x, y),
    ensures
        forall|x: int, y: int|
            b0.in_bounds(x, y) ==> #[trigger] b9.at(x, y) == b0.after_mine(mx, my, x, y),
{
    assert forall|x: int, y: int| b0.in_bounds(x, y) implies #[trigger] b9.at(x, y)
        == b0.after_mine(mx, my, x, y) by {
        lemma_adjacent_iff_neighbor(mx, my, x, y);
        assert(b9.at(x, y) == b0.after_mine_upto(mx, my, 8, x, y));
    }
}

/// One mine-at term of the adjacency sum, before and after a mine lands.
proof fn lemma_mine_at_after(b0: BoardView, b9: BoardView, mx: int, my: int, u: int, v: int)
    requires
        b0.in_bounds(mx, my),
        !b0.at(mx, my).is_mined,
        b9.width == b0.width,
        b9.height == b0.height,
        forall|x: int, y: int|
            b0.in_bounds(x, y) ==> #[trigger] b9.at(x, y) == b0.after_mine(mx, my, x, y),
    ensures
        b9.mine_at(u, v) == b0.mine_at(u, v) + (if u == mx && v == my {
            1int
        } else {
            0int
        }),
{
    if b0.in_bounds(u, v) {
        assert(b9.at(u, v) == b0.after_mine(mx, my, u, v));
    }
}

/// Counts stay exact across a mine placement: the stored adjacency counts of
/// the board after the placement match its own mine layout.
proof fn lemma_after_mine_counts(b0: BoardView, b9: BoardView, mx: int, my: int)
    requires
        b0.dims_ok(),
        b0.in_bounds(mx, my),
        b0.counts_ok(),
        !b0.at(mx, my).is_mined,
        b9.width == b0.width,
        b9.height == b0.height,
        forall|x: int, y: int|
            b0.in_bounds(x, y) ==> #[trigger] b9.at(x, y) == b0.after_mine(mx, my, x, y),
    ensures
        b9.counts_ok(),
{
    assert forall|x: int, y: int| b9.in_bounds(x, y) implies b9.at(x, y).connections == #[trigger]
    b9.adj_mines(x, y) by {
        assert(b0.at(x, y).connections == b0.adj_mines(x, y));
        assert(b9.at(x, y) == b0.after_mine(mx, my, x, y));
        lemma_mine_at_after(b0, b9, mx, my, x - 1, y - 1);
        lemma_mine_at_after(b0, b9, mx, my, x - 1, y);
        lemma_mine_at_after(b0, b9, mx, my, x - 1, y + 1);
        lemma_mine_at_after(b0, b9, mx, my, x, y - 1);
        lemma_mine_at_after(b0, b9, mx, my, x, y + 1);
        lemma_mine_at_after(b0, b9, mx, my, x + 1, y - 1);
        lemma_mine_at_after(b0, b9, mx, my, x + 1, y);
        lemma_mine_at_after(b0, b9, mx, my, x + 1, y + 1);
    }
}

/// Two boards of one shape whose cells agree on the mine flag everywhere
/// carry the same number of mines.
pub(crate) proof fn lemma_same_mines_same_count(b1: BoardView, b2: BoardView)
    requires
        b1.dims_ok(),
        b2.cells.len() == b1.cells.len(),
        forall|x: int| 0 <= x < b1.cells.len() ==> (#[trigger] b2.cells[x]).len() == b1.cells[x].len(),
        forall|x: int, y: int|
            b1.in_bounds(x, y) ==> (#[trigger] b2.at(x, y)).is_mined == b1.at(x, y).is_mined,
    ensures
        b2.num_mines() == b1.num_mines(),
{
    assert forall|x: int, y: int| 0 <= x < b1.cells.len() && 0 <= y < b1.height implies (
    #[trigger] b2.cells[x][y]).is_mined == b1.cells[x][y].is_mined by {
        assert(b2.at(x, y).is_mined == b1.at(x, y).is_mined);
    }
    lemma_count_rows_agree(b1.cells, b2.cells, b1.height);
}

proof fn lemma_count_rows_agree(c1: Seq<Seq<Cell>>, c2: Seq<Seq<Cell>>, h: int)
    requires
        c2.len() == c1.len(),
        forall|x: int| 0 <= x < c1.len() ==> (#[trigger] c1[x]).len() == h,
        forall|x: int| 0 <= x < c1.len() ==> (#[trigger] c2[x]).len() == h,
        forall|x: int, y: int|
            0 <= x < c1.len() && 0 <= y < h ==> (#[trigger] c2[x][y]).is_mined == c1[x][y].is_mined,
    ensures
        count_mines(c2) == count_mines(c1),
    decreases c1.len(),
{
    if c1.len() > 0 {
        lemma_count_rows_agree(c1.drop_last(), c2.drop_last(), h);
        lemma_count_row_agree(c1.last(), c2.last());
    }
}

proof fn lemma_count_row_agree(r1: Seq<Cell>, r2: Seq<Cell>)
    requires
        r2.len() == r1.len(),
        forall|y: int| 0 <= y < r1.len() ==> (#[trigger] r2[y]).is_mined == r1[y].is_mined,
    ensures
        count_mines_row(r2) == count_mines_row(r1),
    decreases r1.len(),
{
    if r1.len() > 0 {
        lemma_count_row_agree(r1.drop_last(), r2.drop_last());
    }
}

/// How a single-cell update reads back, cell by cell.
pub proof fn lemma_upd_at(b: BoardView, x: int, y: int, c: Cell)
    requires
        b.dims_ok(),
        b.in_bounds(x, y),
    ensures
        b.upd(x, y, c).dims_ok(),
        b.upd(x, y, c).width == b.width,
        b.upd(x, y, c).height == b.height,
        b.upd(x, y, c).game_over == b.game_over,
        b.upd(x, y, c).game_won == b.game_won,
        forall|xx: int, yy: int|
            b.in_bounds(xx, yy) ==> #[trigger] b.upd(x, y, c).at(xx, yy) == (if xx == x && yy == y {
                c
            } else {
                b.at(xx, yy)
            }),
{
}

/// An in-bounds coordinate's flat index lies inside the flat grid, which
/// for 8-bit-addressable dimensions is itself small.
pub(crate) proof fn lemma_flat_index_in_range(x: int, y: int, w: int, h: int)
    requires
        0 <= x < w,
        0 <= y < h,
        w <= 127,
        h <= 127,
    ensures
        0 <= x * h + y < w * h,
        w * h <= 16129,
{
    assert(x * h + y < w * h && w * h <= 16129) by (nonlinear_arith)
        requires
            0 <= x < w,
            0 <= y < h,
            w <= 127,
            h <= 127,
    ;
    assert(x * h + y >= 0) by (nonlinear_arith)
        requires
            0 <= x,
            0 <= y,
            0 < h,
    ;
}

/// Distinct in-bounds coordinates have distinct flat indexes.
pub(crate) proof fn lemma_flat_index_injective(x1: int, y1: int, x2: int, y2: int, h: int)
    requires
        0 <= y1 < h,
        0 <= y2 < h,
        x1 * h + y1 == x2 * h + y2,
    ensures
        x1 == x2 && y1 == y2,
{
    assert(x1 == x2 && y1 == y2) by (nonlinear_arith)
        requires
            0 <= y1 < h,
            0 <= y2 < h,
            x1 * h + y1 == x2 * h + y2,
    ;
}

/// Two boards that agree pointwise, one the update of the other, are equal.
pub proof fn lemma_pointwise_upd(b1: BoardView, b2: BoardView, x: int, y: int, c: Cell)
    requires
        b1.dims_ok(),
        b2.dims_ok(),
        b2.width == b1.width,
        b2.height == b1.height,
        b2.game_over == b1.game_over,
        b2.game_won == b1.game_won,
        b1.in_bounds(x, y),
        forall|xx: int, yy: int|
            b1.in_bounds(xx, yy) ==> #[trigger] b2.at(xx, yy) == (if xx == x && yy == y {
                c
            } else {
                b1.at(xx, yy)
            }),
    ensures
        b2 == b1.upd(x, y, c),
{
    let u = b1.upd(x, y, c);
    assert forall|xx: int| 0 <= xx < b2.cells.len() implies b2.cells[xx] =~= u.cells[xx] by {
        assert forall|yy: int| 0 <= yy < b1.height implies b2.cells[xx][yy] == u.cells[xx][yy] by {
            assert(b2.at(xx, yy) == (if xx == x && yy == y {
                c
            } else {
                b1.at(xx, yy)
            }));
        }
    }
    assert(b2.cells =~~= u.cells);
    assert(b2 =~~= u);
}

} // verus!
