//! Board generation: the mine-placement pass (rejection sampling with a
//! deterministic fallback scan, so placement always completes) and the
//! initial reveal of the starting cell.

use vstd::prelude::*;
use vstd::arithmetic::div_mod::{
    lemma_div_is_ordered, lemma_div_multiples_vanish_fancy, lemma_div_pos_is_pos,
};
use crate::board::{lemma_same_mines_same_count, BoardView, Cell, Game, Point};
use crate::counts::{lemma_num_mines_full, lemma_num_mines_zero};
use crate::engine::{cascade_opens, lemma_flood_terrain, lemma_region_reflexive, lemma_same_terrain_regions, lemma_terrain_transfer};

verus! {

/// Relies on rand::random_range over `0..bound`: a uniform draw from the
/// half-open range, so the result is below the bound; the call panics only
/// on an empty range.
#[verifier::external_body]
fn random_below(bound: usize) -> (r: usize)
    requires
        bound > 0,
    ensures
        r < bound,
{
    rand::random_range(0..bound)
}

/// A density strictly under 100% asks for fewer mines than the grid has
/// cells, leaving room for the protected starting cell.
proof fn lemma_mine_count_bound(t: int, p: int)
    requires
        1 <= t,
        0 < p < 100,
    ensures
        0 <= t * p / 100 <= t - 1,
{
    assert(t * p <= 100 * (t - 1) + 99) by (nonlinear_arith)
        requires
            1 <= t && 0 < p < 100,
    ;
    lemma_div_is_ordered(t * p, 100 * (t - 1) + 99, 100);
    lemma_div_multiples_vanish_fancy(t - 1, 99, 100);
    assert(t * p >= 0) by (nonlinear_arith)
        requires
            t >= 1 && p > 0,
    ;
    lemma_div_pos_is_pos(t * p, 100);
}

/// Exact stored counts carry over to any board with the same terrain.
pub proof fn lemma_counts_same_terrain(b1: BoardView, b2: BoardView)
    requires
        b1.counts_ok(),
        b1.same_terrain(b2),
        b2.width == b1.width,
        b2.height == b1.height,
    ensures
        b2.counts_ok(),
{
    assert forall|x: int, y: int| b2.in_bounds(x, y) implies b2.at(x, y).connections == #[trigger]
    b2.adj_mines(x, y) by {
        assert(b1.at(x, y).connections == b1.adj_mines(x, y));
    }
}

impl Game {
    /// True iff the cell at (px, py) already carries a mine or is the
    /// protected starting cell.
    fn occupied_or_start(&self, px: usize, py: usize, start: &Point) -> (r: bool)
        requires
            self.wf(),
            px < self.grid_width,
            py < self.grid_height,
            0 <= start.x,
            0 <= start.y,
        ensures
            r == (self.bv().at(px as int, py as int).is_mined || (px as int == start.x as int
                && py as int == start.y as int)),
    {
        proof {
            self.lemma_wf_dims();
        }
        let c = self.cell_at(&Point { x: px as i8, y: py as i8 });
        c.is_mined || (px == start.x as usize && py == start.y as usize)
    }

    /// Scan for a cell that carries no mine and is not the protected start;
    /// one exists whenever the board has at least two mine-free cells.
    fn find_free(&self, start: &Point) -> (r: (usize, usize))
        requires
            self.wf(),
            self.bv().in_bounds(start.x as int, start.y as int),
            self.bv().num_mines() + 2 <= self.grid_width * self.grid_height,
        ensures
            r.0 < self.grid_width,
            r.1 < self.grid_height,
            !self.bv().at(r.0 as int, r.1 as int).is_mined,
            !(r.0 as int == start.x as int && r.1 as int == start.y as int),
    {
        proof {
            self.lemma_wf_dims();
        }
        let w = self.grid_width;
        let h = self.grid_height;
        for x in 0..w
            invariant
                self.wf(),
                w == self.grid_width,
                h == self.grid_height,
                self.bv().width == w as int,
                self.bv().height == h as int,
                0 <= start.x,
                0 <= start.y,
                forall|xx: int, yy: int|
                    0 <= xx < x && 0 <= yy < h as int ==> ((xx == start.x as int && yy
                        == start.y as int) || (#[trigger] self.bv().at(xx, yy)).is_mined),
        {
            for y in 0..h
                invariant
                    self.wf(),
                    w == self.grid_width,
                    h == self.grid_height,
                    x < w,
                    self.bv().width == w as int,
                    self.bv().height == h as int,
                    0 <= start.x,
                    0 <= start.y,
                    forall|xx: int, yy: int|
                        0 <= xx < x && 0 <= yy < h as int ==> ((xx == start.x as int && yy
                            == start.y as int) || (#[trigger] self.bv().at(xx, yy)).is_mined),
                    forall|yy: int|
                        0 <= yy < y ==> ((x as int == start.x as int && yy == start.y as int) || (
                        #[trigger] self.bv().at(x as int, yy)).is_mined),
            {
                if !self.occupied_or_start(x, y, start) {
                    return (x, y);
                }
            }
        }
        proof {
            lemma_num_mines_full(self.bv(), start.x as int, start.y as int);
            assert(false);
        }
        (0, 0)
    }

    /// Generate the board for the first reveal: replace the grid with a
    /// fresh all-default one, place `floor(width * height * density / 100)`
    /// mines at sampled coordinates while rejecting occupied cells and the
    /// protected start (a deterministic scan completes a placement whose
    /// sampling budget runs out), and reveal the starting cell, cascading if
    /// it is a zero-count cell. Clears the first-click flag.
    pub fn generate_grid(&mut self, start: &Point)
        requires
            old(self).wf(),
            old(self).bv().in_bounds(start.x as int, start.y as int),
        ensures
            final(self).wf(),
            final(self).grid_width == old(self).grid_width,
            final(self).grid_height == old(self).grid_height,
            final(self).mine_percent == old(self).mine_percent,
            final(self).grid_square == old(self).grid_square,
            !final(self).first_click,
            final(self).bv().width == old(self).bv().width,
            final(self).bv().height == old(self).bv().height,
            !final(self).bv().game_over,
            final(self).bv().game_won == final(self).bv().won_now(),
            final(self).bv().counts_ok(),
            final(self).bv().num_mines() == old(self).grid_width * old(self).grid_height * old(
                self,
            ).mine_percent / 100,
            !final(self).bv().at(start.x as int, start.y as int).is_mined,
            final(self).bv().at(start.x as int, start.y as int).is_open,
            forall|x: int, y: int|
                final(self).bv().in_bounds(x, y) ==> !((#[trigger] final(self).bv().at(
                    x,
                    y,
                )).is_flagged || final(self).bv().at(x, y).is_question),
            ({
                let bf = final(self).bv();
                let sxi = start.x as int;
                let syi = start.y as int;
                if bf.at(sxi, syi).connections == 0 {
                    forall|x: int, y: int|
                        bf.in_bounds(x, y) ==> ((#[trigger] bf.at(x, y)).is_open <==> cascade_opens(
                            bf,
                            sxi,
                            syi,
                            x,
                            y,
                        ))
                } else {
                    forall|x: int, y: int|
                        bf.in_bounds(x, y) ==> ((#[trigger] bf.at(x, y)).is_open <==> (x == sxi && y
                            == syi))
                }
            }),
    {
        let ghost g0 = *old(self);
        let ghost sxi = start.x as int;
        let ghost syi = start.y as int;
        proof {
            g0.lemma_wf_dims();
        }
        let w = self.grid_width;
        let h = self.grid_height;
        let fresh = Game::with_size(w, h, self.mine_percent, self.grid_square);
        *self = fresh;
        proof {
            self.lemma_wf_dims();
            assert forall|x: int, y: int|
                0 <= x < self.bv().cells.len() && 0 <= y < self.bv().height implies !(
            #[trigger] self.bv().at(x, y)).is_mined by {
                assert(self.bv().at(x, y) == Cell::blank());
            }
            lemma_num_mines_zero(self.bv());
            assert forall|x: int, y: int| self.bv().in_bounds(x, y) implies self.bv().at(
                x,
                y,
            ).connections == #[trigger] self.bv().adj_mines(x, y) by {
                assert(self.bv().at(x, y) == Cell::blank());
                assert(self.bv().adj_mines(x, y) == 0) by {
                    assert(self.bv().mine_at(x - 1, y - 1) == 0);
                    assert(self.bv().mine_at(x - 1, y) == 0);
                    assert(self.bv().mine_at(x - 1, y + 1) == 0);
                    assert(self.bv().mine_at(x, y - 1) == 0);
                    assert(self.bv().mine_at(x, y + 1) == 0);
                    assert(self.bv().mine_at(x + 1, y - 1) == 0);
                    assert(self.bv().mine_at(x + 1, y) == 0);
                    assert(self.bv().mine_at(x + 1, y + 1) == 0);
                }
            }
            crate::board::lemma_flat_index_in_range(
                w as int - 1,
                h as int - 1,
                w as int,
                h as int,
            );
            lemma_mine_count_bound((w * h) as int, self.mine_percent as int);
            assert((w * h) * self.mine_percent <= 16129 * 99) by (nonlinear_arith)
                requires
                    w * h <= 16129 && self.mine_percent <= 99,
            ;
        }
        let mine_count = w * h * self.mine_percent / 100;
        let ghost percent = self.mine_percent;
        for i in 0..mine_count
            invariant
                self.wf(),
                w == self.grid_width,
                h == self.grid_height,
                percent == self.mine_percent,
                g0.grid_width == w,
                g0.grid_height == h,
                g0.mine_percent == percent,
                g0.grid_square == self.grid_square,
                sxi == start.x as int,
                syi == start.y as int,
                0 <= sxi < w as int,
                0 <= syi < h as int,
                mine_count == (w * h * percent) / 100,
                mine_count + 1 <= w * h,
                self.bv().dims_ok(),
                self.bv().width == w as int,
                self.bv().height == h as int,
                !self.bv().game_over,
                !self.bv().game_won,
                self.bv().counts_ok(),
                self.bv().num_mines() == i,
                !self.bv().at(sxi, syi).is_mined,
                forall|x: int, y: int|
                    self.bv().in_bounds(x, y) ==> (!(#[trigger] self.bv().at(x, y)).is_open && !self.bv().at(
                        x,
                        y,
                    ).is_flagged && !self.bv().at(x, y).is_question),
        {
            let mut px = random_below(w);
            let mut py = random_below(h);
            let mut attempts: usize = 0;
            while attempts < 64 && self.occupied_or_start(px, py, start)
                invariant
                    self.wf(),
                    w == self.grid_width,
                    h == self.grid_height,
                    px < w,
                    py < h,
                    attempts <= 64,
                    0 <= start.x,
                    0 <= start.y,
                decreases 64 - attempts,
            {
                px = random_below(w);
                py = random_below(h);
                attempts = attempts + 1;
            }
            let picked: (usize, usize) = if !self.occupied_or_start(px, py, start) {
                (px, py)
            } else {
                self.find_free(start)
            };
            let ghost before = self.bv();
            self.place_mine(&Point { x: picked.0 as i8, y: picked.1 as i8 });
            proof {
                let mxi = picked.0 as int;
                let myi = picked.1 as int;
                assert(self.bv().at(sxi, syi) == before.after_mine(mxi, myi, sxi, syi));
                assert forall|x: int, y: int| self.bv().in_bounds(x, y) implies (!(
                #[trigger] self.bv().at(x, y)).is_open && !self.bv().at(x, y).is_flagged
                    && !self.bv().at(x, y).is_question) by {
                    assert(self.bv().at(x, y) == before.after_mine(mxi, myi, x, y));
                }
            }
        }
        let c = self.cell_at(start);
        let ghost bp = self.bv();
        if c.connections == 0 {
            self.cascade(start.x, start.y);
        } else {
            self.open_cell(start.x, start.y);
        }
        let ghost b1 = self.bv();
        let v = self.compute_won();
        self.set_game_won(v);
        self.set_first_click(false);
        proof {
            let bf = self.bv();
            if bp.at(sxi, syi).connections == 0 {
                lemma_flood_terrain(bp, sxi, syi);
            }
            assert(bp.same_terrain(b1));
            lemma_terrain_transfer(bp, b1, bf);
            assert(bp.same_terrain(bf));
            assert(bf.won_now() == b1.won_now()) by {
                assert(bf.game_over == b1.game_over);
                if b1.won_now() {
                    assert forall|x: int, y: int| bf.in_bounds(x, y) implies ((#[trigger] bf.at(
                        x,
                        y,
                    )).is_mined || bf.at(x, y).is_open) by {
                        assert(b1.at(x, y).is_mined || b1.at(x, y).is_open);
                    }
                }
                if bf.won_now() {
                    assert forall|x: int, y: int| b1.in_bounds(x, y) implies ((#[trigger] b1.at(
                        x,
                        y,
                    )).is_mined || b1.at(x, y).is_open) by {
                        assert(bf.at(x, y).is_mined || bf.at(x, y).is_open);
                    }
                }
            }
            lemma_same_terrain_regions(bp, bf, sxi, syi);
            lemma_counts_same_terrain(bp, bf);
            lemma_same_mines_same_count(bp, bf);
            assert(bf.at(sxi, syi).connections == bp.at(sxi, syi).connections);
            if bp.at(sxi, syi).connections == 0 {
                assert(bf.free(sxi, syi));
                lemma_region_reflexive(bf, sxi, syi);
                assert forall|x: int, y: int| bf.in_bounds(x, y) implies ((#[trigger] bf.at(
                    x,
                    y,
                )).is_open <==> cascade_opens(bf, sxi, syi, x, y)) by {
                    assert(bf.at(x, y).is_open == (bp.at(x, y).is_open || cascade_opens(
                        bp,
                        sxi,
                        syi,
                        x,
                        y,
                    )));
                    assert(!bp.at(x, y).is_open);
                }
            } else {
                assert forall|x: int, y: int| bf.in_bounds(x, y) implies ((#[trigger] bf.at(
                    x,
                    y,
                )).is_open <==> (x == sxi && y == syi)) by {
                    assert(bf.at(x, y) == b1.at(x, y));
                    assert(b1.at(x, y) == (if x == sxi && y == syi {
                        Cell { is_open: true, ..bp.at(sxi, syi) }
                    } else {
                        bp.at(x, y)
                    }));
                    assert(!bp.at(x, y).is_open);
                }
            }
        }
    }
}

} // verus!
