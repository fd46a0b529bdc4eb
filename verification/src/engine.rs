//! The exposure engine: the mathematical description of the cascading
//! reveal (a connected region of zero-count cells plus its numbered border)
//! and the lemmas that tie a worklist traversal to it.

use vstd::prelude::*;
use crate::board::{
    adjacent, lemma_adjacent_iff_neighbor, lemma_flat_index_in_range, lemma_flat_index_injective,
    neighbor_of, offset, spec_offset, BoardView, Cell, Game, Point,
};

verus! {

/// Every cell of `p` is a passage cell of `b`, and consecutive entries are
/// Moore-adjacent: a path the cascade can walk.
pub open spec fn is_free_path(b: BoardView, p: Seq<(int, int)>) -> bool {
    &&& forall|i: int| 0 <= i < p.len() ==> b.free((#[trigger] p[i]).0, p[i].1)
    &&& forall|i: int|
        0 <= i < p.len() - 1 ==> adjacent((#[trigger] p[i]).0, p[i].1, p[i + 1].0, p[i + 1].1)
}

/// (tx, ty) lies in the connected region of passage cells around (sx, sy).
pub open spec fn in_region(b: BoardView, sx: int, sy: int, tx: int, ty: int) -> bool {
    exists|p: Seq<(int, int)>|
        {
            &&& #[trigger] is_free_path(b, p)
            &&& p.len() > 0
            &&& p.first() == (sx, sy)
            &&& p.last() == (tx, ty)
        }
}

/// (x, y) is on the numbered border of the region around (sx, sy): an
/// unmarked cell with a nonzero count, Moore-adjacent to some region cell.
pub open spec fn on_border(b: BoardView, sx: int, sy: int, x: int, y: int) -> bool {
    &&& b.in_bounds(x, y)
    &&& b.at(x, y).connections > 0
    &&& !b.marked(x, y)
    &&& exists|rx: int, ry: int| #[trigger] in_region(b, sx, sy, rx, ry) && adjacent(rx, ry, x, y)
}

/// The cascade started at (sx, sy) reveals exactly the region and its border.
pub open spec fn cascade_opens(b: BoardView, sx: int, sy: int, x: int, y: int) -> bool {
    in_region(b, sx, sy, x, y) || on_border(b, sx, sy, x, y)
}

/// The flood-fill transform: the board with the region around (sx, sy) and
/// its numbered border revealed, and nothing else changed.
pub open spec fn flood(b: BoardView, sx: int, sy: int) -> BoardView {
    BoardView {
        cells: Seq::new(
            b.cells.len(),
            |x: int|
                Seq::new(
                    b.cells[x].len(),
                    |y: int|
                        Cell {
                            is_open: b.cells[x][y].is_open || cascade_opens(b, sx, sy, x, y),
                            ..b.cells[x][y]
                        },
                ),
        ),
        ..b
    }
}

/// (x, y) is an unmarked numbered cell adjacent to a member of `d`.
pub open spec fn border_of(b: BoardView, d: Set<(int, int)>, x: int, y: int) -> bool {
    &&& b.in_bounds(x, y)
    &&& b.at(x, y).connections > 0
    &&& !b.marked(x, y)
    &&& exists|qx: int, qy: int| #[trigger] d.contains((qx, qy)) && adjacent(qx, qy, x, y)
}

/// A passage cell is in its own region, by the one-cell path.
pub proof fn lemma_region_reflexive(b: BoardView, sx: int, sy: int)
    requires
        b.free(sx, sy),
    ensures
        in_region(b, sx, sy, sx, sy),
{
    let p: Seq<(int, int)> = seq![(sx, sy)];
    assert(is_free_path(b, p));
    assert(p.first() == (sx, sy) && p.last() == (sx, sy));
}

/// A passage cell adjacent to a region cell is itself in the region.
pub proof fn lemma_region_extend(b: BoardView, sx: int, sy: int, tx: int, ty: int, nx: int, ny: int)
    requires
        in_region(b, sx, sy, tx, ty),
        adjacent(tx, ty, nx, ny),
        b.free(nx, ny),
    ensures
        in_region(b, sx, sy, nx, ny),
{
    let p = choose|p: Seq<(int, int)>|
        {
            &&& #[trigger] is_free_path(b, p)
            &&& p.len() > 0
            &&& p.first() == (sx, sy)
            &&& p.last() == (tx, ty)
        };
    let q = p.push((nx, ny));
    assert forall|i: int| 0 <= i < q.len() implies b.free((#[trigger] q[i]).0, q[i].1) by {
        if i < p.len() {
            assert(q[i] == p[i]);
        }
    }
    assert forall|i: int| 0 <= i < q.len() - 1 implies adjacent(
        (#[trigger] q[i]).0,
        q[i].1,
        q[i + 1].0,
        q[i + 1].1,
    ) by {
        if i < p.len() - 1 {
            assert(q[i] == p[i] && q[i + 1] == p[i + 1]);
        } else {
            assert(q[i] == p.last() && q[i + 1] == (nx, ny));
        }
    }
    assert(is_free_path(b, q));
    assert(q.first() == (sx, sy) && q.last() == (nx, ny));
}

/// A set that holds the start and is closed under stepping to adjacent
/// passage cells holds the whole region.
pub proof fn lemma_region_in_closed_set(b: BoardView, sx: int, sy: int, s: Set<(int, int)>)
    requires
        s.contains((sx, sy)),
        forall|x: int, y: int, nx: int, ny: int|
            #[trigger] s.contains((x, y)) && adjacent(x, y, nx, ny) && #[trigger] b.free(nx, ny)
                ==> s.contains((nx, ny)),
    ensures
        forall|tx: int, ty: int| in_region(b, sx, sy, tx, ty) ==> #[trigger] s.contains((tx, ty)),
{
    assert forall|tx: int, ty: int| in_region(b, sx, sy, tx, ty) implies #[trigger] s.contains(
        (tx, ty),
    ) by {
        let p = choose|p: Seq<(int, int)>|
            {
                &&& #[trigger] is_free_path(b, p)
                &&& p.len() > 0
                &&& p.first() == (sx, sy)
                &&& p.last() == (tx, ty)
            };
        lemma_path_in_closed_set(b, p, s);
    }
}

proof fn lemma_path_in_closed_set(b: BoardView, p: Seq<(int, int)>, s: Set<(int, int)>)
    requires
        is_free_path(b, p),
        p.len() > 0,
        s.contains(p.first()),
        forall|x: int, y: int, nx: int, ny: int|
            #[trigger] s.contains((x, y)) && adjacent(x, y, nx, ny) && #[trigger] b.free(nx, ny)
                ==> s.contains((nx, ny)),
    ensures
        s.contains(p.last()),
    decreases p.len(),
{
    if p.len() > 1 {
        let q = p.drop_last();
        assert forall|i: int| 0 <= i < q.len() implies b.free((#[trigger] q[i]).0, q[i].1) by {
            assert(q[i] == p[i]);
        }
        assert forall|i: int| 0 <= i < q.len() - 1 implies adjacent(
            (#[trigger] q[i]).0,
            q[i].1,
            q[i + 1].0,
            q[i + 1].1,
        ) by {
            assert(q[i] == p[i] && q[i + 1] == p[i + 1]);
        }
        lemma_path_in_closed_set(b, q, s);
        let n = p.len() - 1;
        assert(adjacent(p[n - 1].0, p[n - 1].1, p[n].0, p[n].1));
        assert(b.free(p[n].0, p[n].1));
        assert(s.contains((p[n - 1].0, p[n - 1].1)));
    }
}

/// Paths only read the terrain, so two boards with the same terrain have the
/// same regions.
pub proof fn lemma_region_same_terrain(b1: BoardView, b2: BoardView, sx: int, sy: int)
    requires
        b1.same_terrain(b2),
        b2.width == b1.width,
        b2.height == b1.height,
    ensures
        forall|tx: int, ty: int|
            #[trigger] in_region(b1, sx, sy, tx, ty) == in_region(b2, sx, sy, tx, ty),
{
    assert forall|tx: int, ty: int| #[trigger] in_region(b1, sx, sy, tx, ty) == in_region(
        b2,
        sx,
        sy,
        tx,
        ty,
    ) by {
        if in_region(b1, sx, sy, tx, ty) {
            let p = choose|p: Seq<(int, int)>|
                {
                    &&& #[trigger] is_free_path(b1, p)
                    &&& p.len() > 0
                    &&& p.first() == (sx, sy)
                    &&& p.last() == (tx, ty)
                };
            lemma_path_same_terrain(b1, b2, p);
            assert(is_free_path(b2, p));
        }
        if in_region(b2, sx, sy, tx, ty) {
            let p = choose|p: Seq<(int, int)>|
                {
                    &&& #[trigger] is_free_path(b2, p)
                    &&& p.len() > 0
                    &&& p.first() == (sx, sy)
                    &&& p.last() == (tx, ty)
                };
            lemma_path_same_terrain(b2, b1, p);
            assert(is_free_path(b1, p));
        }
    }
}

proof fn lemma_path_same_terrain(b1: BoardView, b2: BoardView, p: Seq<(int, int)>)
    requires
        is_free_path(b1, p),
        b2.width == b1.width,
        b2.height == b1.height,
        forall|x: int, y: int|
            b1.in_bounds(x, y) ==> {
                let a = b1.at(x, y);
                let c = #[trigger] b2.at(x, y);
                c.connections == a.connections && c.is_mined == a.is_mined && c.is_flagged
                    == a.is_flagged && c.is_question == a.is_question
            },
    ensures
        is_free_path(b2, p),
{
    assert forall|i: int| 0 <= i < p.len() implies b2.free((#[trigger] p[i]).0, p[i].1) by {
        assert(b1.free(p[i].0, p[i].1));
        assert(b2.at(p[i].0, p[i].1).connections == b1.at(p[i].0, p[i].1).connections);
    }
}

/// `same_terrain` in the form `lemma_path_same_terrain` consumes.
pub proof fn lemma_same_terrain_regions(b1: BoardView, b2: BoardView, sx: int, sy: int)
    requires
        b1.same_terrain(b2),
        b2.width == b1.width,
        b2.height == b1.height,
    ensures
        forall|tx: int, ty: int|
            #[trigger] in_region(b1, sx, sy, tx, ty) == in_region(b2, sx, sy, tx, ty),
        forall|x: int, y: int| #[trigger] on_border(b1, sx, sy, x, y) == on_border(b2, sx, sy, x, y),
{
    lemma_region_same_terrain(b1, b2, sx, sy);
    assert forall|x: int, y: int| #[trigger] on_border(b1, sx, sy, x, y) == on_border(
        b2,
        sx,
        sy,
        x,
        y,
    ) by {
        if on_border(b1, sx, sy, x, y) {
            let (rx, ry) = choose|rx: int, ry: int|
                #[trigger] in_region(b1, sx, sy, rx, ry) && adjacent(rx, ry, x, y);
            assert(in_region(b2, sx, sy, rx, ry) && adjacent(rx, ry, x, y));
            assert(b2.at(x, y).connections == b1.at(x, y).connections);
        }
        if on_border(b2, sx, sy, x, y) {
            let (rx, ry) = choose|rx: int, ry: int|
                #[trigger] in_region(b2, sx, sy, rx, ry) && adjacent(rx, ry, x, y);
            assert(in_region(b1, sx, sy, rx, ry) && adjacent(rx, ry, x, y));
            assert(b1.at(x, y).connections == b2.at(x, y).connections);
        }
    }
}

/// Growing `d` by one cell grows its border by that cell's adjacency.
pub proof fn lemma_border_insert(b: BoardView, d: Set<(int, int)>, px: int, py: int)
    ensures
        forall|x: int, y: int|
            #[trigger] border_of(b, d.insert((px, py)), x, y) == (border_of(b, d, x, y) || (
            b.in_bounds(x, y) && b.at(x, y).connections > 0 && !b.marked(x, y) && adjacent(
                px,
                py,
                x,
                y,
            ))),
{
    let d2 = d.insert((px, py));
    assert forall|x: int, y: int| #[trigger] border_of(b, d2, x, y) == (border_of(b, d, x, y) || (
    b.in_bounds(x, y) && b.at(x, y).connections > 0 && !b.marked(x, y) && adjacent(
        px,
        py,
        x,
        y,
    ))) by {
        if border_of(b, d2, x, y) {
            let (qx, qy) = choose|qx: int, qy: int|
                #[trigger] d2.contains((qx, qy)) && adjacent(qx, qy, x, y);
            if (qx, qy) == (px, py) {
            } else {
                assert(d.contains((qx, qy)) && adjacent(qx, qy, x, y));
            }
        }
        if border_of(b, d, x, y) {
            let (qx, qy) = choose|qx: int, qy: int|
                #[trigger] d.contains((qx, qy)) && adjacent(qx, qy, x, y);
            assert(d2.contains((qx, qy)) && adjacent(qx, qy, x, y));
        }
        if b.in_bounds(x, y) && b.at(x, y).connections > 0 && !b.marked(x, y) && adjacent(
            px,
            py,
            x,
            y,
        ) {
            assert(d2.contains((px, py)) && adjacent(px, py, x, y));
        }
    }
}

/// A board that pointwise shows the cascade's openness formula is the flood
/// of the board it came from.
pub proof fn lemma_pointwise_flood(b1: BoardView, b2: BoardView, sx: int, sy: int)
    requires
        b1.dims_ok(),
        b2.dims_ok(),
        b2.width == b1.width,
        b2.height == b1.height,
        b2.game_over == b1.game_over,
        b2.game_won == b1.game_won,
        forall|x: int, y: int|
            b1.in_bounds(x, y) ==> #[trigger] b2.at(x, y) == (Cell {
                is_open: b1.at(x, y).is_open || cascade_opens(b1, sx, sy, x, y),
                ..b1.at(x, y)
            }),
    ensures
        b2 == flood(b1, sx, sy),
{
    let f = flood(b1, sx, sy);
    assert forall|x: int| 0 <= x < b2.cells.len() implies b2.cells[x] =~= f.cells[x] by {
        assert forall|y: int| 0 <= y < b1.height implies b2.cells[x][y] == f.cells[x][y] by {
            assert(b2.at(x, y) == (Cell {
                is_open: b1.at(x, y).is_open || cascade_opens(b1, sx, sy, x, y),
                ..b1.at(x, y)
            }));
        }
    }
    assert(b2.cells =~~= f.cells);
    assert(b2 =~~= f);
}

/// The bit the traversal keeps for the cell at (x, y) in a flat row-major
/// bitmap of row length h.
pub open spec fn seen_at(s: Seq<bool>, h: int, x: int, y: int) -> bool {
    s[x * h + y]
}

/// Some entry of the worklist is the coordinate (x, y).
pub open spec fn stack_has(st: Seq<Point>, x: int, y: int) -> bool {
    exists|i: int| 0 <= i < st.len() && (#[trigger] st[i]).x as int == x && st[i].y as int == y
}

/// How many bits of the bitmap are set.
pub open spec fn count_true(s: Seq<bool>) -> nat
    decreases s.len(),
{
    if s.len() == 0 {
        0
    } else {
        count_true(s.drop_last()) + if s.last() {
            1nat
        } else {
            0nat
        }
    }
}

proof fn lemma_count_true_le(s: Seq<bool>)
    ensures
        count_true(s) <= s.len(),
    decreases s.len(),
{
    if s.len() > 0 {
        lemma_count_true_le(s.drop_last());
    }
}

proof fn lemma_count_true_set(s: Seq<bool>, i: int)
    requires
        0 <= i < s.len(),
        !s[i],
    ensures
        count_true(s.update(i, true)) == count_true(s) + 1,
    decreases s.len(),
{
    let s2 = s.update(i, true);
    if i == s.len() - 1 {
        assert(s2.drop_last() =~= s.drop_last());
    } else {
        assert(s2.drop_last() =~= s.drop_last().update(i, true));
        lemma_count_true_set(s.drop_last(), i);
    }
}

/// Setting the bit of one coordinate, read back coordinate by coordinate.
proof fn lemma_seen_update(s1: Seq<bool>, s2: Seq<bool>, w: int, h: int, nx: int, ny: int)
    requires
        0 < w <= 127,
        0 < h <= 127,
        s1.len() == w * h,
        0 <= nx < w,
        0 <= ny < h,
        s2 == s1.update(nx * h + ny, true),
    ensures
        s2.len() == s1.len(),
        forall|x: int, y: int|
            0 <= x < w && 0 <= y < h ==> #[trigger] seen_at(s2, h, x, y) == (seen_at(s1, h, x, y)
                || (x == nx && y == ny)),
{
    lemma_flat_index_in_range(nx, ny, w, h);
    assert forall|x: int, y: int| 0 <= x < w && 0 <= y < h implies #[trigger] seen_at(s2, h, x, y)
        == (seen_at(s1, h, x, y) || (x == nx && y == ny)) by {
        lemma_flat_index_in_range(x, y, w, h);
        if x * h + y == nx * h + ny {
            lemma_flat_index_injective(x, y, nx, ny, h);
        }
    }
}

/// A region member is itself a passage cell.
pub proof fn lemma_region_member_free(b: BoardView, sx: int, sy: int, tx: int, ty: int)
    requires
        in_region(b, sx, sy, tx, ty),
    ensures
        b.free(tx, ty),
{
    let p = choose|p: Seq<(int, int)>|
        {
            &&& #[trigger] is_free_path(b, p)
            &&& p.len() > 0
            &&& p.first() == (sx, sy)
            &&& p.last() == (tx, ty)
        };
    assert(b.free(p[p.len() - 1].0, p[p.len() - 1].1));
}

/// Terrain agreement is transitive.
proof fn lemma_terrain_trans(b0: BoardView, b1: BoardView, b2: BoardView)
    requires
        b0.same_terrain(b1),
        b1.same_terrain(b2),
    ensures
        b0.same_terrain(b2),
{
    assert forall|x: int, y: int| b0.in_bounds(x, y) implies {
        let a = b0.at(x, y);
        let c = #[trigger] b2.at(x, y);
        c.connections == a.connections && c.is_mined == a.is_mined && c.is_flagged == a.is_flagged
            && c.is_question == a.is_question
    } by {
        let m = b1.at(x, y);
        assert(m.connections == b0.at(x, y).connections && m.is_mined == b0.at(x, y).is_mined
            && m.is_flagged == b0.at(x, y).is_flagged && m.is_question == b0.at(x, y).is_question);
    }
}

impl Game {
    /// The worklist flood fill: starting from an in-bounds passage cell,
    /// reveal the whole connected region of passage cells around it together
    /// with its numbered, unmarked border, and nothing else.
    #[verifier::rlimit(100)]
    pub(crate) fn cascade(&mut self, sx: i8, sy: i8)
        requires
            old(self).wf(),
            old(self).bv().free(sx as int, sy as int),
        ensures
            final(self).wf(),
            old(self).same_config(*final(self)),
            final(self).bv() == flood(old(self).bv(), sx as int, sy as int),
    {
        let ghost g0 = *old(self);
        let ghost b0 = old(self).bv();
        let ghost sxi = sx as int;
        let ghost syi = sy as int;
        proof {
            g0.lemma_wf_dims();
        }
        let h = self.grid_height;
        let w = self.grid_width;
        let total = self.grid.len();
        let mut seen: Vec<bool> = Vec::new();
        for i in 0..total
            invariant
                seen@.len() == i,
                forall|j: int| 0 <= j < i ==> !(#[trigger] seen@[j]),
        {
            seen.push(false);
        }
        proof {
            assert forall|x: int, y: int| 0 <= x < w as int && 0 <= y < h as int implies !(
            #[trigger] seen_at(seen@, h as int, x, y)) by {
                lemma_flat_index_in_range(x, y, w as int, h as int);
            }
        }
        let si = self.flat_index(sx, sy);
        let ghost seen_pre = seen@;
        seen[si] = true;
        let mut stack: Vec<Point> = Vec::new();
        stack.push(Point { x: sx, y: sy });
        let ghost mut d: Set<(int, int)> = Set::empty();
        proof {
            lemma_region_reflexive(b0, sxi, syi);
            lemma_seen_update(seen_pre, seen@, w as int, h as int, sxi, syi);
            lemma_count_true_le(seen@);
            assert(stack@[0] == Point { x: sx, y: sy });
            assert(stack_has(stack@, sxi, syi));
        }
        while stack.len() != 0
            invariant
                self.wf(),
                g0.same_config(*self),
                h == g0.grid_height,
                w == g0.grid_width,
                total == g0.grid_width * g0.grid_height,
                b0 == g0.bv(),
                b0.dims_ok(),
                b0.width == w as int,
                b0.height == h as int,
                b0.free(sxi, syi),
                self.bv().dims_ok(),
                self.bv().width == b0.width,
                self.bv().height == b0.height,
                self.bv().game_over == b0.game_over,
                self.bv().game_won == b0.game_won,
                b0.same_terrain(self.bv()),
                seen@.len() == total,
                count_true(seen@) <= total,
                seen_at(seen@, h as int, sxi, syi),
                forall|x: int, y: int|
                    b0.in_bounds(x, y) && #[trigger] seen_at(seen@, h as int, x, y) ==> in_region(
                        b0,
                        sxi,
                        syi,
                        x,
                        y,
                    ),
                forall|i: int|
                    0 <= i < stack@.len() ==> b0.in_bounds(
                        (#[trigger] stack@[i]).x as int,
                        stack@[i].y as int,
                    ) && seen_at(seen@, h as int, stack@[i].x as int, stack@[i].y as int),
                forall|x: int, y: int|
                    #[trigger] d.contains((x, y)) ==> b0.in_bounds(x, y) && in_region(
                        b0,
                        sxi,
                        syi,
                        x,
                        y,
                    ),
                forall|x: int, y: int|
                    b0.in_bounds(x, y) ==> ((#[trigger] self.bv().at(x, y)).is_open <==> (b0.at(
                        x,
                        y,
                    ).is_open || d.contains((x, y)) || border_of(b0, d, x, y))),
                forall|x: int, y: int, i: int|
                    #[trigger] d.contains((x, y)) && 0 <= i < 8 && b0.free(
                        (#[trigger] neighbor_of(x, y, i)).0,
                        neighbor_of(x, y, i).1,
                    ) ==> seen_at(seen@, h as int, neighbor_of(x, y, i).0, neighbor_of(x, y, i).1),
                forall|x: int, y: int|
                    b0.in_bounds(x, y) && #[trigger] seen_at(seen@, h as int, x, y) ==> (d.contains(
                        (x, y),
                    ) || stack_has(stack@, x, y)),
            decreases 9 * (total - count_true(seen@)) + stack@.len(),
        {
            let ghost stack_pre = stack@;
            let p = stack.pop().unwrap();
            let ghost pxi = p.x as int;
            let ghost pyi = p.y as int;
            let ghost d0 = d;
            proof {
                assert(stack_pre[stack_pre.len() - 1] == p);
                assert(b0.in_bounds(pxi, pyi) && seen_at(seen@, h as int, pxi, pyi));
                assert(in_region(b0, sxi, syi, pxi, pyi));
                lemma_region_member_free(b0, sxi, syi, pxi, pyi);
            }
            let ghost ct0 = count_true(seen@);
            let ghost cur0 = self.bv();
            self.open_cell(p.x, p.y);
            proof {
                lemma_terrain_trans(b0, cur0, self.bv());
                assert forall|x: int, y: int|
                    b0.in_bounds(x, y) && #[trigger] seen_at(seen@, h as int, x, y) implies (
                d0.contains((x, y)) || (x == pxi && y == pyi) || stack_has(stack@, x, y)) by {
                    if stack_has(stack_pre, x, y) {
                        let i = choose|i: int|
                            0 <= i < stack_pre.len() && (#[trigger] stack_pre[i]).x as int == x
                                && stack_pre[i].y as int == y;
                        if i < stack_pre.len() - 1 {
                            assert(stack@[i] == stack_pre[i]);
                            assert(stack_has(stack@, x, y));
                        }
                    }
                }
            }
            for k in 0..8usize
                invariant
                    self.wf(),
                    g0.same_config(*self),
                    h == g0.grid_height,
                    w == g0.grid_width,
                    total == g0.grid_width * g0.grid_height,
                    b0 == g0.bv(),
                    b0.dims_ok(),
                    b0.width == w as int,
                    b0.height == h as int,
                    b0.free(sxi, syi),
                    b0.in_bounds(pxi, pyi),
                    b0.free(pxi, pyi),
                    pxi == p.x as int,
                    pyi == p.y as int,
                    in_region(b0, sxi, syi, pxi, pyi),
                    self.bv().dims_ok(),
                    self.bv().width == b0.width,
                    self.bv().height == b0.height,
                    self.bv().game_over == b0.game_over,
                    self.bv().game_won == b0.game_won,
                    b0.same_terrain(self.bv()),
                    seen@.len() == total,
                    count_true(seen@) <= total,
                    seen_at(seen@, h as int, sxi, syi),
                    seen_at(seen@, h as int, pxi, pyi),
                    d == d0,
                    ct0 <= count_true(seen@),
                    stack@.len() + ct0 == stack_pre.len() - 1 + count_true(seen@),
                    forall|x: int, y: int|
                        b0.in_bounds(x, y) && #[trigger] seen_at(seen@, h as int, x, y)
                            ==> in_region(b0, sxi, syi, x, y),
                    forall|i: int|
                        0 <= i < stack@.len() ==> b0.in_bounds(
                            (#[trigger] stack@[i]).x as int,
                            stack@[i].y as int,
                        ) && seen_at(seen@, h as int, stack@[i].x as int, stack@[i].y as int),
                    forall|x: int, y: int|
                        #[trigger] d.contains((x, y)) ==> b0.in_bounds(x, y) && in_region(
                            b0,
                            sxi,
                            syi,
                            x,
                            y,
                        ),
                    forall|x: int, y: int|
                        b0.in_bounds(x, y) ==> ((#[trigger] self.bv().at(x, y)).is_open <==> (
                        b0.at(x, y).is_open || d.contains((x, y)) || border_of(b0, d, x, y) || (x
                            == pxi && y == pyi) || (b0.at(x, y).connections > 0 && !b0.marked(x, y)
                            && crate::board::hit_before(pxi, pyi, k as int, x, y)))),
                    forall|x: int, y: int, i: int|
                        #[trigger] d.contains((x, y)) && 0 <= i < 8 && b0.free(
                            (#[trigger] neighbor_of(x, y, i)).0,
                            neighbor_of(x, y, i).1,
                        ) ==> seen_at(
                            seen@,
                            h as int,
                            neighbor_of(x, y, i).0,
                            neighbor_of(x, y, i).1,
                        ),
                    forall|i: int|
                        0 <= i < k ==> (b0.free(
                            (#[trigger] neighbor_of(pxi, pyi, i)).0,
                            neighbor_of(pxi, pyi, i).1,
                        ) ==> seen_at(
                            seen@,
                            h as int,
                            neighbor_of(pxi, pyi, i).0,
                            neighbor_of(pxi, pyi, i).1,
                        )),
                    forall|x: int, y: int|
                        b0.in_bounds(x, y) && #[trigger] seen_at(seen@, h as int, x, y) ==> (
                        d.contains((x, y)) || (x == pxi && y == pyi) || stack_has(stack@, x, y)),
            {
                let dd = offset(k);
                let nx = p.x + dd.0;
                let ny = p.y + dd.1;
                let npt = Point { x: nx, y: ny };
                proof {
                    assert((nx as int, ny as int) == neighbor_of(pxi, pyi, k as int));
                }
                let ghost seen_k = seen@;
                let ghost stack_k = stack@;
                let ghost cur_k = self.bv();
                if self.in_grid(&npt) {
                    let c = self.cell_at(&npt);
                    if c.connections > 0 && !c.is_flagged && !c.is_question {
                        self.open_cell(nx, ny);
                        proof {
                            lemma_terrain_trans(b0, cur_k, self.bv());
                            assert forall|x: int, y: int| b0.in_bounds(x, y) implies ((
                            #[trigger] self.bv().at(x, y)).is_open <==> (b0.at(x, y).is_open
                                || d.contains((x, y)) || border_of(b0, d, x, y) || (x == pxi && y
                                == pyi) || (b0.at(x, y).connections > 0 && !b0.marked(x, y)
                                && crate::board::hit_before(pxi, pyi, k as int + 1, x, y)))) by {
                                assert(b0.at(x, y).connections == cur_k.at(x, y).connections);
                                assert(b0.at(x, y).is_flagged == cur_k.at(x, y).is_flagged);
                                assert(b0.at(x, y).is_question == cur_k.at(x, y).is_question);
                                if x == nx as int && y == ny as int {
                                    assert(crate::board::hit_before(
                                        pxi,
                                        pyi,
                                        k as int + 1,
                                        x,
                                        y,
                                    ));
                                } else {
                                    assert(self.bv().at(x, y) == cur_k.at(x, y));
                                    if crate::board::hit_before(pxi, pyi, k as int + 1, x, y)
                                        && !crate::board::hit_before(pxi, pyi, k as int, x, y) {
                                        let i = choose|i: int|
                                            0 <= i < k as int + 1 && (x, y) == #[trigger] neighbor_of(
                                                pxi,
                                                pyi,
                                                i,
                                            );
                                        assert(i == k as int);
                                        assert(false);
                                    }
                                }
                            }
                        }
                    } else if c.connections == 0 && !c.is_flagged && !c.is_question {
                        let fi = self.flat_index(nx, ny);
                        if !seen[fi] {
                            let ghost seen_pre2 = seen@;
                            seen[fi] = true;
                            stack.push(npt);
                            proof {
                                lemma_seen_update(
                                    seen_pre2,
                                    seen@,
                                    w as int,
                                    h as int,
                                    nx as int,
                                    ny as int,
                                );
                                lemma_count_true_set(seen_pre2, nx as int * h as int + ny as int);
                                lemma_count_true_le(seen@);
                                lemma_region_extend(
                                    b0,
                                    sxi,
                                    syi,
                                    pxi,
                                    pyi,
                                    nx as int,
                                    ny as int,
                                );
                                assert(stack@ == stack_k.push(npt));
                                assert forall|x: int, y: int|
                                    b0.in_bounds(x, y) && #[trigger] seen_at(
                                        seen@,
                                        h as int,
                                        x,
                                        y,
                                    ) implies (d.contains((x, y)) || (x == pxi && y == pyi)
                                    || stack_has(stack@, x, y)) by {
                                    if x == nx as int && y == ny as int {
                                        assert(stack@[stack@.len() - 1] == npt);
                                        assert(stack_has(stack@, x, y));
                                    } else {
                                        assert(seen_at(seen_pre2, h as int, x, y) == seen_at(
                                            seen@,
                                            h as int,
                                            x,
                                            y,
                                        ));
                                        if stack_has(stack_k, x, y) {
                                            let i = choose|i: int|
                                                0 <= i < stack_k.len() && (#[trigger] stack_k[i]).x
                                                    as int == x && stack_k[i].y as int == y;
                                            assert(stack@[i] == stack_k[i]);
                                            assert(stack_has(stack@, x, y));
                                        }
                                    }
                                }
                                assert forall|i: int| 0 <= i < stack@.len() implies b0.in_bounds(
                                    (#[trigger] stack@[i]).x as int,
                                    stack@[i].y as int,
                                ) && seen_at(
                                    seen@,
                                    h as int,
                                    stack@[i].x as int,
                                    stack@[i].y as int,
                                ) by {
                                    if i < stack_k.len() {
                                        assert(stack@[i] == stack_k[i]);
                                        assert(seen_at(
                                            seen_k,
                                            h as int,
                                            stack_k[i].x as int,
                                            stack_k[i].y as int,
                                        ));
                                    }
                                }
                            }
                        }
                    }
                }
                proof {
                    assert forall|x: int, y: int| b0.in_bounds(x, y) implies ((
                    #[trigger] self.bv().at(x, y)).is_open <==> (b0.at(x, y).is_open || d.contains(
                        (x, y),
                    ) || border_of(b0, d, x, y) || (x == pxi && y == pyi) || (b0.at(
                        x,
                        y,
                    ).connections > 0 && !b0.marked(x, y) && crate::board::hit_before(
                        pxi,
                        pyi,
                        k as int + 1,
                        x,
                        y,
                    )))) by {
                        if self.bv().at(x, y) == cur_k.at(x, y) {
                            if crate::board::hit_before(pxi, pyi, k as int + 1, x, y)
                                && !crate::board::hit_before(pxi, pyi, k as int, x, y) {
                                let i = choose|i: int|
                                    0 <= i < k as int + 1 && (x, y) == #[trigger] neighbor_of(
                                        pxi,
                                        pyi,
                                        i,
                                    );
                                assert(i == k as int);
                                assert((x, y) == (nx as int, ny as int));
                                assert(b0.in_bounds(nx as int, ny as int));
                                assert(b0.at(x, y).connections == cur_k.at(x, y).connections);
                            }
                        }
                    }
                }
            }
            proof {
                d = d0.insert((pxi, pyi));
                lemma_border_insert(b0, d0, pxi, pyi);
                assert forall|x: int, y: int| b0.in_bounds(x, y) implies ((#[trigger] self.bv().at(
                    x,
                    y,
                )).is_open <==> (b0.at(x, y).is_open || d.contains((x, y)) || border_of(
                    b0,
                    d,
                    x,
                    y,
                ))) by {
                    lemma_adjacent_iff_neighbor(pxi, pyi, x, y);
                }
                assert forall|x: int, y: int, i: int|
                    #[trigger] d.contains((x, y)) && 0 <= i < 8 && b0.free(
                        (#[trigger] neighbor_of(x, y, i)).0,
                        neighbor_of(x, y, i).1,
                    ) implies seen_at(
                    seen@,
                    h as int,
                    neighbor_of(x, y, i).0,
                    neighbor_of(x, y, i).1,
                ) by {
                    if (x, y) == (pxi, pyi) {
                    } else {
                        assert(d0.contains((x, y)));
                    }
                }
            }
        }
        proof {
            assert(d.contains((sxi, syi)));
            assert forall|x: int, y: int, nx2: int, ny2: int|
                #[trigger] d.contains((x, y)) && adjacent(x, y, nx2, ny2) && #[trigger] b0.free(
                    nx2,
                    ny2,
                ) implies d.contains((nx2, ny2)) by {
                lemma_adjacent_iff_neighbor(x, y, nx2, ny2);
                let i = choose|i: int| 0 <= i < 8 && (nx2, ny2) == #[trigger] neighbor_of(x, y, i);
                assert(seen_at(seen@, h as int, nx2, ny2));
            }
            lemma_region_in_closed_set(b0, sxi, syi, d);
            assert forall|x: int, y: int| b0.in_bounds(x, y) implies #[trigger] self.bv().at(x, y)
                == (Cell {
                is_open: b0.at(x, y).is_open || cascade_opens(b0, sxi, syi, x, y),
                ..b0.at(x, y)
            }) by {
                assert(d.contains((x, y)) == in_region(b0, sxi, syi, x, y));
                assert(border_of(b0, d, x, y) == on_border(b0, sxi, syi, x, y)) by {
                    if border_of(b0, d, x, y) {
                        let (qx, qy) = choose|qx: int, qy: int|
                            #[trigger] d.contains((qx, qy)) && adjacent(qx, qy, x, y);
                        assert(in_region(b0, sxi, syi, qx, qy) && adjacent(qx, qy, x, y));
                    }
                    if on_border(b0, sxi, syi, x, y) {
                        let (rx, ry) = choose|rx: int, ry: int|
                            #[trigger] in_region(b0, sxi, syi, rx, ry) && adjacent(rx, ry, x, y);
                        assert(d.contains((rx, ry)) && adjacent(rx, ry, x, y));
                    }
                }
            }
            lemma_pointwise_flood(b0, self.bv(), sxi, syi);
        }
    }
}

/// What a primary reveal does to the board. A marker protects the cell
/// entirely; a hidden mine loses the game and reveals everything; a zero
/// count cascades; a hidden numbered cell is revealed alone; an already-open
/// numbered cell does not cascade. Any branch that revealed something
/// refreshes the win flag.
pub open spec fn expose_fn(b: BoardView, x: int, y: int) -> BoardView {
    let c = b.at(x, y);
    if c.is_flagged || c.is_question {
        b
    } else if !c.is_open && c.is_mined {
        b.lose()
    } else if c.connections == 0 {
        flood(b, x, y).set_won()
    } else if !c.is_open {
        b.open_at(x, y).set_won()
    } else {
        b
    }
}

impl Game {
    /// The primary reveal on an in-bounds coordinate, exactly `expose_fn`.
    pub fn expose(&mut self, pos: &Point)
        requires
            old(self).wf(),
            old(self).bv().in_bounds(pos.x as int, pos.y as int),
        ensures
            final(self).wf(),
            old(self).same_config(*final(self)),
            final(self).bv() == expose_fn(old(self).bv(), pos.x as int, pos.y as int),
    {
        proof {
            old(self).lemma_wf_dims();
        }
        let ghost b0 = old(self).bv();
        let c = self.cell_at(pos);
        if c.is_flagged || c.is_question {
            return ;
        }
        if !c.is_open && c.is_mined {
            self.lose_game();
            return ;
        }
        if c.connections == 0 {
            self.cascade(pos.x, pos.y);
            let v = self.compute_won();
            self.set_game_won(v);
            return ;
        }
        if !c.is_open {
            self.open_cell(pos.x, pos.y);
            proof {
                crate::board::lemma_pointwise_upd(
                    b0,
                    self.bv(),
                    pos.x as int,
                    pos.y as int,
                    Cell { is_open: true, ..b0.at(pos.x as int, pos.y as int) },
                );
            }
            let v = self.compute_won();
            self.set_game_won(v);
            return ;
        }
    }

    /// The bare cascade, as generation invokes it on the starting cell:
    /// reveal the region around a passage cell and its border, then refresh
    /// the win flag.
    pub fn expose_open(&mut self, pos: &Point)
        requires
            old(self).wf(),
            old(self).bv().free(pos.x as int, pos.y as int),
        ensures
            final(self).wf(),
            old(self).same_config(*final(self)),
            final(self).bv() == flood(old(self).bv(), pos.x as int, pos.y as int).set_won(),
    {
        self.cascade(pos.x, pos.y);
        let v = self.compute_won();
        self.set_game_won(v);
    }
}

/// What the chord does to one neighbor: a marked neighbor is forced back to
/// hidden (the "unchord"), a mined one loses the game, a zero-count one
/// cascades, and any other safe neighbor is revealed.
pub open spec fn chord_step(b: BoardView, x: int, y: int) -> BoardView {
    if !b.in_bounds(x, y) {
        b
    } else {
        let c = b.at(x, y);
        if c.is_flagged || c.is_question {
            b.close_at(x, y)
        } else if c.is_mined {
            b.lose()
        } else if c.connections == 0 {
            flood(b, x, y)
        } else {
            b.open_at(x, y)
        }
    }
}

/// The chord after its first k neighbor visits, in offset order.
pub open spec fn chord_upto(b: BoardView, px: int, py: int, k: int) -> BoardView
    decreases k,
{
    if k <= 0 {
        b
    } else {
        let prev = chord_upto(b, px, py, k - 1);
        chord_step(prev, px + spec_offset(k - 1).0, py + spec_offset(k - 1).1)
    }
}

/// What the whole chord does: visit all eight neighbors in order, then
/// refresh the win flag.
pub open spec fn chord_fn(b: BoardView, px: int, py: int) -> BoardView {
    chord_upto(b, px, py, 8).set_won()
}

impl Game {
    /// The chord on an in-bounds coordinate: each of the eight neighbors is
    /// visited once, in offset order, exactly as `chord_fn` describes.
    pub fn expose_neighbors(&mut self, pos: &Point)
        requires
            old(self).wf(),
            old(self).bv().in_bounds(pos.x as int, pos.y as int),
        ensures
            final(self).wf(),
            old(self).same_config(*final(self)),
            final(self).bv() == chord_fn(old(self).bv(), pos.x as int, pos.y as int),
    {
        proof {
            old(self).lemma_wf_dims();
        }
        let ghost g0 = *old(self);
        let ghost b0 = old(self).bv();
        let ghost pxi = pos.x as int;
        let ghost pyi = pos.y as int;
        let px = pos.x;
        let py = pos.y;
        for k in 0..8usize
            invariant
                self.wf(),
                g0.same_config(*self),
                b0 == g0.bv(),
                b0.dims_ok(),
                b0.in_bounds(pxi, pyi),
                pxi == px as int,
                pyi == py as int,
                self.bv().dims_ok(),
                self.bv().width == b0.width,
                self.bv().height == b0.height,
                self.bv() == chord_upto(b0, pxi, pyi, k as int),
        {
            let ghost prev = self.bv();
            let dd = offset(k);
            let nx = px + dd.0;
            let ny = py + dd.1;
            let npt = Point { x: nx, y: ny };
            proof {
                assert((nx as int, ny as int) == (pxi + spec_offset(k as int).0, pyi + spec_offset(
                    k as int,
                ).1));
            }
            if self.in_grid(&npt) {
                let c = self.cell_at(&npt);
                if c.is_flagged || c.is_question {
                    let mut c2 = c;
                    c2.is_open = false;
                    self.set_cell(nx, ny, c2);
                } else if c.is_mined {
                    self.lose_game();
                } else if c.connections == 0 {
                    self.cascade(nx, ny);
                } else {
                    self.open_cell(nx, ny);
                    proof {
                        crate::board::lemma_pointwise_upd(
                            prev,
                            self.bv(),
                            nx as int,
                            ny as int,
                            Cell { is_open: true, ..prev.at(nx as int, ny as int) },
                        );
                    }
                }
            }
            proof {
                assert(self.bv() == chord_step(prev, nx as int, ny as int));
                assert(self.bv() == chord_upto(b0, pxi, pyi, k as int + 1));
            }
        }
        let v = self.compute_won();
        self.set_game_won(v);
    }
}

/// The flood transform only flips `is_open` bits: dimensions, flags and the
/// terrain stay, and the new openness is exactly the cascade formula.
pub proof fn lemma_flood_terrain(b: BoardView, sx: int, sy: int)
    requires
        b.dims_ok(),
    ensures
        flood(b, sx, sy).dims_ok(),
        b.same_terrain(flood(b, sx, sy)),
        forall|x: int, y: int|
            b.in_bounds(x, y) ==> (#[trigger] flood(b, sx, sy).at(x, y)) == (Cell {
                is_open: b.at(x, y).is_open || cascade_opens(b, sx, sy, x, y),
                ..b.at(x, y)
            }),
{
    let f = flood(b, sx, sy);
    assert forall|x: int, y: int| b.in_bounds(x, y) implies (#[trigger] f.at(x, y)) == (Cell {
        is_open: b.at(x, y).is_open || cascade_opens(b, sx, sy, x, y),
        ..b.at(x, y)
    }) by {}
}

/// The loss transform only opens cells: dimensions and terrain stay, every
/// cell is open, and the loss flag is set.
pub proof fn lemma_lose_facts(b: BoardView)
    requires
        b.dims_ok(),
    ensures
        b.lose().dims_ok(),
        b.lose().width == b.width,
        b.lose().height == b.height,
        b.lose().game_over,
        !b.lose().game_won,
        b.same_terrain(b.lose()),
        forall|x: int, y: int|
            b.in_bounds(x, y) ==> (#[trigger] b.lose().at(x, y)) == (Cell {
                is_open: true,
                ..b.at(x, y)
            }),
{
    let f = b.lose();
    assert forall|x: int, y: int| b.in_bounds(x, y) implies (#[trigger] f.at(x, y)) == (Cell {
        is_open: true,
        ..b.at(x, y)
    }) by {}
}

/// Terrain agreement survives a change that leaves the cells untouched.
pub proof fn lemma_terrain_transfer(b0: BoardView, b1: BoardView, b2: BoardView)
    requires
        b0.same_terrain(b1),
        b2.cells == b1.cells,
        b2.width == b1.width,
        b2.height == b1.height,
    ensures
        b0.same_terrain(b2),
{
    assert forall|x: int, y: int| b0.in_bounds(x, y) implies {
        let a = b0.at(x, y);
        let c = #[trigger] b2.at(x, y);
        c.connections == a.connections && c.is_mined == a.is_mined && c.is_flagged == a.is_flagged
            && c.is_question == a.is_question
    } by {
        assert(b2.at(x, y) == b1.at(x, y));
    }
}

} // verus!
