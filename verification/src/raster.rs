//! Line rasterization.
//!
//! A segment between two normalized positions is drawn by stepping whole
//! cells along the axis with the larger scaled delta (the driving axis)
//! and moving the other axis by truncated proportional interpolation. The
//! four sign combinations share one formula on signed deltas; ties between
//! the deltas let the y axis drive.

use vstd::prelude::*;
use vstd::arithmetic::div_mod::lemma_div_is_ordered;
use vstd::arithmetic::div_mod::lemma_div_multiples_vanish;
use vstd::arithmetic::div_mod::lemma_div_pos_is_pos;
use vstd::arithmetic::div_mod::lemma_fundamental_div_mod;
use vstd::arithmetic::div_mod::lemma_fundamental_div_mod_converse;
use vstd::arithmetic::div_mod::lemma_mod_bound;
use vstd::arithmetic::mul::lemma_mul_upper_bound;
use crate::color::Col;
use crate::color::Pixel;
use crate::frame::Frac;
use crate::frame::TermDraw;
use crate::frame::scale_coord;
use crate::frame::write_at;

verus! {

/// Unsigned magnitude of the difference of two coordinates.
pub open spec fn delta(a: int, b: int) -> int {
    if b >= a {
        b - a
    } else {
        a - b
    }
}

/// The driving-axis coordinate after `i` whole-cell steps from `s` toward
/// `e`.
pub open spec fn axis_step(s: int, e: int, i: int) -> int {
    if e >= s {
        s + i
    } else {
        s - i
    }
}

/// The dependent-axis coordinate after `i` driving steps: `s` moved toward
/// `e` by the truncated proportional offset `d * i / len`, where `d` is the
/// dependent delta and `len` the driving delta. A driving delta of zero
/// only arises for coincident scaled endpoints, where the coordinate stays
/// put.
pub open spec fn cross_step(s: int, e: int, d: int, i: int, len: int) -> int {
    if len == 0 {
        s
    } else if e >= s {
        s + d * i / len
    } else {
        s - d * i / len
    }
}

/// The cell a segment from `(sx, sy)` to `(ex, ey)` covers at driving-axis
/// offset `i`: the axis with the larger delta steps whole cells, the other
/// follows proportionally; on a tie the y axis drives.
pub open spec fn line_pt(sx: int, sy: int, ex: int, ey: int, i: int) -> (int, int) {
    let dx = delta(sx, ex);
    let dy = delta(sy, ey);
    if dy >= dx {
        (cross_step(sx, ex, dx, i, dy), axis_step(sy, ey, i))
    } else {
        (axis_step(sx, ex, i), cross_step(sy, ey, dy, i, dx))
    }
}

/// All cells of the segment, in drawing order: one per driving-axis offset
/// from 0 through the driving delta.
pub open spec fn line_cells(sx: int, sy: int, ex: int, ey: int) -> Seq<(int, int)> {
    let dx = delta(sx, ex);
    let dy = delta(sy, ey);
    let len = if dy >= dx {
        dy
    } else {
        dx
    };
    Seq::new((len + 1) as nat, |i: int| line_pt(sx, sy, ex, ey, i))
}

/// The grid after writing `col` into each listed cell, in order.
pub open spec fn apply_cells(g: Seq<Seq<Pixel>>, cells: Seq<(int, int)>, col: Col) -> Seq<
    Seq<Pixel>,
>
    decreases cells.len(),
{
    if cells.len() == 0 {
        g
    } else {
        write_at(apply_cells(g, cells.drop_last(), col), cells.last().0, cells.last().1, col)
    }
}

/// The proportional step stays between the two dependent endpoint
/// coordinates.
pub proof fn lemma_cross_step_in_range(s: int, e: int, i: int, len: int)
    requires
        0 <= i <= len,
        delta(s, e) <= len,
    ensures
        e >= s ==> s <= cross_step(s, e, delta(s, e), i, len) <= e,
        e < s ==> e <= cross_step(s, e, delta(s, e), i, len) <= s,
{
    let d = delta(s, e);
    if len != 0 {
        assert(0 <= d * i) by (nonlinear_arith)
            requires
                0 <= d,
                0 <= i,
        ;
        assert(d * i <= d * len) by (nonlinear_arith)
            requires
                0 <= d,
                i <= len,
        ;
        assert(d * len == len * d) by (nonlinear_arith);
        lemma_div_is_ordered(d * i, d * len, len);
        lemma_div_multiples_vanish(d, len);
        lemma_div_pos_is_pos(d * i, len);
    }
}

/// `a * b / c`, computed in a wider type so the product cannot overflow.
fn mul_div(a: usize, b: usize, c: usize) -> (r: usize)
    requires
        1 <= c,
        a < 0x1_0000_0000,
        b <= c,
        c < 0x1_0000_0000,
    ensures
        r == a as int * b as int / (c as int),
        r <= a,
{
    proof {
        let ai: int = a as int;
        let bi: int = b as int;
        let ci: int = c as int;
        lemma_mul_upper_bound(ai, 0xffff_ffff, bi, 0xffff_ffff);
        assert(0 <= ai * bi) by (nonlinear_arith)
            requires
                0 <= ai,
                0 <= bi,
        ;
        assert(ai * bi <= ai * ci) by (nonlinear_arith)
            requires
                0 <= ai,
                bi <= ci,
        ;
        assert(ai * ci == ci * ai) by (nonlinear_arith);
        lemma_div_is_ordered(ai * bi, ai * ci, ci);
        lemma_div_multiples_vanish(ai, ci);
        lemma_div_pos_is_pos(ai * bi, ci);
    }
    let r64: u64 = (a as u64) * (b as u64) / (c as u64);
    (r64 as u32) as usize
}

impl TermDraw {
    /// Rasterize the segment between two normalized positions: write `col`
    /// once into every cell `line_cells` lists for the scaled endpoints, in
    /// drawing order. Coincident endpoints degrade to a single dot.
    #[verifier::loop_isolation(false)]
    pub fn line(&mut self, start: (Frac, Frac), end: (Frac, Frac), col: Col)
        requires
            old(self).wf(),
            start.0.valid(),
            start.1.valid(),
            end.0.valid(),
            end.1.valid(),
        ensures
            final(self).wf(),
            final(self).width == old(self).width,
            final(self).height == old(self).height,
            final(self).grid() == apply_cells(
                old(self).grid(),
                line_cells(
                    scale_coord(start.0.num as int, start.0.den as int, old(self).width - 1),
                    scale_coord(start.1.num as int, start.1.den as int, old(self).height - 1),
                    scale_coord(end.0.num as int, end.0.den as int, old(self).width - 1),
                    scale_coord(end.1.num as int, end.1.den as int, old(self).height - 1),
                ),
                col,
            ),
    {
        let (sx, sy) = self.scale(start);
        let (ex, ey) = self.scale(end);

        let dx: usize = if ex >= sx {
            ex - sx
        } else {
            sx - ex
        };
        let dy: usize = if ey >= sy {
            ey - sy
        } else {
            sy - ey
        };
        let len: usize = if dy >= dx {
            dy
        } else {
            dx
        };

        let ghost cells = line_cells(sx as int, sy as int, ex as int, ey as int);
        let ghost g0 = self.grid();
        proof {
            assert(g0 == old(self).grid());
            assert(cells.len() == len + 1);
        }

        let mut i: usize = 0;
        while i <= len
            invariant
                i <= len + 1,
                self.wf(),
                self.width == old(self).width,
                self.height == old(self).height,
                self.grid() == apply_cells(g0, cells.take(i as int), col),
            decreases len + 1 - i,
        {
            let p: (usize, usize) = if dy >= dx {
                let yy: usize = if ey >= sy {
                    sy + i
                } else {
                    sy - i
                };
                let xx: usize = if dy == 0 {
                    sx
                } else if ex >= sx {
                    sx + mul_div(dx, i, dy)
                } else {
                    sx - mul_div(dx, i, dy)
                };
                (xx, yy)
            } else {
                let xx: usize = if ex >= sx {
                    sx + i
                } else {
                    sx - i
                };
                let yy: usize = if ey >= sy {
                    sy + mul_div(dy, i, dx)
                } else {
                    sy - mul_div(dy, i, dx)
                };
                (xx, yy)
            };
            proof {
                if dy >= dx && dy != 0 {
                    lemma_cross_step_in_range(sx as int, ex as int, i as int, dy as int);
                } else if dy < dx {
                    lemma_cross_step_in_range(sy as int, ey as int, i as int, dx as int);
                }
                assert(p.0 == line_pt(sx as int, sy as int, ex as int, ey as int, i as int).0);
                assert(p.1 == line_pt(sx as int, sy as int, ex as int, ey as int, i as int).1);
                assert(p.0 < self.width);
                assert(p.1 < self.height);
            }
            self.pixel_set(p, col);
            proof {
                assert(cells.take(i as int + 1).drop_last() =~= cells.take(i as int));
                assert(cells.take(i as int + 1).last() == line_pt(
                    sx as int,
                    sy as int,
                    ex as int,
                    ey as int,
                    i as int,
                ));
                assert(self.grid() == apply_cells(g0, cells.take(i as int + 1), col));
            }
            i = i + 1;
        }
        proof {
            assert(cells.take(len as int + 1) =~= cells);
        }
    }
}

/// A segment whose endpoints scale to the same cell covers exactly that one
/// cell: a dot.
pub proof fn lemma_line_single_cell(x: int, y: int)
    ensures
        line_cells(x, y, x, y) =~= seq![(x, y)],
{
    assert(line_cells(x, y, x, y).len() == 1);
    assert(line_cells(x, y, x, y)[0] == line_pt(x, y, x, y, 0));
}

/// A segment from a point to itself makes exactly the one write a dot at
/// that point makes.
pub proof fn lemma_degenerate_line_is_dot(g: Seq<Seq<Pixel>>, x: int, y: int, col: Col)
    ensures
        apply_cells(g, line_cells(x, y, x, y), col) == write_at(g, x, y, col),
{
    lemma_line_single_cell(x, y);
    let cells = line_cells(x, y, x, y);
    assert(cells.drop_last() =~= Seq::<(int, int)>::empty());
    assert(apply_cells(g, Seq::<(int, int)>::empty(), col) == g);
    assert(cells.last() == (x, y));
    assert(apply_cells(g, cells, col) == write_at(
        apply_cells(g, cells.drop_last(), col),
        cells.last().0,
        cells.last().1,
        col,
    ));
}

/// Truncated proportional stepping never jumps: one more driving step moves
/// the dependent coordinate by at most one cell, as long as the dependent
/// delta does not exceed the driving one.
proof fn lemma_ratio_step_by_at_most_one(d: int, i: int, len: int)
    requires
        1 <= len,
        0 <= d <= len,
        0 <= i,
    ensures
        d * i / len <= d * (i + 1) / len <= d * i / len + 1,
{
    let q: int = d * i / len;
    let r: int = d * i % len;
    lemma_fundamental_div_mod(d * i, len);
    lemma_mod_bound(d * i, len);
    assert(d * (i + 1) == d * i + d) by (nonlinear_arith);
    if r + d < len {
        lemma_fundamental_div_mod_converse(d * (i + 1), len, q, r + d);
    } else {
        assert(d * (i + 1) == (q + 1) * len + (r + d - len)) by (nonlinear_arith)
            requires
                d * i == len * q + r,
                d * (i + 1) == d * i + d,
        ;
        lemma_fundamental_div_mod_converse(d * (i + 1), len, q + 1, r + d - len);
    }
}

/// Consecutive cells of a segment are adjacent: the driving coordinate
/// moves by exactly one cell toward its endpoint and the dependent one by
/// at most one, so the rasterized segment is connected, with no gaps along
/// the driving axis.
pub proof fn lemma_line_cells_connected(sx: int, sy: int, ex: int, ey: int, i: int)
    requires
        0 <= i,
        i + 1 < line_cells(sx, sy, ex, ey).len(),
    ensures
        delta(line_cells(sx, sy, ex, ey)[i].0, line_cells(sx, sy, ex, ey)[i + 1].0) <= 1,
        delta(line_cells(sx, sy, ex, ey)[i].1, line_cells(sx, sy, ex, ey)[i + 1].1) <= 1,
        delta(sy, ey) >= delta(sx, ex) ==> delta(
            line_cells(sx, sy, ex, ey)[i].1,
            line_cells(sx, sy, ex, ey)[i + 1].1,
        ) == 1,
        delta(sy, ey) < delta(sx, ex) ==> delta(
            line_cells(sx, sy, ex, ey)[i].0,
            line_cells(sx, sy, ex, ey)[i + 1].0,
        ) == 1,
{
    let dx = delta(sx, ex);
    let dy = delta(sy, ey);
    if dy >= dx {
        if dy != 0 {
            lemma_ratio_step_by_at_most_one(dx, i, dy);
        }
    } else {
        lemma_ratio_step_by_at_most_one(dy, i, dx);
    }
}

/// Cells of a segment never backtrack: the distance from the start
/// coordinate grows with the driving offset, strictly on the driving axis
/// and weakly on the dependent one, and never beyond the endpoint.
pub proof fn lemma_line_cells_monotonic(sx: int, sy: int, ex: int, ey: int, i: int, j: int)
    requires
        0 <= i < j < line_cells(sx, sy, ex, ey).len(),
    ensures
        delta(sx, line_cells(sx, sy, ex, ey)[i].0) <= delta(sx, line_cells(sx, sy, ex, ey)[j].0)
            <= delta(sx, ex),
        delta(sy, line_cells(sx, sy, ex, ey)[i].1) <= delta(sy, line_cells(sx, sy, ex, ey)[j].1)
            <= delta(sy, ey),
        delta(sy, ey) >= delta(sx, ex) ==> delta(sy, line_cells(sx, sy, ex, ey)[i].1) < delta(
            sy,
            line_cells(sx, sy, ex, ey)[j].1,
        ),
        delta(sy, ey) < delta(sx, ex) ==> delta(sx, line_cells(sx, sy, ex, ey)[i].0) < delta(
            sx,
            line_cells(sx, sy, ex, ey)[j].0,
        ),
{
    let dx = delta(sx, ex);
    let dy = delta(sy, ey);
    if dy >= dx {
        if dy != 0 {
            lemma_cross_step_in_range(sx, ex, i, dy);
            lemma_cross_step_in_range(sx, ex, j, dy);
            assert(dx * i <= dx * j) by (nonlinear_arith)
                requires
                    0 <= dx,
                    i <= j,
            ;
            lemma_div_is_ordered(dx * i, dx * j, dy);
            lemma_div_pos_is_pos(dx * i, dy);
        }
    } else {
        lemma_cross_step_in_range(sy, ey, i, dx);
        lemma_cross_step_in_range(sy, ey, j, dx);
        assert(dy * i <= dy * j) by (nonlinear_arith)
            requires
                0 <= dy,
                i <= j,
        ;
        lemma_div_is_ordered(dy * i, dy * j, dx);
        lemma_div_pos_is_pos(dy * i, dx);
    }
}

/// A segment covers one cell per driving-axis offset: `max(dx, dy) + 1`
/// cells in all, and no cell is listed twice, since the driving coordinate
/// moves by a whole cell at each step.
pub proof fn lemma_line_cell_count(sx: int, sy: int, ex: int, ey: int)
    ensures
        line_cells(sx, sy, ex, ey).len() == 1 + if delta(sy, ey) >= delta(sx, ex) {
            delta(sy, ey)
        } else {
            delta(sx, ex)
        },
        forall|i: int, j: int|
            0 <= i < j < line_cells(sx, sy, ex, ey).len() ==> line_cells(sx, sy, ex, ey)[i]
                != line_cells(sx, sy, ex, ey)[j],
{
    let cells = line_cells(sx, sy, ex, ey);
    assert forall|i: int, j: int| 0 <= i < j < cells.len() implies cells[i] != cells[j] by {
        if delta(sy, ey) >= delta(sx, ex) {
            assert(cells[i].1 == axis_step(sy, ey, i));
            assert(cells[j].1 == axis_step(sy, ey, j));
        } else {
            assert(cells[i].0 == axis_step(sx, ex, i));
            assert(cells[j].0 == axis_step(sx, ex, j));
        }
    }
}

} // verus!
