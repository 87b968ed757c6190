//! The framebuffer: a grid of accumulating cells addressed by normalized
//! coordinates.
//!
//! The grid is `width` cells wide and `height` cells tall, with `height`
//! always even: two logical rows are later folded into one printable
//! terminal row. Drawing calls address the grid through normalized
//! coordinates in `[0, 1]`, carried as exact fractions and scaled onto cell
//! indices by truncation.

use vstd::prelude::*;
use vstd::arithmetic::div_mod::lemma_div_basics;
use vstd::arithmetic::div_mod::lemma_div_is_ordered;
use vstd::arithmetic::div_mod::lemma_div_multiples_vanish;
use vstd::arithmetic::div_mod::lemma_div_pos_is_pos;
use vstd::arithmetic::div_mod::lemma_fundamental_div_mod_converse;
use vstd::arithmetic::mul::lemma_mul_inequality;
use vstd::arithmetic::mul::lemma_mul_upper_bound;
use crate::color::Col;
use crate::color::Pixel;
use crate::color::blank_pixel;
use crate::color::blend;
use crate::color::lemma_blend_channel_in_range;

verus! {

/// An exact fraction `num / den`. With `valid()` it lies in `[0, 1]` and
/// stands for one normalized coordinate, independent of terminal size.
#[derive(Clone, Copy)]
pub struct Frac {
    pub num: u32,
    pub den: u32,
}

impl Frac {
    /// The fraction is well formed and lies in `[0, 1]`.
    pub open spec fn valid(&self) -> bool {
        1 <= self.den && self.num <= self.den
    }
}

/// Truncating map of the fraction `num / den` onto the cell range
/// `0 ..= max`: the exact product, rounded down.
pub open spec fn scale_coord(num: int, den: int, max: int) -> int {
    num * max / den
}

/// A `width` by `height` grid of blank cells.
pub open spec fn blank_grid(width: int, height: int) -> Seq<Seq<Pixel>> {
    Seq::new(height as nat, |y: int| Seq::new(width as nat, |x: int| blank_pixel()))
}

/// The grid after one write of `col` into the cell at `(x, y)`.
pub open spec fn write_at(g: Seq<Seq<Pixel>>, x: int, y: int, col: Col) -> Seq<Seq<Pixel>> {
    g.update(y, g[y].update(x, blend(g[y][x], col)))
}

/// The color pairs a render pass hands to the painter, in scan order: the
/// pair at position `k * width + j` folds the cells in column `j` of the
/// logical rows `2k` and `2k + 1`, so pairs run left to right within a row
/// pair and row pairs run top to bottom.
pub open spec fn paint_calls(g: Seq<Seq<Pixel>>, width: int, height: int) -> Seq<(Col, Col)> {
    Seq::new(
        ((height / 2) * width) as nat,
        |i: int| (g[2 * (i / width)][i % width].0, g[2 * (i / width) + 1][i % width].0),
    )
}

/// A render pass makes exactly `width * height / 2` paint calls: one per
/// column of each row pair.
pub proof fn lemma_paint_call_count(g: Seq<Seq<Pixel>>, width: int, height: int)
    requires
        0 <= width,
        0 <= height,
        height % 2 == 0,
    ensures
        paint_calls(g, width, height).len() == width * height / 2,
{
    let q: int = height / 2;
    assert(height == 2 * q);
    assert(width * height == 2 * (q * width)) by (nonlinear_arith)
        requires
            height == 2 * q,
    ;
    lemma_div_multiples_vanish(q * width, 2);
}

/// A fraction in `[0, 1]` scales onto a coordinate in `0 ..= max`: the
/// write it leads to can never fall outside the grid.
pub proof fn lemma_scale_coord_in_range(num: int, den: int, max: int)
    requires
        1 <= den,
        0 <= num <= den,
        0 <= max,
    ensures
        0 <= scale_coord(num, den, max) <= max,
{
    lemma_mul_inequality(num, den, max);
    lemma_div_is_ordered(num * max, den * max, den);
    lemma_div_multiples_vanish(max, den);
    lemma_mul_inequality(0, num, max);
    lemma_div_pos_is_pos(num * max, den);
}

/// The normalized extremes scale onto the extreme cell indices: zero onto
/// the first index, one onto the last.
pub proof fn lemma_scale_corners(den: int, max: int)
    requires
        1 <= den,
        0 <= max,
    ensures
        scale_coord(0, den, max) == 0,
        scale_coord(den, den, max) == max,
{
    lemma_div_basics(den);
    assert(0 * max == 0) by (nonlinear_arith);
    lemma_div_multiples_vanish(max, den);
}

/// The framebuffer: owns the cell grid and its dimensions.
pub struct TermDraw {
    pub width: u32,
    pub height: u32,
    pub buf: Vec<Vec<Pixel>>,
}

impl TermDraw {
    /// The grid matches the stated dimensions: `height` rows of `width`
    /// cells each, at least one column and one row pair.
    pub open spec fn wf(&self) -> bool {
        &&& 1 <= self.width
        &&& 2 <= self.height
        &&& self.height % 2 == 0
        &&& self.buf@.len() == self.height
        &&& forall|y: int| 0 <= y < self.buf@.len() ==> (#[trigger] self.buf@[y])@.len() == self.width
    }

    /// The cell grid as a sequence of rows.
    pub open spec fn grid(&self) -> Seq<Seq<Pixel>> {
        self.buf@.map_values(|row: Vec<Pixel>| row@)
    }

    fn uninitialized() -> (r: TermDraw) {
        TermDraw { width: 0, height: 0, buf: Vec::new() }
    }

    /// A framebuffer sized for a terminal of `cols` columns and `rows`
    /// rows, every cell blank.
    pub fn new(cols: u16, rows: u16) -> (r: TermDraw)
        requires
            1 <= cols,
            2 <= rows,
        ensures
            r.wf(),
            r.width == cols,
            r.height == 2 * (rows - 1),
            r.grid() == blank_grid(r.width as int, r.height as int),
    {
        let mut data = TermDraw::uninitialized();
        data.recallibrate(cols, rows);
        data
    }

    /// Rebuild the grid for a terminal of `cols` columns and `rows` rows.
    /// One terminal row is kept free for the trailing newline, and each of
    /// the remaining rows holds two logical rows, so the grid is `cols`
    /// wide and `2 * (rows - 1)` tall. All earlier content is lost: every
    /// cell comes out blank.
    #[verifier::loop_isolation(false)]
    pub fn recallibrate(&mut self, cols: u16, rows: u16)
        requires
            1 <= cols,
            2 <= rows,
        ensures
            final(self).wf(),
            final(self).width == cols,
            final(self).height == 2 * (rows - 1),
            final(self).grid() == blank_grid(final(self).width as int, final(self).height as int),
    {
        self.width = cols as u32;
        let usable_rows: u32 = (rows - 1) as u32;
        self.height = usable_rows * 2;

        self.buf = Vec::new();

        let mut y: u32 = 0;
        while y < self.height
            invariant
                y <= self.height,
                self.width == cols,
                self.height == 2 * (rows - 1),
                self.buf@.len() == y,
                forall|i: int| 0 <= i < y ==> (#[trigger] self.buf@[i])@.len() == self.width,
                forall|i: int, j: int|
                    0 <= i < y && 0 <= j < self.width ==> (#[trigger] self.buf@[i]@[j])
                        == blank_pixel(),
            decreases self.height - y,
        {
            let mut row: Vec<Pixel> = Vec::new();
            let mut x: u32 = 0;
            while x < self.width
                invariant
                    x <= self.width,
                    row@.len() == x,
                    forall|j: int| 0 <= j < x ==> (#[trigger] row@[j]) == blank_pixel(),
                decreases self.width - x,
            {
                row.push(((0, 0, 0), 0));
                x = x + 1;
            }
            self.buf.push(row);
            y = y + 1;
        }

        proof {
            assert(self.grid() =~~= blank_grid(self.width as int, self.height as int));
        }
    }

    /// Reset every cell to blank, keeping the dimensions.
    #[verifier::loop_isolation(false)]
    pub fn clear(&mut self)
        requires
            old(self).wf(),
        ensures
            final(self).wf(),
            final(self).width == old(self).width,
            final(self).height == old(self).height,
            final(self).grid() == blank_grid(final(self).width as int, final(self).height as int),
    {
        let mut y: usize = 0;
        while y < self.buf.len()
            invariant
                self.wf(),
                self.width == old(self).width,
                self.height == old(self).height,
                y <= self.buf@.len(),
                forall|i: int, j: int|
                    0 <= i < y && 0 <= j < self.width ==> (#[trigger] self.buf@[i]@[j])
                        == blank_pixel(),
            decreases self.buf@.len() - y,
        {
            let width: usize = self.buf[y].len();
            let mut x: usize = 0;
            while x < width
                invariant
                    self.wf(),
                    self.width == old(self).width,
                    self.height == old(self).height,
                    y < self.buf@.len(),
                    width == self.width,
                    x <= width,
                    forall|i: int, j: int|
                        0 <= i < y && 0 <= j < self.width ==> (#[trigger] self.buf@[i]@[j])
                            == blank_pixel(),
                    forall|j: int| 0 <= j < x ==> (#[trigger] self.buf@[y as int]@[j])
                        == blank_pixel(),
                decreases width - x,
            {
                self.buf[y][x] = ((0, 0, 0), 0);
                x = x + 1;
            }
            y = y + 1;
        }
        proof {
            assert(self.grid() =~~= blank_grid(self.width as int, self.height as int));
        }
    }

    /// Blend `col` into the cell at `pos`: each channel becomes the running
    /// average over the writes the cell has received, and the density rises
    /// by one until its counter is exhausted.
    pub fn pixel_set(&mut self, pos: (usize, usize), col: Col)
        requires
            old(self).wf(),
            pos.0 < old(self).width,
            pos.1 < old(self).height,
        ensures
            final(self).wf(),
            final(self).width == old(self).width,
            final(self).height == old(self).height,
            final(self).grid() == write_at(old(self).grid(), pos.0 as int, pos.1 as int, col),
    {
        let (x, y) = pos;
        let (cr, cg, cb) = col;

        let (old_col, old_dens) = self.buf[y][x];
        let (pr, pg, pb) = old_col;

        if old_dens == 255 {
            // The density counter is saturated: the cell no longer changes.
            proof {
                assert(self.grid() =~~= write_at(
                    old(self).grid(),
                    x as int,
                    y as int,
                    col,
                ));
            }
            return;
        }

        proof {
            lemma_mul_upper_bound(pr as int, 255, old_dens as int, 255);
            lemma_mul_upper_bound(pg as int, 255, old_dens as int, 255);
            lemma_mul_upper_bound(pb as int, 255, old_dens as int, 255);
            lemma_blend_channel_in_range(pr, old_dens, cr);
            lemma_blend_channel_in_range(pg, old_dens, cg);
            lemma_blend_channel_in_range(pb, old_dens, cb);
        }

        let d16: u16 = old_dens as u16;
        let nd: u16 = d16 + 1;

        let nr: u16 = ((pr as u16) * d16 + (cr as u16)) / nd;
        let ng: u16 = ((pg as u16) * d16 + (cg as u16)) / nd;
        let nb: u16 = ((pb as u16) * d16 + (cb as u16)) / nd;

        self.buf[y][x] = ((nr as u8, ng as u8, nb as u8), nd as u8);

        proof {
            assert(self.grid() =~~= write_at(old(self).grid(), x as int, y as int, col));
        }
    }

    /// Map a normalized position onto cell indices: on each axis the
    /// truncated product of the fraction with the last index of the axis,
    /// so zero lands on the first cell and one on the last.
    pub fn scale(&self, pos: (Frac, Frac)) -> (r: (usize, usize))
        requires
            self.wf(),
            pos.0.valid(),
            pos.1.valid(),
        ensures
            r.0 == scale_coord(pos.0.num as int, pos.0.den as int, self.width - 1),
            r.1 == scale_coord(pos.1.num as int, pos.1.den as int, self.height - 1),
            r.0 < self.width,
            r.1 < self.height,
    {
        let x_max: u64 = (self.width - 1) as u64;
        let y_max: u64 = (self.height - 1) as u64;

        proof {
            lemma_mul_upper_bound(pos.0.num as int, 0xffff_ffff, x_max as int, 0xffff_ffff);
            lemma_mul_upper_bound(pos.1.num as int, 0xffff_ffff, y_max as int, 0xffff_ffff);
            lemma_scale_coord_in_range(pos.0.num as int, pos.0.den as int, x_max as int);
            lemma_scale_coord_in_range(pos.1.num as int, pos.1.den as int, y_max as int);
        }

        let x: u64 = (pos.0.num as u64) * x_max / (pos.0.den as u64);
        let y: u64 = (pos.1.num as u64) * y_max / (pos.1.den as u64);

        ((x as u32) as usize, (y as u32) as usize)
    }

    /// Scale a normalized position and write `col` into the cell it lands
    /// on.
    pub fn dot(&mut self, pos: (Frac, Frac), col: Col)
        requires
            old(self).wf(),
            pos.0.valid(),
            pos.1.valid(),
        ensures
            final(self).wf(),
            final(self).width == old(self).width,
            final(self).height == old(self).height,
            final(self).grid() == write_at(
                old(self).grid(),
                scale_coord(pos.0.num as int, pos.0.den as int, old(self).width - 1),
                scale_coord(pos.1.num as int, pos.1.den as int, old(self).height - 1),
                col,
            ),
    {
        let p = self.scale(pos);
        self.pixel_set(p, col);
    }

    /// One render pass: fold consecutive row pairs into the color pairs the
    /// painter receives, dropping the densities. The pairs come back in
    /// scan order, `width * height / 2` of them, and the buffer itself is
    /// left untouched.
    #[verifier::loop_isolation(false)]
    pub fn draw(&self) -> (out: Vec<(Col, Col)>)
        requires
            self.wf(),
        ensures
            out@ == paint_calls(self.grid(), self.width as int, self.height as int),
    {
        let ghost pc = paint_calls(self.grid(), self.width as int, self.height as int);

        let width: usize = self.width as usize;
        let pairs: usize = (self.height / 2) as usize;

        let mut out: Vec<(Col, Col)> = Vec::new();

        let mut k: usize = 0;
        while k < pairs
            invariant
                k <= pairs,
                out@.len() == k * width,
                out@ == pc.take((k * width) as int),
            decreases pairs - k,
        {
            proof {
                assert((k + 1) * width == k * width + width) by (nonlinear_arith);
                lemma_mul_inequality(k + 1, pairs as int, width as int);
            }
            let mut j: usize = 0;
            while j < width
                invariant
                    k < pairs,
                    j <= width,
                    out@.len() == k * width + j,
                    out@ == pc.take((k * width + j) as int),
                decreases width - j,
            {
                let top = self.buf[2 * k][j].0;
                let bot = self.buf[2 * k + 1][j].0;
                out.push((top, bot));
                proof {
                    let i: int = k * width + j;
                    lemma_fundamental_div_mod_converse(i, width as int, k as int, j as int);
                    assert(out@ =~= pc.take(i + 1));
                }
                j = j + 1;
            }
            k = k + 1;
        }

        proof {
            assert(pairs * width == pc.len());
            assert(out@ =~= pc);
        }
        out
    }
}

} // verus!
