//! Colors and accumulating cells.
//!
//! A cell of the framebuffer carries a color together with a density: the
//! number of writes that have been averaged into the color so far. Density 0
//! means the cell was never written and shows as black.

use vstd::prelude::*;
use vstd::arithmetic::div_mod::lemma_div_is_ordered;
use vstd::arithmetic::div_mod::lemma_div_multiples_vanish;
use vstd::arithmetic::div_mod::lemma_div_pos_is_pos;
use vstd::arithmetic::mul::lemma_mul_inequality;

verus! {

/// A color: red, green and blue channel intensities.
pub type Col = (u8, u8, u8);

/// One framebuffer cell: a color and the density it was accumulated with.
pub type Pixel = (Col, u8);

/// The cell every buffer starts from: black, never written.
pub open spec fn blank_pixel() -> Pixel {
    ((0u8, 0u8, 0u8), 0u8)
}

/// Running average of one channel: `d` prior writes of mean `old_c` absorb
/// one more write of value `c`, with truncating division.
pub open spec fn blend_channel(old_c: u8, d: u8, c: u8) -> u8 {
    ((old_c * d + c) / (d + 1)) as u8
}

/// One write of `col` into the cell `px`: each channel becomes the running
/// average over all writes so far, and the density rises by one. A cell
/// whose density counter is exhausted no longer changes.
pub open spec fn blend(px: Pixel, col: Col) -> Pixel {
    let ((pr, pg, pb), d) = px;
    let (cr, cg, cb) = col;
    if d == 255 {
        px
    } else {
        (
            (blend_channel(pr, d, cr), blend_channel(pg, d, cg), blend_channel(pb, d, cb)),
            (d + 1) as u8,
        )
    }
}

/// The averaged channel stays an 8-bit value: the truncation in
/// `blend_channel` never has anything to cut off.
pub proof fn lemma_blend_channel_in_range(old_c: u8, d: u8, c: u8)
    ensures
        0 <= old_c * d + c,
        (old_c * d + c) / (d + 1) <= 255,
        blend_channel(old_c, d, c) == (old_c * d + c) / (d + 1),
{
    lemma_mul_inequality(old_c as int, 255, d as int);
    assert(old_c * d + c <= 255 * (d + 1));
    lemma_div_is_ordered(old_c * d + c, 255 * (d + 1), d + 1);
    lemma_div_multiples_vanish(255, d + 1);
    assert(255 * (d + 1) == (d + 1) * 255);
    lemma_mul_inequality(0, old_c as int, d as int);
    lemma_div_pos_is_pos(old_c * d + c, d + 1);
}

/// A write into a never-written cell stores the written color unchanged,
/// at density one.
pub proof fn lemma_blend_fresh(px: Pixel, col: Col)
    requires
        px.1 == 0,
    ensures
        blend(px, col) == (col, 1u8),
{
    let ((pr, pg, pb), d) = px;
    let (cr, cg, cb) = col;
    assert(blend_channel(pr, 0, cr) == cr);
    assert(blend_channel(pg, 0, cg) == cg);
    assert(blend_channel(pb, 0, cb) == cb);
    assert(col == (cr, cg, cb));
}

/// Two writes into a never-written cell leave density two, and each channel
/// at the truncated mean of the two written values.
pub proof fn lemma_blend_two(c1: Col, c2: Col)
    ensures
        blend(blend(blank_pixel(), c1), c2) == (
            (
                ((c1.0 + c2.0) / 2) as u8,
                ((c1.1 + c2.1) / 2) as u8,
                ((c1.2 + c2.2) / 2) as u8,
            ),
            2u8,
        ),
{
    lemma_blend_fresh(blank_pixel(), c1);
    assert(blend_channel(c1.0, 1, c2.0) == ((c1.0 + c2.0) / 2) as u8);
    assert(blend_channel(c1.1, 1, c2.1) == ((c1.1 + c2.1) / 2) as u8);
    assert(blend_channel(c1.2, 1, c2.2) == ((c1.2 + c2.2) / 2) as u8);
}

} // verus!
