//! The pixel type and the perceptual distance metric shared by the palette
//! builder and the ditherer.

use vstd::prelude::*;

verus! {

/// One pixel: four 8-bit channels, compared and combined only through
/// numeric distance, never identity.
#[derive(Clone, Copy, PartialEq, Eq, Structural, Debug)]
pub struct Color {
    pub r: u8,
    pub g: u8,
    pub b: u8,
    pub a: u8,
}

/// Perceptual distance between two colors: the sum of squared channel
/// differences, all four channels weighted equally.
pub open spec fn dist(c: Color, d: Color) -> int {
    (c.r - d.r) * (c.r - d.r)
        + (c.g - d.g) * (c.g - d.g)
        + (c.b - d.b) * (c.b - d.b)
        + (c.a - d.a) * (c.a - d.a)
}

/// The square of a channel difference is nonnegative and at most 255 * 255.
proof fn lemma_sq_bounds(x: int, y: int)
    requires
        0 <= x <= 255,
        0 <= y <= 255,
    ensures
        0 <= (x - y) * (x - y) <= 255 * 255,
        (x - y) * (x - y) == 0 <==> x == y,
{
    assert(0 <= (x - y) * (x - y) <= 255 * 255 && ((x - y) * (x - y) == 0 <==> x == y))
        by (nonlinear_arith)
        requires
            0 <= x <= 255,
            0 <= y <= 255,
    ;
}

/// The distance metric is nonnegative, bounded, and zero exactly on equal
/// colors.
pub proof fn lemma_dist_properties(c: Color, d: Color)
    ensures
        0 <= dist(c, d) <= 4 * 255 * 255,
        dist(c, d) == 0 <==> c == d,
{
    lemma_sq_bounds(c.r as int, d.r as int);
    lemma_sq_bounds(c.g as int, d.g as int);
    lemma_sq_bounds(c.b as int, d.b as int);
    lemma_sq_bounds(c.a as int, d.a as int);
}

/// Computes the distance metric.
pub fn color_dist(c: Color, d: Color) -> (out: u32)
    ensures
        out == dist(c, d),
{
    let dr: i32 = c.r as i32 - d.r as i32;
    let dg: i32 = c.g as i32 - d.g as i32;
    let db: i32 = c.b as i32 - d.b as i32;
    let da: i32 = c.a as i32 - d.a as i32;
    proof {
        lemma_sq_bounds(c.r as int, d.r as int);
        lemma_sq_bounds(c.g as int, d.g as int);
        lemma_sq_bounds(c.b as int, d.b as int);
        lemma_sq_bounds(c.a as int, d.a as int);
    }
    (dr * dr + dg * dg + db * db + da * da) as u32
}

/// Clamps an integer into an inclusive range.
pub open spec fn clamp_spec(v: int, lo: int, hi: int) -> int {
    if v < lo {
        lo
    } else if v > hi {
        hi
    } else {
        v
    }
}

/// Clamps a signed value into an inclusive range.
pub fn clamp_i32(v: i32, lo: i32, hi: i32) -> (out: i32)
    requires
        lo <= hi,
    ensures
        out == clamp_spec(v as int, lo as int, hi as int),
{
    if v < lo {
        lo
    } else if v > hi {
        hi
    } else {
        v
    }
}

} // verus!
