//! Placement of reported boxes on a raster image.
use vstd::prelude::*;

verus! {

/// Half-millionths in one frame side.
pub const HALF_UNITS_PER_SIDE: i128 = 2_000_000;

/// `n / d` rounded to the nearest integer, halves away from zero.
pub open spec fn round_half_away(n: int, d: int) -> int {
    if n >= 0 {
        (2 * n + d) / (2 * d)
    } else {
        -((-2 * n + d) / (2 * d))
    }
}

/// `v` brought into the range of `i32`.
pub open spec fn saturate_i32(v: int) -> int {
    if v < i32::MIN {
        i32::MIN as int
    } else if v > i32::MAX {
        i32::MAX as int
    } else {
        v
    }
}

/// The pixel column (or row) of a coordinate `c` in half-millionths on an
/// image `size` pixels across.
pub open spec fn pixel_of(c: int, size: int) -> int {
    saturate_i32(round_half_away(c * size, HALF_UNITS_PER_SIDE as int))
}

fn to_pixel(c: i64, size: u32) -> (r: i32)
    requires
        -0x2_0000_0000 <= c <= 0x2_0000_0000,
    ensures
        r as int == pixel_of(c as int, size as int),
{
    proof {
        assert(-0x2_0000_0000 * 0x1_0000_0000 <= c * size <= 0x2_0000_0000 * 0x1_0000_0000)
            by (nonlinear_arith)
            requires -0x2_0000_0000 <= c <= 0x2_0000_0000, 0 <= size < 0x1_0000_0000;
    }
    let n: i128 = c as i128 * size as i128;
    assert(n == c * size);
    let m: u128 = if n >= 0 { n as u128 } else { (-n) as u128 };
    let d: u128 = HALF_UNITS_PER_SIDE as u128;
    let k: u128 = (2 * m + d) / (2 * d);
    assert(k == (2 * m + d) / (2 * d));
    let q: i128 = if n >= 0 { k as i128 } else { -(k as i128) };
    assert(q == round_half_away(c * size, HALF_UNITS_PER_SIDE as int));
    if q < i32::MIN as i128 {
        i32::MIN
    } else if q > i32::MAX as i128 {
        i32::MAX
    } else {
        q as i32
    }
}

/// The pixels that a box given by its center and extent along one axis, in
/// millionths, spans on an image `size` pixels across: its first pixel and
/// the pixel just past its end, each rounded to the nearest and brought into
/// `i32`.
pub fn pixel_span(center: i32, extent: i32, size: u32) -> (r: (i32, i32))
    ensures
        r.0 as int == pixel_of(2 * center - extent, size as int),
        r.1 as int == pixel_of(2 * center + extent, size as int),
{
    let c = 2 * (center as i64);
    let e = extent as i64;
    (to_pixel(c - e, size), to_pixel(c + e, size))
}

} // verus!
