//! Corner-form boxes and their intersection over union.
//!
//! Coordinates of detections are integers in millionths of the frame side.
//! A corner-form box holds its corners in half-millionths, so that the corners
//! of a box given by its center and its size are exact. Areas are therefore in
//! quarter-millionths squared, and an intersection over union is an integer in
//! millionths (`1_000_000` stands for 1).
use vstd::prelude::*;

verus! {

/// A corner-form box `(x1, y1, x2, y2)` in half-millionths of the frame side.
pub type Corners = (i64, i64, i64, i64);

/// The value `1` of an intersection over union.
pub const IOU_ONE: i128 = 1_000_000;

/// The small area added to the union before dividing: one millionth of the
/// frame's area, in the units of a corner-form area.
pub const EPSILON_AREA: i128 = 4_000_000;

/// The largest magnitude of a coordinate that `iou` accepts.
pub const COORD_LIMIT: i64 = 17_179_869_184;

pub open spec fn max_int(a: int, b: int) -> int {
    if a >= b { a } else { b }
}

pub open spec fn min_int(a: int, b: int) -> int {
    if a <= b { a } else { b }
}

/// Each coordinate of the box lies within `COORD_LIMIT` of zero.
pub open spec fn bounded(b: Corners) -> bool {
    -COORD_LIMIT <= b.0 <= COORD_LIMIT && -COORD_LIMIT <= b.1 <= COORD_LIMIT
        && -COORD_LIMIT <= b.2 <= COORD_LIMIT && -COORD_LIMIT <= b.3 <= COORD_LIMIT
}

/// Width of the overlap of the two boxes, never negative.
pub open spec fn overlap_width(a: Corners, b: Corners) -> int {
    max_int(0, min_int(a.2 as int, b.2 as int) - max_int(a.0 as int, b.0 as int))
}

/// Height of the overlap of the two boxes, never negative.
pub open spec fn overlap_height(a: Corners, b: Corners) -> int {
    max_int(0, min_int(a.3 as int, b.3 as int) - max_int(a.1 as int, b.1 as int))
}

pub open spec fn intersection_area(a: Corners, b: Corners) -> int {
    overlap_width(a, b) * overlap_height(a, b)
}

/// Signed area of a box: negative when exactly one of its extents is.
pub open spec fn area(a: Corners) -> int {
    (a.2 - a.0) * (a.3 - a.1)
}

pub open spec fn union_area(a: Corners, b: Corners) -> int {
    area(a) + area(b) - intersection_area(a, b)
}

/// Intersection over union in millionths, rounded up: the intersection
/// divided by the union plus `EPSILON_AREA`. Where that denominator is not
/// positive (only for degenerate boxes, whose intersection is then empty) the
/// value is 0.
pub open spec fn iou_of(a: Corners, b: Corners) -> int {
    let den = union_area(a, b) + EPSILON_AREA;
    if den > 0 {
        (intersection_area(a, b) * IOU_ONE + den - 1) / den
    } else {
        0
    }
}


proof fn lemma_product_bound(x: int, y: int, bx: int, by: int)
    requires
        0 <= x <= bx,
        -by <= y <= by,
    ensures
        -(bx * by) <= x * y <= bx * by,
{
    assert(-(bx * by) <= x * y <= bx * by) by (nonlinear_arith)
        requires 0 <= x <= bx, -by <= y <= by;
}

proof fn lemma_product_monotone(x: int, y: int, bx: int, by: int)
    requires
        0 < x <= bx,
        0 < y <= by,
    ensures
        x * y <= bx * by,
{
    assert(x * y <= bx * by) by (nonlinear_arith)
        requires 0 < x <= bx, 0 < y <= by;
}

/// A non-empty overlap lies inside each box, so its area is at most each
/// box's area, and the union is positive.
proof fn lemma_intersection_within(a: Corners, b: Corners)
    ensures
        0 <= intersection_area(a, b),
        intersection_area(a, b) > 0 ==> intersection_area(a, b) <= area(a)
            && intersection_area(a, b) <= area(b),
        intersection_area(a, b) <= union_area(a, b) || intersection_area(a, b) == 0,
{
    let w = overlap_width(a, b);
    let h = overlap_height(a, b);
    assert(0 <= w * h) by (nonlinear_arith)
        requires 0 <= w, 0 <= h;
    if w * h > 0 {
        assert(w > 0 && h > 0) by (nonlinear_arith)
            requires 0 <= w, 0 <= h, w * h > 0;
        lemma_product_monotone(w, h, a.2 - a.0, a.3 - a.1);
        lemma_product_monotone(w, h, b.2 - b.0, b.3 - b.1);
    }
}

proof fn lemma_ratio_rounded_up(n: int, d: int)
    requires
        0 <= n < d,
    ensures
        0 <= (n * IOU_ONE + d - 1) / d <= IOU_ONE,
        n > 0 <==> (n * IOU_ONE + d - 1) / d > 0,
{
    assert(0 <= (n * 1_000_000 + d - 1) / d <= 1_000_000) by (nonlinear_arith)
        requires 0 <= n < d;
    if n > 0 {
        assert((n * 1_000_000 + d - 1) / d >= 1) by (nonlinear_arith)
            requires 0 < n < d;
    } else {
        assert((n * 1_000_000 + d - 1) / d == 0) by (nonlinear_arith)
            requires n == 0, 0 < d;
    }
}

/// The intersection over union of two boxes as an exact fraction: the
/// intersection area and the union area plus `EPSILON_AREA`.
pub fn overlap_fraction(a: Corners, b: Corners) -> (r: (i128, i128))
    requires
        bounded(a),
        bounded(b),
    ensures
        r.0 == intersection_area(a, b),
        r.1 == union_area(a, b) + EPSILON_AREA,
        0 <= r.0 <= 0x40_0000_0000_0000_0000,
        -0x200_0000_0000_0000_0000 <= r.1 <= 0x200_0000_0000_0000_0000,
        r.0 > 0 ==> r.0 < r.1,
{
    let ix1 = if a.0 >= b.0 { a.0 } else { b.0 };
    let iy1 = if a.1 >= b.1 { a.1 } else { b.1 };
    let ix2 = if a.2 <= b.2 { a.2 } else { b.2 };
    let iy2 = if a.3 <= b.3 { a.3 } else { b.3 };
    let w: i128 = if ix2 - ix1 > 0 { (ix2 - ix1) as i128 } else { 0 };
    let h: i128 = if iy2 - iy1 > 0 { (iy2 - iy1) as i128 } else { 0 };
    let aw: i128 = a.2 as i128 - a.0 as i128;
    let ah: i128 = a.3 as i128 - a.1 as i128;
    let bw: i128 = b.2 as i128 - b.0 as i128;
    let bh: i128 = b.3 as i128 - b.1 as i128;
    let ghost lim: int = 2 * COORD_LIMIT;
    proof {
        lemma_product_bound(w as int, h as int, lim, lim);
        assert(-(lim * lim) <= aw * ah <= lim * lim) by (nonlinear_arith)
            requires -lim <= aw <= lim, -lim <= ah <= lim, lim > 0;
        assert(-(lim * lim) <= bw * bh <= lim * lim) by (nonlinear_arith)
            requires -lim <= bw <= lim, -lim <= bh <= lim, lim > 0;
        assert(lim * lim == 1180591620717411303424);
        lemma_intersection_within(a, b);
    }
    let inter: i128 = w * h;
    (inter, aw * ah + bw * bh - inter + EPSILON_AREA)
}

proof fn lemma_quotients_decide(a: int, b: int, c: int, d: int)
    requires
        0 <= a,
        0 <= c,
        0 < b,
        0 < d,
        a / b != c / d,
    ensures
        (a * d > c * b) == (a / b > c / d),
{
    vstd::arithmetic::div_mod::lemma_fundamental_div_mod(a, b);
    vstd::arithmetic::div_mod::lemma_fundamental_div_mod(c, d);
    vstd::arithmetic::div_mod::lemma_mod_pos_bound(a, b);
    vstd::arithmetic::div_mod::lemma_mod_pos_bound(c, d);
    let q1 = a / b;
    let q2 = c / d;
    let r1 = a % b;
    let s1 = c % d;
    if q1 > q2 {
        assert(a * d > c * b) by (nonlinear_arith)
            requires a == b * q1 + r1, c == d * q2 + s1, 0 <= r1 < b, 0 <= s1 < d, q1 >= q2 + 1,
                0 < b, 0 < d;
    } else {
        assert(c * b > a * d) by (nonlinear_arith)
            requires a == b * q1 + r1, c == d * q2 + s1, 0 <= r1 < b, 0 <= s1 < d, q2 >= q1 + 1,
                0 < b, 0 < d;
    }
}

proof fn lemma_remainders_decide(a: int, b: int, c: int, d: int)
    requires
        0 <= a,
        0 <= c,
        0 < b,
        0 < d,
        a / b == c / d,
    ensures
        (a * d > c * b) == (d * (a % b) > b * (c % d)),
{
    vstd::arithmetic::div_mod::lemma_fundamental_div_mod(a, b);
    vstd::arithmetic::div_mod::lemma_fundamental_div_mod(c, d);
    let q = a / b;
    let r1 = a % b;
    let s1 = c % d;
    assert(a * d - c * b == d * r1 - b * s1) by (nonlinear_arith)
        requires a == b * q + r1, c == d * q + s1;
}

/// Whether `a / b` is greater than `c / d`, decided without multiplying.
pub fn ratio_greater(a: u128, b: u128, c: u128, d: u128) -> (r: bool)
    requires
        0 < b,
        0 < d,
    ensures
        r == (a * d > c * b),
    decreases b + d,
{
    let q1 = a / b;
    let q2 = c / d;
    if q1 != q2 {
        proof {
            lemma_quotients_decide(a as int, b as int, c as int, d as int);
        }
        return q1 > q2;
    }
    proof {
        lemma_remainders_decide(a as int, b as int, c as int, d as int);
        vstd::arithmetic::div_mod::lemma_mod_pos_bound(a as int, b as int);
        vstd::arithmetic::div_mod::lemma_mod_pos_bound(c as int, d as int);
    }
    let r1 = a % b;
    let s1 = c % d;
    if r1 == 0 {
        assert(b * s1 >= 0) by (nonlinear_arith)
            requires b > 0, s1 >= 0;
        assert(d * r1 == 0) by (nonlinear_arith)
            requires r1 == 0;
        return false;
    }
    if s1 == 0 {
        assert(d * r1 > 0) by (nonlinear_arith)
            requires d > 0, r1 > 0;
        assert(b * s1 == 0) by (nonlinear_arith)
            requires s1 == 0;
        return true;
    }
    let r = ratio_greater(d, s1, b, r1);
    assert((d * r1 > b * s1) == (d * r1 > s1 * b)) by (nonlinear_arith);
    r
}

/// Intersection over union of two corner-form boxes, in millionths.
pub fn iou(a: Corners, b: Corners) -> (r: u32)
    requires
        bounded(a),
        bounded(b),
    ensures
        r as int == iou_of(a, b),
        r <= IOU_ONE,
{
    let (inter, den) = overlap_fraction(a, b);
    if den > 0 {
        proof {
            lemma_ratio_rounded_up(inter as int, den as int);
        }
        ((inter * IOU_ONE + den - 1) / den) as u32
    } else {
        0
    }
}

/// The boxes are apart along one axis: one ends where or before the other begins.
pub open spec fn disjoint(a: Corners, b: Corners) -> bool {
    a.2 <= b.0 || b.2 <= a.0 || a.3 <= b.1 || b.3 <= a.1
}

/// A box with non-negative extents whose area exceeds 999 times
/// `EPSILON_AREA` (about a thousandth of the frame) has an intersection over
/// union with itself strictly within a thousandth of one, both as an exact
/// fraction and rounded up to millionths.
pub proof fn lemma_iou_self(b: Corners)
    requires
        b.0 <= b.2,
        b.1 <= b.3,
        area(b) > 999 * EPSILON_AREA,
    ensures
        intersection_area(b, b) < union_area(b, b) + EPSILON_AREA,
        1000 * intersection_area(b, b) > 999 * (union_area(b, b) + EPSILON_AREA),
        IOU_ONE - 1000 < iou_of(b, b) <= IOU_ONE,
{
    let a = area(b);
    assert(intersection_area(b, b) == a);
    assert(union_area(b, b) == a);
    let d = a + EPSILON_AREA;
    assert(999_000 < (a * 1_000_000 + d - 1) / d <= 1_000_000) by (nonlinear_arith)
        requires a > 999 * 4_000_000, d == a + 4_000_000;
}

/// Two boxes have a positive intersection exactly when they overlap with
/// positive extent along both axes; the intersection is then below the
/// union plus `EPSILON_AREA`, so their exact overlap fraction, and their
/// intersection over union in millionths, are positive.
pub proof fn lemma_positive_overlap(a: Corners, b: Corners)
    ensures
        iou_of(a, b) > 0 <==> intersection_area(a, b) > 0,
        intersection_area(a, b) > 0 <==> (min_int(a.2 as int, b.2 as int) > max_int(
            a.0 as int,
            b.0 as int,
        ) && min_int(a.3 as int, b.3 as int) > max_int(a.1 as int, b.1 as int)),
        intersection_area(a, b) > 0 ==> 0 < intersection_area(a, b) < union_area(a, b)
            + EPSILON_AREA,
{
    let w = overlap_width(a, b);
    let h = overlap_height(a, b);
    lemma_intersection_within(a, b);
    if w > 0 && h > 0 {
        assert(w * h > 0) by (nonlinear_arith)
            requires w > 0, h > 0;
    } else {
        assert(w * h == 0) by (nonlinear_arith)
            requires w >= 0, h >= 0, w == 0 || h == 0;
    }
    let den = union_area(a, b) + EPSILON_AREA;
    if den > 0 {
        lemma_ratio_rounded_up(w * h, den);
    }
}

/// Intersection over union does not depend on the order of its arguments.
pub proof fn lemma_iou_symmetric(a: Corners, b: Corners)
    ensures
        iou_of(a, b) == iou_of(b, a),
{
    assert(overlap_width(a, b) == overlap_width(b, a));
    assert(overlap_height(a, b) == overlap_height(b, a));
    assert(intersection_area(a, b) == intersection_area(b, a)) by (nonlinear_arith)
        requires overlap_width(a, b) == overlap_width(b, a),
            overlap_height(a, b) == overlap_height(b, a);
}

/// Boxes apart along one axis have an intersection over union of zero.
pub proof fn lemma_iou_disjoint(a: Corners, b: Corners)
    requires
        disjoint(a, b),
    ensures
        iou_of(a, b) == 0,
{
    assert(overlap_width(a, b) == 0 || overlap_height(a, b) == 0);
    assert(intersection_area(a, b) == 0);
    let den = union_area(a, b) + EPSILON_AREA;
    if den > 0 {
        lemma_ratio_rounded_up(0, den);
    }
}

} // verus!
