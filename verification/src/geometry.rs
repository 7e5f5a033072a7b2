//! Lengths and positions in fixed-point arithmetic: the distance between two
//! nodes, the point at a given fraction of an edge, and the sum of path
//! costs.

use crate::types::{DataNode, Length, POSITION_SCALE};
use vstd::prelude::*;

verus! {

/// `r` is the square root of `n`, rounded down.
pub open spec fn is_floor_sqrt(n: int, r: int) -> bool {
    0 <= r && r * r <= n < (r + 1) * (r + 1)
}

/// The square of the straight-line distance between two nodes.
pub open spec fn square_distance(a: DataNode, b: DataNode) -> int {
    (a.lng - b.lng) * (a.lng - b.lng) + (a.lat - b.lat) * (a.lat - b.lat)
}

/// The straight-line distance between two nodes, rounded down.
pub open spec fn distance(a: DataNode, b: DataNode) -> int {
    choose|r: int| is_floor_sqrt(square_distance(a, b), r)
}

/// A length that no straight-line distance between two nodes reaches.
pub const DISTANCE_LIMIT: u64 = 8_589_934_592;

/// Every number that is not negative has a square root, rounded down.
pub proof fn lemma_floor_sqrt_exists(n: int)
    requires
        n >= 0,
    ensures
        exists|r: int| is_floor_sqrt(n, r),
    decreases n,
{
    if n == 0 {
        assert(is_floor_sqrt(0, 0));
    } else {
        let below = n - 1;
        lemma_floor_sqrt_exists(below);
        let r = choose|r: int| is_floor_sqrt(below, r);
        if (r + 1) * (r + 1) <= n {
            assert((r + 1) * (r + 1) < (r + 2) * (r + 2)) by (nonlinear_arith)
                requires
                    r >= 0,
            ;
            assert(is_floor_sqrt(n, r + 1));
        } else {
            assert(is_floor_sqrt(n, r));
        }
    }
}

/// The straight-line distance between two nodes is the square root of its
/// square, rounded down, and stays below the limit.
pub proof fn lemma_distance_bound(a: DataNode, b: DataNode)
    ensures
        is_floor_sqrt(square_distance(a, b), distance(a, b)),
        0 <= distance(a, b) < DISTANCE_LIMIT,
{
    let dx = a.lng - b.lng;
    let dy = a.lat - b.lat;
    assert(0 <= dx * dx <= 0xFFFF_FFFF * 0xFFFF_FFFF) by (nonlinear_arith)
        requires
            -0xFFFF_FFFF <= dx <= 0xFFFF_FFFF,
    ;
    assert(0 <= dy * dy <= 0xFFFF_FFFF * 0xFFFF_FFFF) by (nonlinear_arith)
        requires
            -0xFFFF_FFFF <= dy <= 0xFFFF_FFFF,
    ;
    lemma_floor_sqrt_exists(square_distance(a, b));
    let r = distance(a, b);
    if r >= 8_589_934_592 {
        assert(r * r >= 8_589_934_592 * 8_589_934_592) by (nonlinear_arith)
            requires
                r >= 8_589_934_592,
        ;
    }
}

/// The distance between two coordinates on one axis.
pub open spec fn span(a: i32, b: i32) -> int {
    if a <= b {
        b - a
    } else {
        a - b
    }
}

/// Between two nodes on a line along an axis, the straight-line distance
/// is the distance of their coordinates on that axis: nothing is rounded.
pub proof fn lemma_distance_on_axis(a: DataNode, b: DataNode)
    ensures
        a.lat == b.lat ==> distance(a, b) == span(a.lng, b.lng),
        a.lng == b.lng ==> distance(a, b) == span(a.lat, b.lat),
{
    lemma_distance_bound(a, b);
    if a.lat == b.lat {
        let d = span(a.lng, b.lng);
        assert(square_distance(a, b) == d * d) by (nonlinear_arith)
            requires
                a.lat == b.lat,
                d == a.lng - b.lng || d == b.lng - a.lng,
                square_distance(a, b) == (a.lng - b.lng) * (a.lng - b.lng) + (a.lat - b.lat) * (
                a.lat - b.lat),
        ;
        assert(d * d < (d + 1) * (d + 1)) by (nonlinear_arith)
            requires
                d >= 0,
        ;
        lemma_floor_sqrt_unique(square_distance(a, b), d, distance(a, b));
    }
    if a.lng == b.lng {
        let d = span(a.lat, b.lat);
        assert(square_distance(a, b) == d * d) by (nonlinear_arith)
            requires
                a.lng == b.lng,
                d == a.lat - b.lat || d == b.lat - a.lat,
                square_distance(a, b) == (a.lng - b.lng) * (a.lng - b.lng) + (a.lat - b.lat) * (
                a.lat - b.lat),
        ;
        assert(d * d < (d + 1) * (d + 1)) by (nonlinear_arith)
            requires
                d >= 0,
        ;
        lemma_floor_sqrt_unique(square_distance(a, b), d, distance(a, b));
    }
}

/// The sum of two costs, which stops at the largest length: a cost that
/// large stands for "out of reach".
pub open spec fn cost_sum(a: Length, b: Length) -> Length {
    if a + b > Length::MAX {
        Length::MAX
    } else {
        (a + b) as Length
    }
}

/// The coordinate at the fraction `pos` of the way from `from` to `to`,
/// rounded towards `from`.
pub open spec fn point_between(from: i32, to: i32, pos: u64) -> int {
    if from <= to {
        from + ((to - from) * pos) / (POSITION_SCALE as int)
    } else {
        from - ((from - to) * pos) / (POSITION_SCALE as int)
    }
}

/// The position `dist` as a fraction of the stretch from `from` to `to`.
pub open spec fn relative_position(dist: u64, from: u64, to: u64) -> int {
    ((dist - from) * POSITION_SCALE) / ((to - from) as int)
}

/// A position strictly inside a stretch is, as a fraction of the stretch,
/// below the whole.
pub proof fn lemma_relative_position(dist: u64, from: u64, to: u64)
    requires
        from < dist < to,
    ensures
        0 <= relative_position(dist, from, to) < POSITION_SCALE,
{
    let offset = (dist - from) as int;
    let span = (to - from) as int;
    assert(0 <= (offset * 1000000) / span < 1000000) by (nonlinear_arith)
        requires
            0 <= offset < span,
    ;
}

/// A number has one rounded-down square root.
pub proof fn lemma_floor_sqrt_unique(n: int, r: int, s: int)
    requires
        is_floor_sqrt(n, r),
        is_floor_sqrt(n, s),
    ensures
        r == s,
{
    if r < s {
        assert((r + 1) * (r + 1) <= s * s) by (nonlinear_arith)
            requires
                0 <= r,
                r + 1 <= s,
        ;
    } else if s < r {
        assert((s + 1) * (s + 1) <= r * r) by (nonlinear_arith)
            requires
                0 <= s,
                s + 1 <= r,
        ;
    }
}

/// The square root of `n`, rounded down.
pub fn isqrt(n: u128) -> (r: u64)
    requires
        n < 0x4_0000_0000_0000_0000,
    ensures
        is_floor_sqrt(n as int, r as int),
{
    let mut lo: u128 = 0;
    let mut hi: u128 = 0x4_0000_0000;
    assert(0x4_0000_0000int * 0x4_0000_0000int > n) by (nonlinear_arith)
        requires
            n < 0x4_0000_0000_0000_0000,
    ;
    while hi - lo > 1
        invariant
            lo < hi <= 0x4_0000_0000,
            lo * lo <= n < hi * hi,
        decreases hi - lo,
    {
        let mid: u128 = lo + (hi - lo) / 2;
        assert(mid * mid <= 0x4_0000_0000int * 0x4_0000_0000int) by (nonlinear_arith)
            requires
                0 <= mid <= 0x4_0000_0000,
        ;
        if mid * mid <= n {
            lo = mid;
        } else {
            hi = mid;
        }
    }
    lo as u64
}

/// The straight-line distance between two nodes, rounded down.
pub fn node_distance(a: &DataNode, b: &DataNode) -> (d: Length)
    ensures
        d == distance(*a, *b),
        is_floor_sqrt(square_distance(*a, *b), d as int),
{
    let dx: i64 = a.lng as i64 - b.lng as i64;
    let dy: i64 = a.lat as i64 - b.lat as i64;
    let ux: u128 = if dx < 0 {
        (-dx) as u128
    } else {
        dx as u128
    };
    let uy: u128 = if dy < 0 {
        (-dy) as u128
    } else {
        dy as u128
    };
    assert(ux * ux <= 0xFFFF_FFFFint * 0xFFFF_FFFFint) by (nonlinear_arith)
        requires
            0 <= ux <= 0xFFFF_FFFF,
    ;
    assert(uy * uy <= 0xFFFF_FFFFint * 0xFFFF_FFFFint) by (nonlinear_arith)
        requires
            0 <= uy <= 0xFFFF_FFFF,
    ;
    assert(ux * ux == dx * dx) by (nonlinear_arith)
        requires
            ux == dx || ux == -dx,
    ;
    assert(uy * uy == dy * dy) by (nonlinear_arith)
        requires
            uy == dy || uy == -dy,
    ;
    let d = isqrt(ux * ux + uy * uy);
    proof {
        let s = distance(*a, *b);
        assert(is_floor_sqrt(square_distance(*a, *b), d as int));
        lemma_floor_sqrt_unique(square_distance(*a, *b), d as int, s);
    }
    d
}

/// The sum of two costs, which stops at the largest length.
pub fn add_cost(a: Length, b: Length) -> (sum: Length)
    ensures
        sum == cost_sum(a, b),
{
    a.saturating_add(b)
}

/// The coordinate at the fraction `pos` of the way from `from` to `to`,
/// rounded towards `from`.
pub fn interpolate(from: i32, to: i32, pos: u64) -> (at: i32)
    requires
        pos <= POSITION_SCALE,
    ensures
        at == point_between(from, to, pos),
        from <= to ==> from <= at <= to,
        to <= from ==> to <= at <= from,
{
    if from <= to {
        let span: u64 = (to as i64 - from as i64) as u64;
        assert(span * pos <= span * POSITION_SCALE) by (nonlinear_arith)
            requires
                pos <= POSITION_SCALE,
                0 <= span,
        ;
        assert(span * POSITION_SCALE <= 0xFFFF_FFFF * 1000000) by (nonlinear_arith)
            requires
                span <= 0xFFFF_FFFF,
        ;
        let step: u64 = span * pos / POSITION_SCALE;
        assert(step <= span) by (nonlinear_arith)
            requires
                step == (span * pos) / 1000000,
                span * pos <= span * 1000000,
                0 <= span,
        ;
        (from as i64 + step as i64) as i32
    } else {
        let span: u64 = (from as i64 - to as i64) as u64;
        assert(span * pos <= span * POSITION_SCALE) by (nonlinear_arith)
            requires
                pos <= POSITION_SCALE,
                0 <= span,
        ;
        assert(span * POSITION_SCALE <= 0xFFFF_FFFF * 1000000) by (nonlinear_arith)
            requires
                span <= 0xFFFF_FFFF,
        ;
        let step: u64 = span * pos / POSITION_SCALE;
        assert(step <= span) by (nonlinear_arith)
            requires
                step == (span * pos) / 1000000,
                span * pos <= span * 1000000,
                0 <= span,
        ;
        (from as i64 - step as i64) as i32
    }
}

/// The position `dist`, which lies between `from` and `to`, as a fraction of
/// the stretch from `from` to `to`.
pub fn rescale(dist: u64, from: u64, to: u64) -> (pos: u64)
    requires
        from <= dist < to,
    ensures
        pos == relative_position(dist, from, to),
        pos < POSITION_SCALE,
{
    let offset: u128 = (dist - from) as u128;
    let span: u128 = (to - from) as u128;
    assert(offset * 1000000 <= 0xFFFF_FFFF_FFFF_FFFF * 1000000) by (nonlinear_arith)
        requires
            offset <= 0xFFFF_FFFF_FFFF_FFFF,
    ;
    let scaled: u128 = offset * (POSITION_SCALE as u128);
    let pos: u128 = scaled / span;
    assert(pos < 1000000) by (nonlinear_arith)
        requires
            pos == (offset * 1000000) / (span as int),
            0 <= offset < span,
    ;
    pos as u64
}

} // verus!
