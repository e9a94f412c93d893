//! The narrow phase: the exact test of two shapes and the correction that
//! parts them.

use crate::components::{Collider, Pos};
use crate::geometry::{floor_sqrt, is_floor_sqrt, isqrt, lemma_square_monotone, Pt};
use vstd::prelude::*;

verus! {

/// The square of the distance between two points.
pub open spec fn dist_sq(p: Pt, q: Pt) -> int {
    (p.x - q.x) * (p.x - q.x) + (p.y - q.y) * (p.y - q.y)
}

/// Two circles overlap: their centres are nearer than the sum of the radii.
pub open spec fn circles_overlap(p1: Pt, r1: u32, p2: Pt, r2: u32) -> bool {
    dist_sq(p1, p2) < (r1 + r2) * (r1 + r2)
}

/// `delta * num / den`, rounded towards zero.
pub open spec fn scaled(delta: int, num: int, den: int) -> int {
    if delta >= 0 {
        (delta * num) / den
    } else {
        -(((-delta) * num) / den)
    }
}

/// The number of parts into which a coordinate step is divided when the
/// distance between two centres is measured.
pub const FINE: u64 = 65536;

/// The distance between two points in parts of a step, rounded down.
pub open spec fn fine_dist(p: Pt, q: Pt) -> int {
    floor_sqrt(dist_sq(p, q) * (FINE * FINE))
}

/// The correction owed to the first of two circles: half of the missing
/// distance, along the line from the second centre to the first, that is
/// their offset times the missing distance over twice the distance, rounded
/// towards zero. The second circle is owed the opposite. Circles that do not
/// overlap, and circles whose centres coincide, are owed nothing.
pub open spec fn circle_push(p1: Pt, r1: u32, p2: Pt, r2: u32) -> Option<(int, int)> {
    let s = dist_sq(p1, p2);
    let dist = fine_dist(p1, p2);
    let reach = (r1 + r2) * FINE;
    if 0 < s && s < (r1 + r2) * (r1 + r2) {
        Some((scaled(p1.x - p2.x, reach - dist, 2 * dist), scaled(p1.y - p2.y, reach - dist, 2 * dist)))
    } else {
        None
    }
}

/// The correction owed to the first of two colliders. Only a pair of circles
/// is ever corrected: rectangles take no part in collisions.
pub open spec fn bump(p1: Pos, c1: Collider, p2: Pos, c2: Collider) -> Option<(int, int)> {
    match (c1, c2) {
        (Collider::Circle { radius: r1 }, Collider::Circle { radius: r2 }) => circle_push(p1.0, r1, p2.0, r2),
        _ => None,
    }
}

/// An integer whose square does not exceed `s` does not exceed the integer
/// square root of `s`.
pub proof fn lemma_below_floor_sqrt(a: int, s: int, d: int)
    requires
        0 <= a,
        a * a <= s,
        is_floor_sqrt(s, d),
    ensures
        a <= d,
{
    if a > d {
        lemma_square_monotone(d + 1, a);
    }
}

/// The size of a correction: at most half of the missing distance.
pub proof fn lemma_scaled_bound(a: int, missing: int, dist: int)
    requires
        0 <= a <= dist,
        0 < dist,
        0 <= missing,
    ensures
        0 <= (a * missing) / (2 * dist) <= missing / 2,
        (a * missing) / (2 * dist) <= missing,
{
    assert(a * missing <= dist * missing) by (nonlinear_arith)
        requires
            0 <= a <= dist,
            0 <= missing,
    ;
    assert(0 <= a * missing) by (nonlinear_arith)
        requires
            0 <= a,
            0 <= missing,
    ;
    let q = (a * missing) / (2 * dist);
    assert(0 <= q && q * (2 * dist) <= a * missing) by (nonlinear_arith)
        requires
            q == (a * missing) / (2 * dist),
            0 <= a * missing,
            0 < dist,
    ;
    assert(2 * q <= missing) by (nonlinear_arith)
        requires
            q * (2 * dist) <= dist * missing,
            0 < dist,
    ;
}

/// The distance between two coordinates.
fn gap(a: i32, b: i32) -> (g: u128)
    ensures
        g as int == if a >= b { a - b } else { b - a },
        g <= 0xffff_ffff,
{
    if a >= b {
        (a as i64 - b as i64) as u128
    } else {
        (b as i64 - a as i64) as u128
    }
}

/// One coordinate of a correction, for an offset of size `size`.
fn scale_gap(forward: bool, size: u128, num: u128, den: u128) -> (r: i64)
    requires
        0 < den,
        size * num <= u128::MAX,
        (size * num) / (den as int) <= i64::MAX,
    ensures
        r as int == scaled(if forward { size as int } else { -(size as int) }, num as int, den as int),
{
    let q: u128 = size * num / den;
    if forward {
        q as i64
    } else {
        proof {
            if size == 0 {
                assert(size * num == 0) by (nonlinear_arith)
                    requires
                        size == 0,
                ;
            }
        }
        -(q as i64)
    }
}

/// The correction owed to the first of two colliders, if any; the second is
/// owed the opposite.
pub fn collision_bump(p1: &Pos, c1: &Collider, p2: &Pos, c2: &Collider) -> (r: Option<(i64, i64)>)
    ensures
        match r {
            Some((px, py)) => bump(*p1, *c1, *p2, *c2) == Some((px as int, py as int)),
            None => bump(*p1, *c1, *p2, *c2) is None,
        },
{
    match (c1, c2) {
        (Collider::Circle { radius: r1 }, Collider::Circle { radius: r2 }) => {
            let ax: u128 = gap(p1.0.x, p2.0.x);
            let ay: u128 = gap(p1.0.y, p2.0.y);
            assert(ax * ax <= 0xffff_ffff * 0xffff_ffff) by (nonlinear_arith)
                requires
                    ax <= 0xffff_ffff,
            ;
            assert(ay * ay <= 0xffff_ffff * 0xffff_ffff) by (nonlinear_arith)
                requires
                    ay <= 0xffff_ffff,
            ;
            let s: u128 = ax * ax + ay * ay;
            let reach: u128 = *r1 as u128 + *r2 as u128;
            assert(reach * reach <= 0x1_ffff_fffe * 0x1_ffff_fffe) by (nonlinear_arith)
                requires
                    reach <= 0x1_ffff_fffe,
            ;
            assert(ax * ax == (p1.0.x - p2.0.x) * (p1.0.x - p2.0.x)) by (nonlinear_arith)
                requires
                    ax == p1.0.x - p2.0.x || ax == -(p1.0.x - p2.0.x),
            ;
            assert(ay * ay == (p1.0.y - p2.0.y) * (p1.0.y - p2.0.y)) by (nonlinear_arith)
                requires
                    ay == p1.0.y - p2.0.y || ay == -(p1.0.y - p2.0.y),
            ;
            assert(s as int == dist_sq(p1.0, p2.0));
            if s == 0 || s >= reach * reach {
                return None;
            }
            assert(s * 0x1_0000_0000 <= 2 * (0xffff_ffff * 0xffff_ffff) * 0x1_0000_0000) by (nonlinear_arith)
                requires
                    s <= 2 * (0xffff_ffff * 0xffff_ffff),
            ;
            let fine_s: u128 = s * 0x1_0000_0000;
            let dist: u128 = isqrt(fine_s) as u128;
            let fine_reach: u128 = reach * 65536;
            proof {
                assert(FINE * FINE == 0x1_0000_0000);
                assert(0 <= ax * ax && 0 <= ay * ay) by (nonlinear_arith);
                assert((ax * 65536) * (ax * 65536) == (ax * ax) * 0x1_0000_0000) by (nonlinear_arith);
                assert((ay * 65536) * (ay * 65536) == (ay * ay) * 0x1_0000_0000) by (nonlinear_arith);
                assert(fine_reach * fine_reach == (reach * reach) * 0x1_0000_0000) by (nonlinear_arith)
                    requires
                        fine_reach == reach * 65536,
                ;
                lemma_below_floor_sqrt(ax as int * 65536, fine_s as int, dist as int);
                lemma_below_floor_sqrt(ay as int * 65536, fine_s as int, dist as int);
                lemma_below_floor_sqrt(65536, fine_s as int, dist as int);
                if dist >= fine_reach {
                    lemma_square_monotone(fine_reach as int, dist as int);
                }
            }
            let missing: u128 = fine_reach - dist;
            proof {
                lemma_scaled_bound(ax as int, missing as int, dist as int);
                lemma_scaled_bound(ay as int, missing as int, dist as int);
                assert(ax * missing <= 0xffff_ffff * 0x1_ffff_fffe_0000) by (nonlinear_arith)
                    requires
                        ax <= 0xffff_ffff,
                        missing <= 0x1_ffff_fffe_0000,
                ;
                assert(ay * missing <= 0xffff_ffff * 0x1_ffff_fffe_0000) by (nonlinear_arith)
                    requires
                        ay <= 0xffff_ffff,
                        missing <= 0x1_ffff_fffe_0000,
                ;
            }
            let px: i64 = scale_gap(p1.0.x >= p2.0.x, ax, missing, 2 * dist);
            let py: i64 = scale_gap(p1.0.y >= p2.0.y, ay, missing, 2 * dist);
            Some((px, py))
        },
        _ => None,
    }
}

} // verus!
