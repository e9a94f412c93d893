//! Bodies, the rules by which two of them are corrected, and what each rule
//! counts as a contact.

use crate::components::{Collider, Pos};
use crate::geometry::Pt;
use crate::narrow::{circle_push, circles_overlap, collision_bump, dist_sq};
use vstd::prelude::*;

verus! {

/// What the collision pass reads of an entity: the centre and the radius of
/// its circle.
#[derive(Clone, Copy, Debug, PartialEq, Eq, Structural)]
pub struct Body {
    pub center: Pt,
    pub radius: u32,
}

/// How contacts are found and corrected.
#[derive(Clone, Copy, Debug, PartialEq, Eq, Structural)]
pub enum Rule {
    /// Circles that overlap are pushed apart until they touch.
    Separate,
    /// Bodies in the same or in adjacent grid cells of side `scale`, whose
    /// centres are nearer than `threshold`, are each moved by half of their
    /// offset, whatever their radii.
    Nudge { scale: u32, threshold: u32 },
}

/// The column or row of the grid in which a coordinate lies, counted from the
/// low edge of the coordinate range.
pub open spec fn cell_of(v: i32, scale: u32) -> int {
    (v - i32::MIN) / (scale as int)
}

/// Two points lie in the same grid cell or in cells that touch, corners
/// included.
pub open spec fn adjacent(p: Pt, q: Pt, scale: u32) -> bool {
    &&& -1 <= cell_of(p.x, scale) - cell_of(q.x, scale) <= 1
    &&& -1 <= cell_of(p.y, scale) - cell_of(q.y, scale) <= 1
}

/// Half of `v`, rounded towards zero.
pub open spec fn half(v: int) -> int {
    if v >= 0 {
        v / 2
    } else {
        -((-v) / 2)
    }
}

/// A rule that can be applied: a grid needs cells of positive side.
pub open spec fn rule_ok(rule: Rule) -> bool {
    match rule {
        Rule::Separate => true,
        Rule::Nudge { scale, threshold } => scale > 0,
    }
}

/// The two bodies are in contact under `rule`.
pub open spec fn hit(rule: Rule, a: Body, b: Body) -> bool {
    match rule {
        Rule::Separate => circles_overlap(a.center, a.radius, b.center, b.radius),
        Rule::Nudge { scale, threshold } => adjacent(a.center, b.center, scale) && dist_sq(
            a.center,
            b.center,
        ) < threshold * threshold,
    }
}

/// The correction that `rule` owes to `a` for its contact with `b`; nothing
/// where they are not in contact or their centres coincide.
pub open spec fn correction(rule: Rule, a: Body, b: Body) -> (int, int) {
    match rule {
        Rule::Separate => match circle_push(a.center, a.radius, b.center, b.radius) {
            Some(v) => v,
            None => (0, 0),
        },
        Rule::Nudge { scale, threshold } => if hit(rule, a, b) {
            (half(a.center.x - b.center.x), half(a.center.y - b.center.y))
        } else {
            (0, 0)
        },
    }
}

/// Being in contact does not depend on the order of the two bodies.
pub proof fn lemma_hit_symmetric(rule: Rule, a: Body, b: Body)
    ensures
        hit(rule, a, b) == hit(rule, b, a),
{
    let dx = a.center.x - b.center.x;
    let dy = a.center.y - b.center.y;
    assert(dx * dx == (-dx) * (-dx)) by (nonlinear_arith);
    assert(dy * dy == (-dy) * (-dy)) by (nonlinear_arith);
    assert(dist_sq(a.center, b.center) == dist_sq(b.center, a.center));
    assert((a.radius + b.radius) * (a.radius + b.radius) == (b.radius + a.radius) * (b.radius + a.radius));
}

/// A coordinate counted from the low edge of the coordinate range.
fn lifted(v: i32) -> (u: u64)
    ensures
        u as int == v - i32::MIN,
{
    (v as i64 - i32::MIN as i64) as u64
}

/// The grid column or row of a coordinate.
pub fn cell_index(v: i32, scale: u32) -> (c: u64)
    requires
        scale > 0,
    ensures
        c as int == cell_of(v, scale),
        c <= 0xffff_ffff,
{
    let u: u64 = lifted(v);
    proof {
        vstd::arithmetic::div_mod::lemma_div_is_ordered_by_denominator(u as int, 1, scale as int);
        vstd::arithmetic::div_mod::lemma_div_basics(u as int);
        vstd::arithmetic::div_mod::lemma_div_pos_is_pos(u as int, scale as int);
    }
    u / (scale as u64)
}

/// Whether two points lie in the same grid cell or in touching ones.
pub fn is_adjacent(p: Pt, q: Pt, scale: u32) -> (b: bool)
    requires
        scale > 0,
    ensures
        b == adjacent(p, q, scale),
{
    let px: u64 = cell_index(p.x, scale);
    let qx: u64 = cell_index(q.x, scale);
    let py: u64 = cell_index(p.y, scale);
    let qy: u64 = cell_index(q.y, scale);
    px <= qx + 1 && qx <= px + 1 && py <= qy + 1 && qy <= py + 1
}

/// The square of the distance between two points.
pub fn distance_squared(p: Pt, q: Pt) -> (s: u128)
    ensures
        s as int == dist_sq(p, q),
        s <= 2 * (0xffff_ffff * 0xffff_ffff),
{
    let dx: i128 = p.x as i128 - q.x as i128;
    let dy: i128 = p.y as i128 - q.y as i128;
    assert(0 <= dx * dx <= 0xffff_ffff * 0xffff_ffff) by (nonlinear_arith)
        requires
            -0xffff_ffff <= dx <= 0xffff_ffff,
    ;
    assert(0 <= dy * dy <= 0xffff_ffff * 0xffff_ffff) by (nonlinear_arith)
        requires
            -0xffff_ffff <= dy <= 0xffff_ffff,
    ;
    (dx * dx + dy * dy) as u128
}

/// Half of the difference of two coordinates, rounded towards zero.
fn half_gap(a: i32, b: i32) -> (h: i64)
    ensures
        h as int == half(a - b),
{
    let d: i64 = a as i64 - b as i64;
    if d >= 0 {
        d / 2
    } else {
        -((-d) / 2)
    }
}

/// Whether two bodies are in contact under `rule`.
pub fn hits(rule: Rule, a: Body, b: Body) -> (r: bool)
    requires
        rule_ok(rule),
    ensures
        r == hit(rule, a, b),
{
    let s: u128 = distance_squared(a.center, b.center);
    match rule {
        Rule::Separate => {
            let reach: u128 = a.radius as u128 + b.radius as u128;
            assert(reach * reach <= 0x1_ffff_fffe * 0x1_ffff_fffe) by (nonlinear_arith)
                requires
                    reach <= 0x1_ffff_fffe,
            ;
            s < reach * reach
        },
        Rule::Nudge { scale, threshold } => {
            let t: u128 = threshold as u128;
            assert(t * t <= 0xffff_ffff * 0xffff_ffff) by (nonlinear_arith)
                requires
                    t <= 0xffff_ffff,
            ;
            is_adjacent(a.center, b.center, scale) && s < t * t
        },
    }
}

/// The correction that `rule` owes to `a` for its contact with `b`.
pub fn correct(rule: Rule, a: Body, b: Body) -> (r: (i64, i64))
    requires
        rule_ok(rule),
    ensures
        (r.0 as int, r.1 as int) == correction(rule, a, b),
{
    match rule {
        Rule::Separate => {
            let found = collision_bump(
                &Pos(a.center),
                &Collider::Circle { radius: a.radius },
                &Pos(b.center),
                &Collider::Circle { radius: b.radius },
            );
            match found {
                Some(v) => v,
                None => (0, 0),
            }
        },
        Rule::Nudge { scale, threshold } => {
            if hits(rule, a, b) {
                (half_gap(a.center.x, b.center.x), half_gap(a.center.y, b.center.y))
            } else {
                (0, 0)
            }
        },
    }
}

} // verus!
