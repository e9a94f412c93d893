//! What holds of the collision rules, stated once and proved.

use crate::body::{cell_of, correction, lemma_hit_symmetric, Body, Rule};
use crate::components::{Axis, Transform};
use crate::contact::collided;
use crate::geometry::{is_floor_sqrt, lemma_floor_sqrt_exists, lemma_square_monotone, shifted, Pt};
use crate::narrow::{circle_push, circles_overlap, dist_sq, fine_dist, lemma_below_floor_sqrt, scaled, FINE};
use crate::tally::{joins, listed, lists_contacts, owed, present, total_owed, touching};
use vstd::prelude::*;

verus! {

/// Rounding towards zero commutes with a change of sign.
pub proof fn lemma_scaled_odd(delta: int, num: int, den: int)
    requires
        den > 0,
    ensures
        scaled(-delta, num, den) == -scaled(delta, num, den),
{
    if delta == 0 {
        assert(0 * num == 0);
        assert((0int) / den == 0) by (nonlinear_arith)
            requires
                den > 0,
        ;
    }
}

/// The distance in parts of a step: it is positive where the centres differ,
/// and below the sum of the radii where the circles overlap.
pub proof fn lemma_fine_dist(p1: Pt, r1: u32, p2: Pt, r2: u32)
    requires
        circles_overlap(p1, r1, p2, r2),
        dist_sq(p1, p2) > 0,
    ensures
        is_floor_sqrt(dist_sq(p1, p2) * (FINE * FINE), fine_dist(p1, p2)),
        0 < fine_dist(p1, p2) < (r1 + r2) * FINE,
{
    let s = dist_sq(p1, p2);
    let reach = (r1 + r2) * FINE;
    let wide = s * (FINE * FINE);
    assert(wide >= FINE * FINE) by (nonlinear_arith)
        requires
            wide == s * (FINE * FINE),
            s >= 1,
    ;
    lemma_floor_sqrt_exists(wide);
    let dist = fine_dist(p1, p2);
    lemma_below_floor_sqrt(FINE as int, wide, dist);
    if dist >= reach {
        lemma_square_monotone(reach, dist);
        assert(reach * reach == (r1 + r2) * (r1 + r2) * (FINE * FINE)) by (nonlinear_arith)
            requires
                reach == (r1 + r2) * FINE,
        ;
        assert(s * (FINE * FINE) < (r1 + r2) * (r1 + r2) * (FINE * FINE)) by (nonlinear_arith)
            requires
                s < (r1 + r2) * (r1 + r2),
        ;
    }
}

/// The two circles of a pair are owed opposite corrections.
pub proof fn lemma_push_opposite(p1: Pt, r1: u32, p2: Pt, r2: u32)
    ensures
        match circle_push(p1, r1, p2, r2) {
            Some(v) => circle_push(p2, r2, p1, r1) == Some((-v.0, -v.1)),
            None => circle_push(p2, r2, p1, r1) is None,
        },
{
    let dx = p1.x - p2.x;
    let dy = p1.y - p2.y;
    assert(dx * dx == (-dx) * (-dx)) by (nonlinear_arith);
    assert(dy * dy == (-dy) * (-dy)) by (nonlinear_arith);
    assert(dist_sq(p1, p2) == dist_sq(p2, p1));
    assert((r1 + r2) * (r1 + r2) == (r2 + r1) * (r2 + r1));
    let s = dist_sq(p1, p2);
    let dist = fine_dist(p1, p2);
    let reach = (r1 + r2) * FINE;
    if 0 < s && s < (r1 + r2) * (r1 + r2) {
        lemma_fine_dist(p1, r1, p2, r2);
        lemma_scaled_odd(dx, reach - dist, 2 * dist);
        lemma_scaled_odd(dy, reach - dist, 2 * dist);
    }
}

/// One coordinate of a corrected offset: with `a` the size of the old
/// coordinate and `e` that of the new one, `e` is `a` stretched from `dist`
/// to `reach`, short by less than two steps.
proof fn lemma_stretch(a: int, reach: int, dist: int)
    requires
        0 <= a,
        0 < dist < reach,
    ensures
        ({
            let e = a + 2 * ((a * (reach - dist)) / (2 * dist));
            dist * e <= a * reach && a * reach < dist * (e + 2) && 0 <= e
        }),
{
    let m = reach - dist;
    let q = (a * m) / (2 * dist);
    assert(0 <= a * m) by (nonlinear_arith)
        requires
            0 <= a,
            0 <= m,
    ;
    assert(0 <= q && q * (2 * dist) <= a * m && a * m < (q + 1) * (2 * dist)) by (nonlinear_arith)
        requires
            q == (a * m) / (2 * dist),
            0 <= a * m,
            0 < dist,
    ;
    let e = a + 2 * q;
    assert(dist * e == a * dist + q * (2 * dist)) by (nonlinear_arith)
        requires
            e == a + 2 * q,
    ;
    assert(dist * (e + 2) == a * dist + (q + 1) * (2 * dist)) by (nonlinear_arith)
        requires
            e == a + 2 * q,
    ;
    assert(a * reach == a * dist + a * m) by (nonlinear_arith)
        requires
            reach == dist + m,
    ;
}

/// The size of `v`.
pub open spec fn size(v: int) -> int {
    if v >= 0 {
        v
    } else {
        -v
    }
}

/// The offset between two overlapping circles after each has made its
/// correction: the first has moved by the push, the second by its opposite.
pub open spec fn parted(p1: Pt, r1: u32, p2: Pt, r2: u32) -> (int, int) {
    let push = circle_push(p1, r1, p2, r2).unwrap();
    (p1.x - p2.x + 2 * push.0, p1.y - p2.y + 2 * push.1)
}

/// Two overlapping circles whose centres differ are corrected to touch.
/// With `reach` the sum of the radii and `dist` the old distance, both in
/// parts of a step and `dist` rounded down, the new distance is at most the
/// sum of the radii, stretched by what `dist` lacks of the old distance, and
/// it is short of the sum of the radii by less than two steps on each axis.
/// Where nothing is rounded, it is the sum of the radii exactly.
pub proof fn lemma_pair_parts_to_touch(p1: Pt, r1: u32, p2: Pt, r2: u32)
    requires
        circles_overlap(p1, r1, p2, r2),
        dist_sq(p1, p2) > 0,
    ensures
        circle_push(p1, r1, p2, r2) is Some,
        ({
            let far = r1 + r2;
            let reach = far * FINE;
            let s = dist_sq(p1, p2);
            let dist = fine_dist(p1, p2);
            let after = parted(p1, r1, p2, r2);
            let gone = after.0 * after.0 + after.1 * after.1;
            &&& 0 < dist < reach
            &&& dist * dist * gone <= s * (reach * reach)
            &&& (size(after.0) + 2) * (size(after.0) + 2) + (size(after.1) + 2) * (size(after.1) + 2) > far * far
            &&& (dist * dist == s * (FINE * FINE) && ((p1.x - p2.x) * (reach - dist)) % (2 * dist) == 0 && ((p1.y
                - p2.y) * (reach - dist)) % (2 * dist) == 0) ==> gone == far * far
        }),
{
    let far = r1 + r2;
    let reach = far * FINE;
    let s = dist_sq(p1, p2);
    let wide = s * (FINE * FINE);
    lemma_fine_dist(p1, r1, p2, r2);
    let dist = fine_dist(p1, p2);
    let m = reach - dist;
    let dx = p1.x - p2.x;
    let dy = p1.y - p2.y;
    let a = size(dx);
    let b = size(dy);
    let push = circle_push(p1, r1, p2, r2).unwrap();
    let after = parted(p1, r1, p2, r2);
    let ea = a + 2 * ((a * m) / (2 * dist));
    let eb = b + 2 * ((b * m) / (2 * dist));
    lemma_stretch(a, reach, dist);
    lemma_stretch(b, reach, dist);
    assert(size(after.0) == ea) by {
        if dx == 0 {
            assert(0 * m == 0);
        }
        assert(0 <= (a * m) / (2 * dist));
    }
    assert(size(after.1) == eb) by {
        if dy == 0 {
            assert(0 * m == 0);
        }
        assert(0 <= (b * m) / (2 * dist));
    }
    let gone = after.0 * after.0 + after.1 * after.1;
    assert(gone == ea * ea + eb * eb) by (nonlinear_arith)
        requires
            gone == after.0 * after.0 + after.1 * after.1,
            ea == after.0 || ea == -after.0,
            eb == after.1 || eb == -after.1,
    ;
    assert(s == a * a + b * b) by (nonlinear_arith)
        requires
            s == dx * dx + dy * dy,
            a == dx || a == -dx,
            b == dy || b == -dy,
    ;
    assert((dist * ea) * (dist * ea) <= (a * reach) * (a * reach)) by {
        assert(0 <= dist * ea) by (nonlinear_arith)
            requires
                0 <= dist,
                0 <= ea,
        ;
        lemma_square_monotone(dist * ea, a * reach);
    }
    assert((dist * eb) * (dist * eb) <= (b * reach) * (b * reach)) by {
        assert(0 <= dist * eb) by (nonlinear_arith)
            requires
                0 <= dist,
                0 <= eb,
        ;
        lemma_square_monotone(dist * eb, b * reach);
    }
    assert(dist * dist * gone == (dist * ea) * (dist * ea) + (dist * eb) * (dist * eb)) by (nonlinear_arith)
        requires
            gone == ea * ea + eb * eb,
    ;
    assert(s * (reach * reach) == (a * reach) * (a * reach) + (b * reach) * (b * reach)) by (nonlinear_arith)
        requires
            s == a * a + b * b,
    ;
    let fa = ea + 2;
    let fb = eb + 2;
    assert((a * reach) * (a * reach) <= (dist * fa) * (dist * fa)) by {
        assert(0 <= a * reach) by (nonlinear_arith)
            requires
                0 <= a,
                0 <= reach,
        ;
        lemma_square_monotone(a * reach, dist * fa);
    }
    assert((b * reach) * (b * reach) <= (dist * fb) * (dist * fb)) by {
        assert(0 <= b * reach) by (nonlinear_arith)
            requires
                0 <= b,
                0 <= reach,
        ;
        lemma_square_monotone(b * reach, dist * fb);
    }
    assert(s * (reach * reach) == wide * (far * far)) by (nonlinear_arith)
        requires
            reach == far * FINE,
            wide == s * (FINE * FINE),
    ;
    assert(fa * fa + fb * fb > far * far) by {
        assert(a > 0 || b > 0) by {
            if a == 0 && b == 0 {
                assert(a * a + b * b == 0) by (nonlinear_arith)
                    requires
                        a == 0,
                        b == 0,
                ;
            }
        }
        assert((a * reach) * (a * reach) + (b * reach) * (b * reach) < (dist * fa) * (dist * fa) + (dist * fb) * (dist
            * fb)) by {
            if a > 0 {
                assert(0 < a * reach) by (nonlinear_arith)
                    requires
                        0 < a,
                        0 < reach,
                ;
                assert((a * reach) * (a * reach) < (dist * fa) * (dist * fa)) by (nonlinear_arith)
                    requires
                        0 < a * reach < dist * fa,
                ;
            } else {
                assert(0 < b * reach) by (nonlinear_arith)
                    requires
                        0 < b,
                        0 < reach,
                ;
                assert((b * reach) * (b * reach) < (dist * fb) * (dist * fb)) by (nonlinear_arith)
                    requires
                        0 < b * reach < dist * fb,
                ;
            }
        }
        assert((dist * fa) * (dist * fa) + (dist * fb) * (dist * fb) == dist * dist * (fa * fa + fb * fb))
            by (nonlinear_arith);
        assert(0 <= far * far) by (nonlinear_arith);
        assert(dist * dist * (far * far) <= wide * (far * far)) by (nonlinear_arith)
            requires
                dist * dist <= wide,
                0 <= far * far,
        ;
        assert(dist * dist * (far * far) < dist * dist * (fa * fa + fb * fb));
        assert(far * far < fa * fa + fb * fb) by (nonlinear_arith)
            requires
                dist * dist * (far * far) < dist * dist * (fa * fa + fb * fb),
                0 < dist,
        ;
    }
    if dist * dist == wide && (dx * m) % (2 * dist) == 0 && (dy * m) % (2 * dist) == 0 {
        lemma_exact(a, dx, m, dist);
        lemma_exact(b, dy, m, dist);
        assert(dist * ea == a * reach) by (nonlinear_arith)
            requires
                ea == a + 2 * ((a * m) / (2 * dist)),
                ((a * m) / (2 * dist)) * (2 * dist) == a * m,
                reach == dist + m,
        ;
        assert(dist * eb == b * reach) by (nonlinear_arith)
            requires
                eb == b + 2 * ((b * m) / (2 * dist)),
                ((b * m) / (2 * dist)) * (2 * dist) == b * m,
                reach == dist + m,
        ;
        assert(dist * dist * gone == dist * dist * (far * far));
        assert(gone == far * far) by (nonlinear_arith)
            requires
                dist * dist * gone == dist * dist * (far * far),
                0 < dist,
        ;
    }
}

/// Where `2 * dist` divides `delta * m`, it divides the product of the size
/// of `delta` and `m` with nothing left over.
proof fn lemma_exact(a: int, delta: int, m: int, dist: int)
    requires
        a == size(delta),
        0 < dist,
        (delta * m) % (2 * dist) == 0,
    ensures
        ((a * m) / (2 * dist)) * (2 * dist) == a * m,
{
    let den = 2 * dist;
    if delta >= 0 {
        vstd::arithmetic::div_mod::lemma_fundamental_div_mod(a * m, den);
        assert(((a * m) / den) * den == den * ((a * m) / den)) by (nonlinear_arith);
    } else {
        assert(a * m == -(delta * m)) by (nonlinear_arith)
            requires
                a == -delta,
        ;
        vstd::arithmetic::div_mod::lemma_fundamental_div_mod(delta * m, den);
        let q = (delta * m) / den;
        assert(delta * m == den * q);
        assert(a * m == (-q) * den + 0) by (nonlinear_arith)
            requires
                a * m == -(delta * m),
                delta * m == den * q,
        ;
        vstd::arithmetic::div_mod::lemma_fundamental_div_mod_converse(a * m, den, -q, 0);
        assert((a * m) / den == -q);
        assert(((a * m) / den) * den == a * m);
    }
}

/// A body that touches no other is owed nothing.
pub proof fn lemma_untouched_owed_nothing(rule: Rule, bodies: Seq<Option<Body>>, k: int, n: int, axis: Axis)
    requires
        forall|f: int| !#[trigger] touching(rule, bodies, k, f),
    ensures
        total_owed(rule, bodies, k, n, axis) == 0,
    decreases n,
{
    if n > 0 {
        lemma_untouched_owed_nothing(rule, bodies, k, n - 1, axis);
        assert(!touching(rule, bodies, k, n - 1));
    }
}

/// A collision pass leaves the pending displacement of a body that touches
/// no other as it was: circles whose centres are at least the sum of their
/// radii apart are not corrected.
pub proof fn lemma_apart_stays(rule: Rule, bodies: Seq<Option<Body>>, tra: Map<int, Transform>, k: int)
    requires
        tra.contains_key(k),
        forall|f: int| !#[trigger] touching(rule, bodies, k, f),
    ensures
        collided(rule, bodies, tra)[k] == tra[k],
{
    lemma_untouched_owed_nothing(rule, bodies, k, bodies.len() as int, Axis::X);
    lemma_untouched_owed_nothing(rule, bodies, k, bodies.len() as int, Axis::Y);
}

/// A body with one contact is owed what it is owed for that contact.
pub proof fn lemma_single_contact(rule: Rule, bodies: Seq<Option<Body>>, k: int, g: int, n: int, axis: Axis)
    requires
        0 <= g,
        forall|f: int| f != g ==> !#[trigger] touching(rule, bodies, k, f),
    ensures
        total_owed(rule, bodies, k, n, axis) == if g < n {
            owed(rule, bodies, k, g, axis)
        } else {
            0
        },
    decreases n,
{
    if n > 0 {
        lemma_single_contact(rule, bodies, k, g, n - 1, axis);
        if n - 1 != g {
            assert(!touching(rule, bodies, k, n - 1));
        }
    }
}

/// A collision pass over a pair of overlapping circles that touch no
/// others: the pending displacement of the one grows by the push, and that
/// of the other by its opposite.
pub proof fn lemma_isolated_pair(bodies: Seq<Option<Body>>, tra: Map<int, Transform>, k: int, g: int)
    requires
        tra.contains_key(k),
        tra.contains_key(g),
        touching(Rule::Separate, bodies, k, g),
        forall|f: int| f != g ==> !#[trigger] touching(Rule::Separate, bodies, k, f),
        forall|f: int| f != k ==> !#[trigger] touching(Rule::Separate, bodies, g, f),
    ensures
        ({
            let a = bodies[k].unwrap();
            let b = bodies[g].unwrap();
            let push = correction(Rule::Separate, a, b);
            let after = collided(Rule::Separate, bodies, tra);
            &&& after[k] == Transform(shifted(tra[k].0, push.0, push.1))
            &&& after[g] == Transform(shifted(tra[g].0, -push.0, -push.1))
        }),
{
    let n = bodies.len() as int;
    lemma_single_contact(Rule::Separate, bodies, k, g, n, Axis::X);
    lemma_single_contact(Rule::Separate, bodies, k, g, n, Axis::Y);
    lemma_single_contact(Rule::Separate, bodies, g, k, n, Axis::X);
    lemma_single_contact(Rule::Separate, bodies, g, k, n, Axis::Y);
    let a = bodies[k].unwrap();
    let b = bodies[g].unwrap();
    lemma_push_opposite(a.center, a.radius, b.center, b.radius);
}

/// Coordinates nearer than the side of a cell lie in the same column or row,
/// or in two that touch.
pub proof fn lemma_near_cells(u: i32, v: i32, scale: u32)
    requires
        scale > 0,
        -scale < u - v < scale,
    ensures
        -1 <= cell_of(u, scale) - cell_of(v, scale) <= 1,
{
    let a = u - i32::MIN;
    let b = v - i32::MIN;
    let c = scale as int;
    vstd::arithmetic::div_mod::lemma_fundamental_div_mod(a, c);
    vstd::arithmetic::div_mod::lemma_fundamental_div_mod(b, c);
    vstd::arithmetic::div_mod::lemma_mod_bound(a, c);
    vstd::arithmetic::div_mod::lemma_mod_bound(b, c);
    let qa = a / c;
    let qb = b / c;
    assert(-1 <= qa - qb <= 1) by (nonlinear_arith)
        requires
            a == c * qa + a % c,
            b == c * qb + b % c,
            0 <= a % c < c,
            0 <= b % c < c,
            -c < a - b < c,
            c > 0,
    ;
}

/// With circles whose diameter is the threshold, and cells no smaller than
/// the threshold, the grid and the sweep count the same pairs as contacts:
/// the pairs of circles that overlap.
pub proof fn lemma_rules_agree(bodies: Seq<Option<Body>>, scale: u32, threshold: u32, a: int, b: int)
    requires
        scale >= threshold,
        scale > 0,
        forall|k: int| #[trigger] present(bodies, k) ==> 2 * bodies[k].unwrap().radius == threshold,
    ensures
        touching(Rule::Separate, bodies, a, b) <==> touching(Rule::Nudge { scale, threshold }, bodies, a, b),
        touching(Rule::Separate, bodies, a, b) <==> present(bodies, a) && present(bodies, b) && a != b
            && circles_overlap(
            bodies[a].unwrap().center,
            bodies[a].unwrap().radius,
            bodies[b].unwrap().center,
            bodies[b].unwrap().radius,
        ),
{
    if present(bodies, a) && present(bodies, b) && a != b {
        let p = bodies[a].unwrap();
        let q = bodies[b].unwrap();
        let dx = p.center.x - q.center.x;
        let dy = p.center.y - q.center.y;
        let t = threshold as int;
        assert(p.radius + q.radius == t);
        if dist_sq(p.center, q.center) < t * t {
            assert(-t < dx < t && -t < dy < t) by (nonlinear_arith)
                requires
                    dx * dx + dy * dy < t * t,
                    0 <= t,
            ;
            lemma_near_cells(p.center.x, q.center.x, scale);
            lemma_near_cells(p.center.y, q.center.y, scale);
        }
    }
}

/// The grid and the sweep find the same set of contacts, under the
/// conditions of `lemma_rules_agree`: a pair is in the list of the one
/// exactly when it is in the list of the other.
pub proof fn lemma_strategies_agree(
    bodies: Seq<Option<Body>>,
    scale: u32,
    threshold: u32,
    swept: Seq<(usize, usize)>,
    gridded: Seq<(usize, usize)>,
    a: int,
    b: int,
)
    requires
        scale >= threshold,
        scale > 0,
        forall|k: int| #[trigger] present(bodies, k) ==> 2 * bodies[k].unwrap().radius == threshold,
        lists_contacts(Rule::Separate, bodies, swept),
        lists_contacts(Rule::Nudge { scale, threshold }, bodies, gridded),
    ensures
        listed(swept, swept.len() as int, a, b) <==> listed(gridded, gridded.len() as int, a, b),
{
    let grid = Rule::Nudge { scale, threshold };
    lemma_rules_agree(bodies, scale, threshold, a, b);
    lemma_listed_is_contact(Rule::Separate, bodies, swept, a, b);
    lemma_listed_is_contact(grid, bodies, gridded, a, b);
}

/// A list of the contacts lists a pair exactly when the pair is a contact.
pub proof fn lemma_listed_is_contact(rule: Rule, bodies: Seq<Option<Body>>, pairs: Seq<(usize, usize)>, a: int, b: int)
    requires
        lists_contacts(rule, bodies, pairs),
    ensures
        listed(pairs, pairs.len() as int, a, b) <==> touching(rule, bodies, a, b),
{
    if listed(pairs, pairs.len() as int, a, b) {
        let p = choose|p: int| 0 <= p < pairs.len() && p < pairs.len() && #[trigger] joins(pairs[p], a, b);
        assert(touching(rule, bodies, pairs[p].0 as int, pairs[p].1 as int));
        if pairs[p].0 == b {
            lemma_hit_symmetric(rule, bodies[b].unwrap(), bodies[a].unwrap());
        }
    }
}

} // verus!
