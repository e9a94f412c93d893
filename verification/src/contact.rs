//! What the two collision systems share: reading the bodies out of the
//! component stores, and writing the corrections back.

use crate::body::{rule_ok, Body, Rule};
use crate::components::{Axis, Collider, Pos, Transform};
use crate::entities::{Entities, Roll};
use crate::geometry::shifted;
use crate::storage::Storage;
use crate::tally::{lemma_tally_complete, lists_contacts, present, resolve, total_owed};
use vstd::prelude::*;

verus! {

/// The body in slot `k`: that of a living entity with a position, a pending
/// displacement and a circular collider. An entity that lacks one of them
/// takes no part in collisions; it is passed over, and is no fault.
pub open spec fn body_at(
    roll: Roll,
    col: Map<int, Collider>,
    pos: Map<int, Pos>,
    tra: Map<int, Transform>,
    k: int,
) -> Option<Body> {
    if roll.live_at(k) && col.contains_key(k) && pos.contains_key(k) && tra.contains_key(k) {
        match col[k] {
            Collider::Circle { radius } => Some(Body { center: pos[k].0, radius }),
            Collider::Rectangle { .. } => None,
        }
    } else {
        None
    }
}

/// The bodies of all slots.
pub open spec fn bodies_of(
    roll: Roll,
    col: Map<int, Collider>,
    pos: Map<int, Pos>,
    tra: Map<int, Transform>,
) -> Seq<Option<Body>> {
    Seq::new(roll.slots(), |k: int| body_at(roll, col, pos, tra, k))
}

/// The pending displacements after a collision pass: that of each body has
/// grown by all that the body is owed, and stops at the edge of the
/// coordinate range; the others are as they were.
pub open spec fn collided(rule: Rule, bodies: Seq<Option<Body>>, tra: Map<int, Transform>) -> Map<int, Transform> {
    Map::new(
        |k: int| tra.contains_key(k),
        |k: int|
            if present(bodies, k) {
                Transform(
                    shifted(
                        tra[k].0,
                        total_owed(rule, bodies, k, bodies.len() as int, Axis::X),
                        total_owed(rule, bodies, k, bodies.len() as int, Axis::Y),
                    ),
                )
            } else {
                tra[k]
            },
    )
}

/// Reads the bodies out of the component stores.
pub fn gather(ent: &Entities, col: &Storage<Collider>, pos: &Storage<Pos>, tra: &Storage<Transform>) -> (bodies: Vec<
    Option<Body>,
>)
    ensures
        bodies@ == bodies_of(ent@, col@, pos@, tra@),
{
    let n: usize = ent.slots();
    let mut bodies: Vec<Option<Body>> = Vec::new();
    let mut k: usize = 0;
    while k < n
        invariant
            k <= n,
            n == ent@.slots(),
            bodies.len() == k,
            forall|j: int| 0 <= j < k ==> #[trigger] bodies[j] == body_at(ent@, col@, pos@, tra@, j),
        decreases n - k,
    {
        let mut found: Option<Body> = None;
        if ent.live_at(k) && tra.contains(k) {
            match (col.get(k), pos.get(k)) {
                (Some(Collider::Circle { radius }), Some(p)) => {
                    found = Some(Body { center: p.0, radius });
                },
                _ => {},
            }
        }
        bodies.push(found);
        k += 1;
    }
    assert(bodies@ =~= bodies_of(ent@, col@, pos@, tra@));
    bodies
}

/// Adds to the pending displacement of each body what the body is owed.
pub fn settle(tra: &mut Storage<Transform>, bodies: &Vec<Option<Body>>, acc: &Vec<(i128, i128)>)
    requires
        acc.len() == bodies.len(),
        forall|k: int| present(bodies@, k) ==> old(tra)@.contains_key(k),
    ensures
        final(tra)@.dom() == old(tra)@.dom(),
        forall|k: int| #[trigger]
            old(tra)@.contains_key(k) ==> final(tra)@[k] == if present(bodies@, k) {
                Transform(shifted(old(tra)@[k].0, acc[k].0 as int, acc[k].1 as int))
            } else {
                old(tra)@[k]
            },
{
    let mut k: usize = 0;
    while k < bodies.len()
        invariant
            k <= bodies.len(),
            acc.len() == bodies.len(),
            forall|j: int| present(bodies@, j) ==> old(tra)@.contains_key(j),
            tra@.dom() == old(tra)@.dom(),
            forall|j: int| #[trigger]
                old(tra)@.contains_key(j) ==> tra@[j] == if present(bodies@, j) && j < k {
                    Transform(shifted(old(tra)@[j].0, acc[j].0 as int, acc[j].1 as int))
                } else {
                    old(tra)@[j]
                },
        decreases bodies.len() - k,
    {
        if bodies[k].is_some() {
            assert(present(bodies@, k as int));
            let pending: Transform = tra.get(k).unwrap();
            let ghost before = tra@;
            tra.insert(k, Transform(pending.0.shifted(acc[k].0, acc[k].1)));
            assert(tra@.dom() =~= before.dom());
        }
        k += 1;
    }
}

/// One collision pass over bodies whose contacts are listed in `pairs`.
pub fn apply(rule: Rule, bodies: &Vec<Option<Body>>, pairs: &Vec<(usize, usize)>, tra: &mut Storage<Transform>)
    requires
        rule_ok(rule),
        lists_contacts(rule, bodies@, pairs@),
        forall|k: int| present(bodies@, k) ==> old(tra)@.contains_key(k),
    ensures
        final(tra)@ == collided(rule, bodies@, old(tra)@),
{
    let acc = resolve(rule, bodies, pairs);
    proof {
        let n = bodies.len() as int;
        assert forall|k: int| 0 <= k < n implies (#[trigger] acc[k]).0 == total_owed(rule, bodies@, k, n, Axis::X)
            && acc[k].1 == total_owed(rule, bodies@, k, n, Axis::Y) by {
            lemma_tally_complete(rule, bodies@, pairs@, k, n, Axis::X);
            lemma_tally_complete(rule, bodies@, pairs@, k, n, Axis::Y);
        }
    }
    settle(tra, bodies, &acc);
    assert(tra@ =~= collided(rule, bodies@, old(tra)@));
}

} // verus!
