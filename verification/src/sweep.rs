//! The sweep-and-prune broad phase: bodies are projected on one axis, kept in
//! the order in which their intervals start, and only bodies whose intervals
//! meet are handed to the narrow phase.

use crate::body::{Body, Rule};
use crate::components::{along, half_extent, Axis, Collider, Pos, Transform};
use crate::contact::{apply, bodies_of, collided, gather};
use crate::entities::Entities;
use crate::narrow::circles_overlap;
use crate::storage::Storage;
use crate::tally::{
    confirm, joins, lemma_confirmed_lists_contacts, listed, lists_contacts, pairs_distinct, present, touching,
};
use vstd::prelude::*;

verus! {

/// The extent of one body on the sweep axis, and the slot of the body.
#[derive(Clone, Copy, Debug)]
pub struct Collider1D {
    pub range: (i64, i64),
    pub ent: usize,
}

/// The interval that a collider at `p` covers on `axis`, as start and end.
pub open spec fn extent(p: Pos, c: Collider, axis: Axis) -> (int, int) {
    (along(p.0, axis) - half_extent(c, axis), along(p.0, axis) + half_extent(c, axis))
}

/// The interval that a body covers on `axis`.
pub open spec fn interval(b: Body, axis: Axis) -> (int, int) {
    extent(Pos(b.center), Collider::Circle { radius: b.radius }, axis)
}

/// The entries are in ascending order of their starts.
pub open spec fn ascending(list: Seq<Collider1D>) -> bool {
    forall|i: int, j: int| 0 <= i < j < list.len() ==> (#[trigger] list[i]).range.0 <= (#[trigger] list[j]).range.0
}

/// The entry describes a body in one of the first `k` slots.
pub open spec fn describes(e: Collider1D, bodies: Seq<Option<Body>>, axis: Axis, k: int) -> bool {
    &&& e.ent < k
    &&& present(bodies, e.ent as int)
    &&& (e.range.0 as int, e.range.1 as int) == interval(bodies[e.ent as int].unwrap(), axis)
}

/// The list holds one entry for each body in the first `k` slots, and no
/// other entry.
pub open spec fn records(list: Seq<Collider1D>, bodies: Seq<Option<Body>>, axis: Axis, k: int) -> bool {
    &&& forall|i: int| 0 <= i < list.len() ==> describes(#[trigger] list[i], bodies, axis, k)
    &&& forall|i: int, j: int| 0 <= i < j < list.len() ==> (#[trigger] list[i]).ent != (#[trigger] list[j]).ent
    &&& forall|f: int|
        0 <= f < k && #[trigger] present(bodies, f) ==> exists|i: int|
            0 <= i < list.len() && (#[trigger] list[i]).ent == f
}

/// Circles that overlap have intervals that overlap, on either axis.
pub proof fn lemma_overlap_meets_on_axis(a: Body, b: Body, axis: Axis)
    requires
        circles_overlap(a.center, a.radius, b.center, b.radius),
    ensures
        interval(b, axis).0 < interval(a, axis).1,
        interval(a, axis).0 < interval(b, axis).1,
{
    let dx = a.center.x - b.center.x;
    let dy = a.center.y - b.center.y;
    let reach = a.radius + b.radius;
    assert(dx * dx + dy * dy < reach * reach);
    assert(-reach < dx < reach && -reach < dy < reach) by (nonlinear_arith)
        requires
            dx * dx + dy * dy < reach * reach,
            0 <= reach,
    ;
}

/// An entry for the body in slot `k`, put where the order asks for it,
/// extends the record of the first `k` slots to the first `k + 1`.
pub proof fn lemma_entry_enters(
    before: Seq<Collider1D>,
    entry: Collider1D,
    at: int,
    bodies: Seq<Option<Body>>,
    axis: Axis,
    k: int,
)
    requires
        0 <= at <= before.len(),
        ascending(before),
        records(before, bodies, axis, k),
        describes(entry, bodies, axis, k + 1),
        entry.ent == k,
        forall|i: int| 0 <= i < at ==> (#[trigger] before[i]).range.0 <= entry.range.0,
        forall|i: int| at <= i < before.len() ==> (#[trigger] before[i]).range.0 > entry.range.0,
    ensures
        ascending(before.insert(at, entry)),
        records(before.insert(at, entry), bodies, axis, k + 1),
{
    before.insert_ensures(at, entry);
    let after = before.insert(at, entry);
    assert forall|i: int| 0 <= i < after.len() implies describes(#[trigger] after[i], bodies, axis, k + 1) by {
        if i < at {
            assert(after[i] == before[i]);
            assert(describes(before[i], bodies, axis, k));
        } else if i > at {
            assert(after[i] == before[i - 1]);
            assert(describes(before[i - 1], bodies, axis, k));
        }
    }
    assert forall|i: int, j: int| 0 <= i < j < after.len() implies (#[trigger] after[i]).ent != (#[trigger] after[j]).ent
        && after[i].range.0 <= after[j].range.0 by {
        let oi = if i < at {
            i
        } else {
            i - 1
        };
        let oj = if j < at {
            j
        } else {
            j - 1
        };
        if i != at {
            assert(after[i] == before[oi]);
            assert(describes(before[oi], bodies, axis, k));
        }
        if j != at {
            assert(after[j] == before[oj]);
            assert(describes(before[oj], bodies, axis, k));
        }
    }
    assert forall|f: int| 0 <= f < k + 1 && #[trigger] present(bodies, f) implies exists|i: int|
        0 <= i < after.len() && (#[trigger] after[i]).ent == f by {
        if f == k {
            assert(after[at].ent == f);
        } else {
            let i = choose|i: int| 0 <= i < before.len() && (#[trigger] before[i]).ent == f;
            if i < at {
                assert(after[i] == before[i]);
                assert(after[i].ent == f);
            } else {
                assert(after[i + 1] == before[i]);
                assert(after[i + 1].ent == f);
            }
        }
    }
}

/// A slot without a body adds nothing to the record.
pub proof fn lemma_slot_is_empty(list: Seq<Collider1D>, bodies: Seq<Option<Body>>, axis: Axis, k: int)
    requires
        records(list, bodies, axis, k),
        !present(bodies, k),
    ensures
        records(list, bodies, axis, k + 1),
{
    assert forall|i: int| 0 <= i < list.len() implies describes(#[trigger] list[i], bodies, axis, k + 1) by {
        assert(describes(list[i], bodies, axis, k));
    }
}

/// The interval that a collider at `p` covers on `axis`.
pub fn range_for(p: &Pos, c: &Collider, axis: Axis) -> (r: (i64, i64))
    ensures
        (r.0 as int, r.1 as int) == extent(*p, *c, axis),
{
    let centre: i64 = match axis {
        Axis::X => p.0.x as i64,
        Axis::Y => p.0.y as i64,
    };
    let reach: i64 = match c {
        Collider::Circle { radius } => *radius as i64,
        Collider::Rectangle { w, h } => match axis {
            Axis::X => (*w / 2) as i64,
            Axis::Y => (*h / 2) as i64,
        },
    };
    (centre - reach, centre + reach)
}

/// The place at which an interval that starts at `start` enters the list:
/// behind every entry that starts no later.
pub fn place_for(list: &Vec<Collider1D>, start: i64) -> (at: usize)
    requires
        ascending(list@),
    ensures
        at <= list.len(),
        forall|i: int| 0 <= i < at ==> (#[trigger] list[i]).range.0 <= start,
        forall|i: int| at <= i < list.len() ==> (#[trigger] list[i]).range.0 > start,
{
    let mut lo: usize = 0;
    let mut hi: usize = list.len();
    while lo < hi
        invariant
            lo <= hi <= list.len(),
            ascending(list@),
            forall|i: int| 0 <= i < lo ==> (#[trigger] list[i]).range.0 <= start,
            forall|i: int| hi <= i < list.len() ==> (#[trigger] list[i]).range.0 > start,
        decreases hi - lo,
    {
        let mid: usize = lo + (hi - lo) / 2;
        if list[mid].range.0 <= start {
            lo = mid + 1;
        } else {
            hi = mid;
        }
    }
    lo
}

/// The bodies in slots `a` and `b` are two, and on `axis` the interval of
/// the second starts within that of the first.
pub open spec fn starts_within(bodies: Seq<Option<Body>>, axis: Axis, a: int, b: int) -> bool {
    &&& present(bodies, a) && present(bodies, b) && a != b
    &&& interval(bodies[a].unwrap(), axis).0 <= interval(bodies[b].unwrap(), axis).0
    &&& interval(bodies[b].unwrap(), axis).0 < interval(bodies[a].unwrap(), axis).1
}

/// The bodies in slots `a` and `b` are two, and on `axis` their intervals
/// overlap.
pub open spec fn meet(bodies: Seq<Option<Body>>, axis: Axis, a: int, b: int) -> bool {
    &&& present(bodies, a) && present(bodies, b) && a != b
    &&& interval(bodies[b].unwrap(), axis).0 < interval(bodies[a].unwrap(), axis).1
    &&& interval(bodies[a].unwrap(), axis).0 < interval(bodies[b].unwrap(), axis).1
}

/// The list is what a sweep along `axis` hands to the narrow test: no pair
/// twice, only pairs of which one interval starts within the other, and
/// every pair whose intervals overlap.
pub open spec fn swept(bodies: Seq<Option<Body>>, axis: Axis, cands: Seq<(usize, usize)>) -> bool {
    &&& pairs_distinct(cands)
    &&& forall|p: int|
        0 <= p < cands.len() ==> starts_within(bodies, axis, (#[trigger] cands[p]).0 as int, cands[p].1 as int)
    &&& forall|a: int, b: int| #[trigger] meet(bodies, axis, a, b) ==> listed(cands, cands.len() as int, a, b)
}

/// One pair of places of the list comes before another in the order of the
/// sweep.
pub open spec fn before(first: (int, int), second: (int, int)) -> bool {
    first.0 < second.0 || (first.0 == second.0 && first.1 < second.1)
}

/// The pair was found at places `at` of the list, which the sweep has passed
/// when it stands at `(i, j)`: the entry at the second place starts before
/// the entry at the first place ends.
pub open spec fn sourced(list: Seq<Collider1D>, pair: (usize, usize), at: (int, int), i: int, j: int) -> bool {
    &&& 0 <= at.0 < at.1 < list.len()
    &&& at.0 < i || (at.0 == i && at.1 < j)
    &&& pair == (list[at.0].ent, list[at.1].ent)
    &&& list[at.1].range.0 < list[at.0].range.1
}

/// What the sweep has emitted when it stands at `(i, j)`: the pairs at the
/// places that it has passed where the second entry starts before the first
/// ends, in the order of the sweep.
pub open spec fn emitted(
    list: Seq<Collider1D>,
    pairs: Seq<(usize, usize)>,
    origin: Seq<(int, int)>,
    i: int,
    j: int,
) -> bool {
    &&& origin.len() == pairs.len()
    &&& forall|p: int| 0 <= p < origin.len() ==> #[trigger] sourced(list, pairs[p], origin[p], i, j)
    &&& forall|p: int, q: int| 0 <= p < q < origin.len() ==> before(#[trigger] origin[p], #[trigger] origin[q])
    &&& forall|u: int, v: int|
        0 <= u < v < list.len() && (u < i || (u == i && v < j)) && list[v].range.0 < list[u].range.1
            ==> #[trigger] origin.contains((u, v))
}

/// Detects collisions by sweeping the bodies along one axis.
pub struct CollisionSystem {
    list: Vec<Collider1D>,
    axis: Axis,
}

impl CollisionSystem {
    /// The axis along which this system sweeps.
    pub closed spec fn axis(&self) -> Axis {
        self.axis
    }

    /// A system that sweeps along the horizontal axis.
    pub fn new() -> (s: Self)
        ensures
            s.axis() == Axis::X,
    {
        CollisionSystem { list: Vec::new(), axis: Axis::X }
    }

    /// A system that sweeps along `axis`.
    pub fn along(axis: Axis) -> (s: Self)
        ensures
            s.axis() == axis,
    {
        CollisionSystem { list: Vec::new(), axis }
    }

    /// Projects every body on the axis and orders the intervals by start.
    fn rebuild(&mut self, bodies: &Vec<Option<Body>>)
        ensures
            final(self).axis == old(self).axis,
            ascending(final(self).list@),
            records(final(self).list@, bodies@, final(self).axis, bodies.len() as int),
    {
        self.list.clear();
        let axis = self.axis;
        let mut k: usize = 0;
        while k < bodies.len()
            invariant
                k <= bodies.len(),
                self.axis == axis,
                ascending(self.list@),
                records(self.list@, bodies@, axis, k as int),
            decreases bodies.len() - k,
        {
            match bodies[k] {
                Some(b) => {
                    let range = range_for(&Pos(b.center), &Collider::Circle { radius: b.radius }, axis);
                    let entry = Collider1D { range, ent: k };
                    let at: usize = place_for(&self.list, range.0);
                    let ghost before = self.list@;
                    self.list.insert(at, entry);
                    proof {
                        lemma_entry_enters(before, entry, at as int, bodies@, axis, k as int);
                    }
                },
                None => {
                    proof {
                        lemma_slot_is_empty(self.list@, bodies@, axis, k as int);
                    }
                },
            }
            k += 1;
        }
    }

    /// One collision pass: every pair of overlapping circles among the
    /// living entities that have a position, a pending displacement and a
    /// circular collider is pushed apart, half of the correction added to the
    /// pending displacement of each.
    pub fn run(&mut self, ent: &Entities, col: &Storage<Collider>, pos: &Storage<Pos>, tra: &mut Storage<Transform>)
        ensures
            final(self).axis() == old(self).axis(),
            final(tra)@ == collided(Rule::Separate, bodies_of(ent@, col@, pos@, old(tra)@), old(tra)@),
    {
        let bodies = gather(ent, col, pos, tra);
        let pairs = self.detect(&bodies);
        apply(Rule::Separate, &bodies, &pairs, tra);
    }

    /// The contacts among `bodies`: every pair of overlapping circles, once.
    /// Only the candidates of the sweep are put to the narrow test.
    pub fn detect(&mut self, bodies: &Vec<Option<Body>>) -> (pairs: Vec<(usize, usize)>)
        ensures
            final(self).axis() == old(self).axis(),
            lists_contacts(Rule::Separate, bodies@, pairs@),
    {
        let cands = self.candidates(bodies);
        let pairs = confirm(Rule::Separate, bodies, &cands);
        proof {
            let axis = self.axis;
            assert forall|a: int, b: int| #[trigger] touching(Rule::Separate, bodies@, a, b) implies listed(
                cands@,
                cands.len() as int,
                a,
                b,
            ) by {
                lemma_overlap_meets_on_axis(bodies@[a].unwrap(), bodies@[b].unwrap(), axis);
                assert(meet(bodies@, axis, a, b));
            }
            lemma_confirmed_lists_contacts(Rule::Separate, bodies@, cands@);
        }
        pairs
    }

    /// The broad phase: the pairs of bodies that the narrow test has to look
    /// at. The bodies are taken in the order in which their intervals on the
    /// sweep axis start; each is paired with those that follow it, up to the
    /// first that starts no earlier than it ends.
    pub fn candidates(&mut self, bodies: &Vec<Option<Body>>) -> (cands: Vec<(usize, usize)>)
        ensures
            final(self).axis() == old(self).axis(),
            swept(bodies@, old(self).axis(), cands@),
    {
        self.rebuild(bodies);
        let axis = self.axis;
        let n: usize = self.list.len();
        let mut pairs: Vec<(usize, usize)> = Vec::new();
        let ghost mut origin: Seq<(int, int)> = Seq::empty();
        let mut i: usize = 0;
        while i < n
            invariant
                i <= n,
                n == self.list.len(),
                self.axis == axis,
                ascending(self.list@),
                records(self.list@, bodies@, axis, bodies.len() as int),
                emitted(self.list@, pairs@, origin, i as int, i as int),
            decreases n - i,
        {
            let first: Collider1D = self.list[i];
            let mut j: usize = i + 1;
            proof {
                assert forall|p: int| 0 <= p < origin.len() implies #[trigger] sourced(
                    self.list@,
                    pairs@[p],
                    origin[p],
                    i as int,
                    j as int,
                ) by {
                    assert(sourced(self.list@, pairs@[p], origin[p], i as int, i as int));
                }
            }
            while j < n && self.list[j].range.0 < first.range.1
                invariant
                    i < j <= n,
                    n == self.list.len(),
                    self.axis == axis,
                    first == self.list@[i as int],
                    ascending(self.list@),
                    records(self.list@, bodies@, axis, bodies.len() as int),
                    emitted(self.list@, pairs@, origin, i as int, j as int),
                decreases n - j,
            {
                let second: Collider1D = self.list[j];
                let ghost old_origin = origin;
                let ghost old_pairs = pairs@;
                pairs.push((first.ent, second.ent));
                proof {
                    origin = origin.push((i as int, j as int));
                    assert(origin[origin.len() - 1] == (i as int, j as int));
                    assert forall|u: int, v: int|
                        0 <= u < v < n && (u < i || (u == i && v < j + 1)) && self.list@[v].range.0
                            < self.list@[u].range.1 implies #[trigger] origin.contains((u, v)) by {
                        if u == i && v == j {
                            assert(origin[origin.len() - 1] == (u, v));
                        } else {
                            assert(old_origin.contains((u, v)));
                            let p = choose|p: int| 0 <= p < old_origin.len() && old_origin[p] == (u, v);
                            assert(origin[p] == (u, v));
                        }
                    }
                    assert forall|p: int| 0 <= p < origin.len() implies #[trigger] sourced(
                        self.list@,
                        pairs@[p],
                        origin[p],
                        i as int,
                        j + 1,
                    ) by {
                        if p < old_origin.len() {
                            assert(sourced(self.list@, old_pairs[p], old_origin[p], i as int, j as int));
                        }
                    }
                    assert forall|p: int, q: int| 0 <= p < q < origin.len() implies before(
                        #[trigger] origin[p],
                        #[trigger] origin[q],
                    ) by {
                        if q < old_origin.len() {
                            assert(before(old_origin[p], old_origin[q]));
                        } else {
                            assert(sourced(self.list@, old_pairs[p], old_origin[p], i as int, j as int));
                        }
                    }
                }
                j += 1;
            }
            proof {
                assert forall|u: int, v: int|
                    0 <= u < v < n && (u < i + 1 || (u == i + 1 && v < i + 1)) && self.list@[v].range.0
                        < self.list@[u].range.1 implies #[trigger] origin.contains((u, v)) by {
                    if u == i && v >= j {
                        assert(self.list@[j as int].range.0 <= self.list@[v].range.0);
                    }
                }
                assert forall|p: int| 0 <= p < origin.len() implies #[trigger] sourced(
                    self.list@,
                    pairs@[p],
                    origin[p],
                    i + 1,
                    i + 1,
                ) by {
                    assert(sourced(self.list@, pairs@[p], origin[p], i as int, j as int));
                }
            }
            i += 1;
        }
        proof {
            let list = self.list@;
            assert forall|p: int, q: int| 0 <= p < q < pairs@.len() implies !joins(
                #[trigger] pairs@[q],
                (#[trigger] pairs@[p]).0 as int,
                pairs@[p].1 as int,
            ) by {
                assert(sourced(list, pairs@[p], origin[p], n as int, n as int));
                assert(sourced(list, pairs@[q], origin[q], n as int, n as int));
                assert(before(origin[p], origin[q]));
            }
            assert forall|p: int| 0 <= p < pairs@.len() implies starts_within(
                bodies@,
                axis,
                (#[trigger] pairs@[p]).0 as int,
                pairs@[p].1 as int,
            ) by {
                assert(sourced(list, pairs@[p], origin[p], n as int, n as int));
                assert(describes(list[origin[p].0], bodies@, axis, bodies.len() as int));
                assert(describes(list[origin[p].1], bodies@, axis, bodies.len() as int));
            }
            assert forall|p: int| 0 <= p < pairs@.len() implies (#[trigger] pairs@[p]).0 != pairs@[p].1 by {
                assert(sourced(list, pairs@[p], origin[p], n as int, n as int));
            }
            assert forall|x: int, y: int| #[trigger] meet(bodies@, axis, x, y) implies listed(
                pairs@,
                pairs@.len() as int,
                x,
                y,
            ) by {
                let u = choose|u: int| 0 <= u < list.len() && (#[trigger] list[u]).ent == x;
                let v = choose|v: int| 0 <= v < list.len() && (#[trigger] list[v]).ent == y;
                assert(describes(list[u], bodies@, axis, bodies.len() as int));
                assert(describes(list[v], bodies@, axis, bodies.len() as int));
                if u < v {
                    assert(origin.contains((u, v)));
                    let p = choose|p: int| 0 <= p < origin.len() && origin[p] == (u, v);
                    assert(sourced(list, pairs@[p], origin[p], n as int, n as int));
                    assert(joins(pairs@[p], x, y));
                } else {
                    assert(origin.contains((v, u)));
                    let p = choose|p: int| 0 <= p < origin.len() && origin[p] == (v, u);
                    assert(sourced(list, pairs@[p], origin[p], n as int, n as int));
                    assert(joins(pairs@[p], x, y));
                }
            }
        }
        pairs
    }
}

} // verus!
