//! From a list of contacts to the correction that each body is owed.

use crate::body::{correct, correction, hit, hits, rule_ok, Body, Rule};
use crate::components::Axis;
use vstd::prelude::*;

verus! {

/// The coordinate of an offset on `axis`.
pub open spec fn pick(v: (int, int), axis: Axis) -> int {
    match axis {
        Axis::X => v.0,
        Axis::Y => v.1,
    }
}

/// Slot `k` holds a body.
pub open spec fn present(bodies: Seq<Option<Body>>, k: int) -> bool {
    0 <= k < bodies.len() && bodies[k] is Some
}

/// Slots `k` and `f` hold two different bodies that are in contact.
pub open spec fn touching(rule: Rule, bodies: Seq<Option<Body>>, k: int, f: int) -> bool {
    present(bodies, k) && present(bodies, f) && k != f && hit(rule, bodies[k].unwrap(), bodies[f].unwrap())
}

/// What the body in slot `k` is owed on `axis` for its contact with the body
/// in slot `f`; nothing where either slot is empty or the two are the same.
pub open spec fn owed(rule: Rule, bodies: Seq<Option<Body>>, k: int, f: int, axis: Axis) -> int {
    if present(bodies, k) && present(bodies, f) && k != f {
        pick(correction(rule, bodies[k].unwrap(), bodies[f].unwrap()), axis)
    } else {
        0
    }
}

/// What the body in slot `k` is owed on `axis` for its contacts with the
/// bodies in the first `n` slots.
pub open spec fn total_owed(rule: Rule, bodies: Seq<Option<Body>>, k: int, n: int, axis: Axis) -> int
    decreases n,
{
    if n <= 0 {
        0
    } else {
        total_owed(rule, bodies, k, n - 1, axis) + owed(rule, bodies, k, n - 1, axis)
    }
}

/// `pair` is the pair of `a` and `b`, in either order.
pub open spec fn joins(pair: (usize, usize), a: int, b: int) -> bool {
    (pair.0 == a && pair.1 == b) || (pair.0 == b && pair.1 == a)
}

/// The pair of `a` and `b` is among the first `upto` entries of `pairs`.
pub open spec fn listed(pairs: Seq<(usize, usize)>, upto: int, a: int, b: int) -> bool {
    exists|p: int| 0 <= p < upto && p < pairs.len() && #[trigger] joins(pairs[p], a, b)
}

/// No pair occurs twice in the list, in either order, and no entry pairs a
/// slot with itself.
pub open spec fn pairs_distinct(pairs: Seq<(usize, usize)>) -> bool {
    &&& forall|p: int| 0 <= p < pairs.len() ==> (#[trigger] pairs[p]).0 != pairs[p].1
    &&& forall|p: int, q: int|
        0 <= p < q < pairs.len() ==> !joins(#[trigger] pairs[q], (#[trigger] pairs[p]).0 as int, pairs[p].1 as int)
}

/// The list holds exactly the contacts among `bodies`.
pub open spec fn lists_contacts(rule: Rule, bodies: Seq<Option<Body>>, pairs: Seq<(usize, usize)>) -> bool {
    &&& pairs_distinct(pairs)
    &&& forall|p: int|
        0 <= p < pairs.len() ==> touching(rule, bodies, (#[trigger] pairs[p]).0 as int, pairs[p].1 as int)
    &&& forall|a: int, b: int| #[trigger]
        touching(rule, bodies, a, b) ==> listed(pairs, pairs.len() as int, a, b)
}

/// The list pairs bodies only, and no body with itself.
pub open spec fn pairs_bodies(bodies: Seq<Option<Body>>, pairs: Seq<(usize, usize)>) -> bool {
    forall|p: int|
        0 <= p < pairs.len() ==> present(bodies, (#[trigger] pairs[p]).0 as int) && present(bodies, pairs[p].1 as int)
            && pairs[p].0 != pairs[p].1
}

/// Those of the first `n` candidates that are contacts, in their order.
pub open spec fn confirmed(rule: Rule, bodies: Seq<Option<Body>>, cands: Seq<(usize, usize)>, n: int) -> Seq<
    (usize, usize),
>
    decreases n,
{
    if n <= 0 {
        Seq::empty()
    } else if touching(rule, bodies, cands[n - 1].0 as int, cands[n - 1].1 as int) {
        confirmed(rule, bodies, cands, n - 1).push(cands[n - 1])
    } else {
        confirmed(rule, bodies, cands, n - 1)
    }
}

/// What is confirmed of the first `n` candidates: contacts, each of them one
/// of those candidates, and every contact among those candidates.
pub proof fn lemma_confirmed(rule: Rule, bodies: Seq<Option<Body>>, cands: Seq<(usize, usize)>, n: int)
    requires
        0 <= n <= cands.len(),
        pairs_distinct(cands),
    ensures
        pairs_distinct(confirmed(rule, bodies, cands, n)),
        forall|p: int|
            0 <= p < confirmed(rule, bodies, cands, n).len() ==> {
                let pair = #[trigger] confirmed(rule, bodies, cands, n)[p];
                touching(rule, bodies, pair.0 as int, pair.1 as int) && listed(cands, n, pair.0 as int, pair.1 as int)
            },
        forall|a: int, b: int| #[trigger]
            touching(rule, bodies, a, b) && listed(cands, n, a, b) ==> listed(
                confirmed(rule, bodies, cands, n),
                confirmed(rule, bodies, cands, n).len() as int,
                a,
                b,
            ),
    decreases n,
{
    if n > 0 {
        lemma_confirmed(rule, bodies, cands, n - 1);
        let prev = confirmed(rule, bodies, cands, n - 1);
        let now = confirmed(rule, bodies, cands, n);
        let last = cands[n - 1];
        let kept = touching(rule, bodies, last.0 as int, last.1 as int);
        assert forall|p: int| 0 <= p < now.len() implies {
            let pair = #[trigger] now[p];
            touching(rule, bodies, pair.0 as int, pair.1 as int) && listed(cands, n, pair.0 as int, pair.1 as int)
        } by {
            if p < prev.len() {
                let pair = prev[p];
                assert(now[p] == pair);
                let q = choose|q: int|
                    0 <= q < n - 1 && q < cands.len() && #[trigger] joins(cands[q], pair.0 as int, pair.1 as int);
                assert(joins(cands[q], pair.0 as int, pair.1 as int));
            } else {
                assert(now[p] == last);
                assert(joins(cands[n - 1], last.0 as int, last.1 as int));
            }
        }
        assert forall|p: int| 0 <= p < now.len() implies (#[trigger] now[p]).0 != now[p].1 by {
            if p < prev.len() {
                assert(now[p] == prev[p]);
            }
        }
        assert forall|p: int, q: int| 0 <= p < q < now.len() implies !joins(
            #[trigger] now[q],
            (#[trigger] now[p]).0 as int,
            now[p].1 as int,
        ) by {
            assert(now[p] == prev[p]);
            if q < prev.len() {
                assert(now[q] == prev[q]);
            } else {
                let pair = prev[p];
                let w = choose|w: int|
                    0 <= w < n - 1 && w < cands.len() && #[trigger] joins(cands[w], pair.0 as int, pair.1 as int);
                assert(!joins(cands[n - 1], cands[w].0 as int, cands[w].1 as int));
            }
        }
        assert forall|a: int, b: int| #[trigger] touching(rule, bodies, a, b) && listed(cands, n, a, b) implies listed(
            now,
            now.len() as int,
            a,
            b,
        ) by {
            let q = choose|q: int| 0 <= q < n && q < cands.len() && #[trigger] joins(cands[q], a, b);
            if q < n - 1 {
                assert(listed(cands, n - 1, a, b));
                let w = choose|w: int| 0 <= w < prev.len() && w < prev.len() && #[trigger] joins(prev[w], a, b);
                assert(joins(now[w], a, b));
            } else {
                if !kept {
                    assert(touching(rule, bodies, b, a)) by {
                        crate::body::lemma_hit_symmetric(rule, bodies[a].unwrap(), bodies[b].unwrap());
                    }
                }
                assert(joins(now[now.len() - 1], a, b));
            }
        }
    }
}

/// Where the candidates hold every contact, what is confirmed of them is the
/// list of the contacts.
pub proof fn lemma_confirmed_lists_contacts(rule: Rule, bodies: Seq<Option<Body>>, cands: Seq<(usize, usize)>)
    requires
        pairs_distinct(cands),
        forall|a: int, b: int| #[trigger] touching(rule, bodies, a, b) ==> listed(cands, cands.len() as int, a, b),
    ensures
        lists_contacts(rule, bodies, confirmed(rule, bodies, cands, cands.len() as int)),
{
    lemma_confirmed(rule, bodies, cands, cands.len() as int);
}

/// The narrow test: keeps the candidates that are contacts.
pub fn confirm(rule: Rule, bodies: &Vec<Option<Body>>, cands: &Vec<(usize, usize)>) -> (pairs: Vec<(usize, usize)>)
    requires
        rule_ok(rule),
        pairs_bodies(bodies@, cands@),
    ensures
        pairs@ == confirmed(rule, bodies@, cands@, cands.len() as int),
{
    let mut pairs: Vec<(usize, usize)> = Vec::new();
    let mut p: usize = 0;
    while p < cands.len()
        invariant
            p <= cands.len(),
            rule_ok(rule),
            pairs_bodies(bodies@, cands@),
            pairs@ == confirmed(rule, bodies@, cands@, p as int),
        decreases cands.len() - p,
    {
        let pair: (usize, usize) = cands[p];
        assert(present(bodies@, cands@[p as int].0 as int) && present(bodies@, cands@[p as int].1 as int));
        let a: Body = bodies[pair.0].unwrap();
        let b: Body = bodies[pair.1].unwrap();
        if hits(rule, a, b) {
            pairs.push(pair);
        }
        p += 1;
    }
    pairs
}

/// What the body in slot `k` is owed on `axis` for those of its contacts with
/// the first `n` slots that are among the first `upto` entries of `pairs`.
pub open spec fn tallied(
    rule: Rule,
    bodies: Seq<Option<Body>>,
    pairs: Seq<(usize, usize)>,
    upto: int,
    k: int,
    n: int,
    axis: Axis,
) -> int
    decreases n,
{
    if n <= 0 {
        0
    } else {
        tallied(rule, bodies, pairs, upto, k, n - 1, axis) + if listed(pairs, upto, k, n - 1) {
            owed(rule, bodies, k, n - 1, axis)
        } else {
            0
        }
    }
}

/// What entry `pair` adds to the tally of slot `k` over the first `n` slots.
pub open spec fn gain(rule: Rule, bodies: Seq<Option<Body>>, pair: (usize, usize), k: int, n: int, axis: Axis) -> int {
    if k == pair.0 && pair.1 < n {
        owed(rule, bodies, k, pair.1 as int, axis)
    } else if k == pair.1 && pair.0 < n {
        owed(rule, bodies, k, pair.0 as int, axis)
    } else {
        0
    }
}

/// Before any entry is read, nothing is tallied.
pub proof fn lemma_tally_start(
    rule: Rule,
    bodies: Seq<Option<Body>>,
    pairs: Seq<(usize, usize)>,
    k: int,
    n: int,
    axis: Axis,
)
    ensures
        tallied(rule, bodies, pairs, 0, k, n, axis) == 0,
    decreases n,
{
    if n > 0 {
        lemma_tally_start(rule, bodies, pairs, k, n - 1, axis);
    }
}

/// Reading one more entry adds its gain to the tally of each slot.
pub proof fn lemma_tally_step(
    rule: Rule,
    bodies: Seq<Option<Body>>,
    pairs: Seq<(usize, usize)>,
    p: int,
    k: int,
    n: int,
    axis: Axis,
)
    requires
        pairs_distinct(pairs),
        0 <= p < pairs.len(),
    ensures
        tallied(rule, bodies, pairs, p + 1, k, n, axis) == tallied(rule, bodies, pairs, p, k, n, axis) + gain(
            rule,
            bodies,
            pairs[p],
            k,
            n,
            axis,
        ),
    decreases n,
{
    if n > 0 {
        lemma_tally_step(rule, bodies, pairs, p, k, n - 1, axis);
        let f = n - 1;
        if joins(pairs[p], k, f) {
            assert(listed(pairs, p + 1, k, f));
            if listed(pairs, p, k, f) {
                let q = choose|q: int| 0 <= q < p && q < pairs.len() && #[trigger] joins(pairs[q], k, f);
                assert(joins(pairs[p], pairs[q].0 as int, pairs[q].1 as int));
            }
        } else {
            if listed(pairs, p + 1, k, f) {
                let q = choose|q: int| 0 <= q < p + 1 && q < pairs.len() && #[trigger] joins(pairs[q], k, f);
                assert(q < p);
                assert(listed(pairs, p, k, f));
            }
            if listed(pairs, p, k, f) {
                let q = choose|q: int| 0 <= q < p && q < pairs.len() && #[trigger] joins(pairs[q], k, f);
                assert(listed(pairs, p + 1, k, f));
            }
        }
    }
}

/// Once every contact of slot `k` is listed, its tally is all it is owed.
pub proof fn lemma_tally_complete(
    rule: Rule,
    bodies: Seq<Option<Body>>,
    pairs: Seq<(usize, usize)>,
    k: int,
    n: int,
    axis: Axis,
)
    requires
        forall|f: int| #[trigger] touching(rule, bodies, k, f) ==> listed(pairs, pairs.len() as int, k, f),
    ensures
        tallied(rule, bodies, pairs, pairs.len() as int, k, n, axis) == total_owed(rule, bodies, k, n, axis),
    decreases n,
{
    if n > 0 {
        lemma_tally_complete(rule, bodies, pairs, k, n - 1, axis);
        lemma_owed_needs_contact(rule, bodies, k, n - 1, axis);
    }
}

/// A body is owed nothing for a body that it is not in contact with.
pub proof fn lemma_owed_needs_contact(rule: Rule, bodies: Seq<Option<Body>>, k: int, f: int, axis: Axis)
    ensures
        owed(rule, bodies, k, f, axis) != 0 ==> touching(rule, bodies, k, f),
{
}

/// Adds up, body by body, the corrections for the listed contacts.
pub fn resolve(rule: Rule, bodies: &Vec<Option<Body>>, pairs: &Vec<(usize, usize)>) -> (acc: Vec<(i128, i128)>)
    requires
        rule_ok(rule),
        pairs_distinct(pairs@),
        forall|p: int|
            0 <= p < pairs.len() ==> present(bodies@, (#[trigger] pairs[p]).0 as int) && present(
                bodies@,
                pairs[p].1 as int,
            ),
    ensures
        acc.len() == bodies.len(),
        forall|k: int|
            0 <= k < bodies.len() ==> (#[trigger] acc[k]).0 == tallied(
                rule,
                bodies@,
                pairs@,
                pairs.len() as int,
                k,
                bodies.len() as int,
                Axis::X,
            ) && acc[k].1 == tallied(rule, bodies@, pairs@, pairs.len() as int, k, bodies.len() as int, Axis::Y),
{
    let n: usize = bodies.len();
    let mut acc: Vec<(i128, i128)> = Vec::new();
    let mut k: usize = 0;
    while k < n
        invariant
            k <= n,
            n == bodies.len(),
            acc.len() == k,
            forall|j: int| 0 <= j < k ==> #[trigger] acc[j] == (0i128, 0i128),
        decreases n - k,
    {
        acc.push((0i128, 0i128));
        k += 1;
    }
    proof {
        assert forall|j: int| 0 <= j < n implies (#[trigger] acc[j]).0 == tallied(
            rule,
            bodies@,
            pairs@,
            0,
            j,
            n as int,
            Axis::X,
        ) && acc[j].1 == tallied(rule, bodies@, pairs@, 0, j, n as int, Axis::Y) by {
            lemma_tally_start(rule, bodies@, pairs@, j, n as int, Axis::X);
            lemma_tally_start(rule, bodies@, pairs@, j, n as int, Axis::Y);
        }
    }
    let mut p: usize = 0;
    while p < pairs.len()
        invariant
            p <= pairs.len(),
            n == bodies.len(),
            acc.len() == n,
            rule_ok(rule),
            pairs_distinct(pairs@),
            forall|q: int|
                0 <= q < pairs.len() ==> present(bodies@, (#[trigger] pairs[q]).0 as int) && present(
                    bodies@,
                    pairs[q].1 as int,
                ),
            forall|j: int|
                0 <= j < n ==> (#[trigger] acc[j]).0 == tallied(rule, bodies@, pairs@, p as int, j, n as int, Axis::X)
                    && acc[j].1 == tallied(rule, bodies@, pairs@, p as int, j, n as int, Axis::Y),
            forall|j: int|
                0 <= j < n ==> -(p * 0x8000_0000_0000_0000) <= (#[trigger] acc[j]).0 <= p * 0x8000_0000_0000_0000
                    && -(p * 0x8000_0000_0000_0000) <= acc[j].1 <= p * 0x8000_0000_0000_0000,
        decreases pairs.len() - p,
    {
        let a: usize = pairs[p].0;
        let b: usize = pairs[p].1;
        assert(present(bodies@, pairs[p as int].0 as int) && present(bodies@, pairs[p as int].1 as int));
        let first: Body = bodies[a].unwrap();
        let second: Body = bodies[b].unwrap();
        let to_first: (i64, i64) = correct(rule, first, second);
        let to_second: (i64, i64) = correct(rule, second, first);
        assert(p * 0x8000_0000_0000_0000 + 0x8000_0000_0000_0000 <= i128::MAX) by (nonlinear_arith)
            requires
                p < usize::MAX,
                usize::MAX <= 0xffff_ffff_ffff_ffff,
        ;
        let ghost before = acc@;
        let old_a: (i128, i128) = acc[a];
        acc.set(a, (old_a.0 + to_first.0 as i128, old_a.1 + to_first.1 as i128));
        let old_b: (i128, i128) = acc[b];
        acc.set(b, (old_b.0 + to_second.0 as i128, old_b.1 + to_second.1 as i128));
        proof {
            assert((p + 1) * 0x8000_0000_0000_0000 == p * 0x8000_0000_0000_0000 + 0x8000_0000_0000_0000)
                by (nonlinear_arith);
            assert forall|j: int| 0 <= j < n implies (#[trigger] acc[j]).0 == tallied(
                rule,
                bodies@,
                pairs@,
                p + 1,
                j,
                n as int,
                Axis::X,
            ) && acc[j].1 == tallied(rule, bodies@, pairs@, p + 1, j, n as int, Axis::Y) by {
                lemma_tally_step(rule, bodies@, pairs@, p as int, j, n as int, Axis::X);
                lemma_tally_step(rule, bodies@, pairs@, p as int, j, n as int, Axis::Y);
                assert(before[j].0 == tallied(rule, bodies@, pairs@, p as int, j, n as int, Axis::X));
            }
        }
        p += 1;
    }
    acc
}

} // verus!
