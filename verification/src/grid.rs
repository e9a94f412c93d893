//! The uniform-grid broad phase: bodies are filed by the grid cell of their
//! centre, and a body is compared only with the bodies of its own cell and
//! of the eight cells around it.

use crate::body::{adjacent, cell_index, cell_of, rule_ok, Body, Rule};
use crate::components::{Collider, Pos, Transform};
use crate::contact::{apply, bodies_of, collided, gather};
use crate::entities::Entities;
use crate::geometry::Pt;
use crate::storage::Storage;
use crate::tally::{
    confirm, joins, lemma_confirmed_lists_contacts, listed, lists_contacts, pairs_distinct, present, touching,
};
use std::collections::HashMap;
use vstd::prelude::*;

verus! {

broadcast use vstd::std_specs::hash::group_hash_axioms;

/// The number under which the cell of `p` is filed.
pub open spec fn cell_key(p: Pt, scale: u32) -> int {
    cell_of(p.x, scale) * 0x1_0000_0000 + cell_of(p.y, scale)
}

/// The turn, of the nine that a scan around `a` takes, in which the cell of
/// `b` is read: columns from low to high, and rows from low to high within a
/// column.
pub open spec fn turn_of(a: Pt, b: Pt, scale: u32) -> int {
    (cell_of(b.x, scale) - cell_of(a.x, scale) + 1) * 3 + (cell_of(b.y, scale) - cell_of(a.y, scale) + 1)
}

/// The bucket holds, in ascending order, slots among the first `k` whose
/// bodies lie in the cell filed under `key`.
pub open spec fn bucket_ok(bucket: Seq<usize>, key: int, bodies: Seq<Option<Body>>, scale: u32, k: int) -> bool {
    &&& forall|u: int|
        0 <= u < bucket.len() ==> (#[trigger] bucket[u]) < k && present(bodies, bucket[u] as int) && cell_key(
            bodies[bucket[u] as int].unwrap().center,
            scale,
        ) == key
    &&& forall|u: int, v: int| 0 <= u < v < bucket.len() ==> (#[trigger] bucket[u]) < (#[trigger] bucket[v])
}

/// Slot `f` is among the first `upto` entries of the bucket.
pub open spec fn holds(bucket: Seq<usize>, upto: int, f: int) -> bool {
    exists|u: int| 0 <= u < upto && u < bucket.len() && #[trigger] bucket[u] == f
}

/// Every body in the first `k` slots is filed under its cell, and nothing
/// else is filed.
pub open spec fn filed(cells: Map<u64, Vec<usize>>, bodies: Seq<Option<Body>>, scale: u32, k: int) -> bool {
    &&& forall|key: u64| #[trigger] cells.contains_key(key) ==> bucket_ok(cells[key]@, key as int, bodies, scale, k)
    &&& forall|f: int|
        0 <= f < k && #[trigger] present(bodies, f) ==> {
            let key = cell_key(bodies[f].unwrap().center, scale) as u64;
            cells.contains_key(key) && holds(cells[key]@, cells[key]@.len() as int, f)
        }
}

/// The scan around slot `k` has read slot `y` when it stands at entry `idx`
/// of turn `t`.
pub open spec fn read(
    cells: Map<u64, Vec<usize>>,
    bodies: Seq<Option<Body>>,
    scale: u32,
    k: int,
    y: int,
    t: int,
    idx: int,
) -> bool {
    let a = bodies[k].unwrap().center;
    let b = bodies[y].unwrap().center;
    let key = cell_key(b, scale) as u64;
    present(bodies, k) && present(bodies, y) && 0 <= turn_of(a, b, scale) && (turn_of(a, b, scale) < t || (turn_of(
        a,
        b,
        scale,
    ) == t && cells.contains_key(key) && holds(cells[key]@, idx, y)))
}

/// The bodies in slots `a` and `b` are two, in the same cell or in cells
/// that touch.
pub open spec fn near(bodies: Seq<Option<Body>>, scale: u32, a: int, b: int) -> bool {
    &&& present(bodies, a) && present(bodies, b) && a != b
    &&& adjacent(bodies[a].unwrap().center, bodies[b].unwrap().center, scale)
}

/// The list is what a grid of cells of side `scale` hands to the narrow
/// test: no pair twice, and exactly the pairs of bodies in the same cell or
/// in cells that touch.
pub open spec fn gridded(bodies: Seq<Option<Body>>, scale: u32, cands: Seq<(usize, usize)>) -> bool {
    &&& pairs_distinct(cands)
    &&& forall|p: int| 0 <= p < cands.len() ==> near(bodies, scale, (#[trigger] cands[p]).0 as int, cands[p].1 as int)
    &&& forall|a: int, b: int| #[trigger] near(bodies, scale, a, b) ==> listed(cands, cands.len() as int, a, b)
}

/// What the scan has emitted when it stands at entry `idx` of turn `t` around
/// slot `k`: the pairs of each earlier slot with the near slots behind it,
/// and those of slot `k` with the near slots behind it that it has read.
pub open spec fn scanned(
    cells: Map<u64, Vec<usize>>,
    bodies: Seq<Option<Body>>,
    scale: u32,
    pairs: Seq<(usize, usize)>,
    k: int,
    t: int,
    idx: int,
) -> bool {
    &&& pairs_distinct(pairs)
    &&& forall|p: int|
        0 <= p < pairs.len() ==> {
            let x = (#[trigger] pairs[p]).0;
            let y = pairs[p].1;
            x < y && near(bodies, scale, x as int, y as int) && (x < k || (x == k && read(
                cells,
                bodies,
                scale,
                k,
                y as int,
                t,
                idx,
            )))
        }
    &&& forall|x: int, y: int|
        x < y && #[trigger] near(bodies, scale, x, y) && (x < k || (x == k && read(cells, bodies, scale, k, y, t, idx)))
            ==> listed(pairs, pairs.len() as int, x, y)
}

/// The cell numbers of two points differ exactly when their cells do.
pub proof fn lemma_cell_key_injective(p: Pt, q: Pt, scale: u32)
    requires
        scale > 0,
    ensures
        0 <= cell_key(p, scale) <= u64::MAX,
        0 <= cell_of(p.x, scale) <= 0xffff_ffff,
        0 <= cell_of(p.y, scale) <= 0xffff_ffff,
        cell_key(p, scale) == cell_key(q, scale) <==> cell_of(p.x, scale) == cell_of(q.x, scale) && cell_of(
            p.y,
            scale,
        ) == cell_of(q.y, scale),
{
    lemma_cell_range(p.x, scale);
    lemma_cell_range(p.y, scale);
    lemma_cell_range(q.x, scale);
    lemma_cell_range(q.y, scale);
}

/// A cell index is a 32-bit number.
pub proof fn lemma_cell_range(v: i32, scale: u32)
    requires
        scale > 0,
    ensures
        0 <= cell_of(v, scale) <= 0xffff_ffff,
{
    let u = v - i32::MIN;
    vstd::arithmetic::div_mod::lemma_div_is_ordered_by_denominator(u, 1, scale as int);
    vstd::arithmetic::div_mod::lemma_div_basics(u);
    vstd::arithmetic::div_mod::lemma_div_pos_is_pos(u, scale as int);
}

/// The cell that turn `t` of a scan around `a` reads, as column and row.
pub open spec fn cell_at_turn(a: Pt, scale: u32, t: int) -> (int, int) {
    (cell_of(a.x, scale) + t / 3 - 1, cell_of(a.y, scale) + t % 3 - 1)
}

/// The grid has the cell in this column and row.
pub open spec fn in_grid(cell: (int, int)) -> bool {
    0 <= cell.0 <= 0xffff_ffff && 0 <= cell.1 <= 0xffff_ffff
}

/// A body in a cell next to that of `a` is read in the turn of its cell, and
/// in no other.
pub proof fn lemma_turn(a: Pt, b: Pt, scale: u32, t: int)
    requires
        scale > 0,
        0 <= t < 9,
    ensures
        adjacent(a, b, scale) ==> 0 <= turn_of(a, b, scale) < 9,
        turn_of(a, b, scale) == t && adjacent(a, b, scale) <==> cell_at_turn(a, scale, t) == (
            cell_of(b.x, scale),
            cell_of(b.y, scale),
        ),
        cell_at_turn(a, scale, t) == (cell_of(b.x, scale), cell_of(b.y, scale)) ==> in_grid(cell_at_turn(a, scale, t))
            && cell_key(b, scale) == cell_at_turn(a, scale, t).0 * 0x1_0000_0000 + cell_at_turn(a, scale, t).1,
{
    lemma_cell_range(b.x, scale);
    lemma_cell_range(b.y, scale);
}

/// A pair that is listed stays listed when the list grows.
pub proof fn lemma_listed_grows(pairs: Seq<(usize, usize)>, more: Seq<(usize, usize)>, x: int, y: int)
    requires
        listed(pairs, pairs.len() as int, x, y),
        pairs.len() <= more.len(),
        forall|p: int| 0 <= p < pairs.len() ==> pairs[p] == more[p],
    ensures
        listed(more, more.len() as int, x, y),
{
    let p = choose|p: int| 0 <= p < pairs.len() && p < pairs.len() && #[trigger] joins(pairs[p], x, y);
    assert(joins(more[p], x, y));
}

/// Reading one entry of a bucket, and listing it where it is a contact with
/// a later slot, keeps the scan's record right.
pub proof fn lemma_scan_entry(
    cells: Map<u64, Vec<usize>>,
    bodies: Seq<Option<Body>>,
    scale: u32,
    old_pairs: Seq<(usize, usize)>,
    pairs: Seq<(usize, usize)>,
    k: int,
    t: int,
    idx: int,
    key: u64,
)
    requires
        scale > 0,
        present(bodies, k),
        0 <= t < 9,
        cells.contains_key(key),
        0 <= idx < cells[key]@.len(),
        in_grid(cell_at_turn(bodies[k].unwrap().center, scale, t)),
        key as int == cell_at_turn(bodies[k].unwrap().center, scale, t).0 * 0x1_0000_0000 + cell_at_turn(
            bodies[k].unwrap().center,
            scale,
            t,
        ).1,
        filed(cells, bodies, scale, bodies.len() as int),
        scanned(cells, bodies, scale, old_pairs, k, t, idx),
        pairs == if cells[key]@[idx] > k {
            old_pairs.push((k as usize, cells[key]@[idx]))
        } else {
            old_pairs
        },
    ensures
        scanned(cells, bodies, scale, pairs, k, t, idx + 1),
{
    let bucket = cells[key]@;
    let f = bucket[idx];
    let a = bodies[k].unwrap();
    assert(bucket_ok(bucket, key as int, bodies, scale, bodies.len() as int));
    let b = bodies[f as int].unwrap();
    lemma_cell_key_injective(b.center, b.center, scale);
    lemma_turn(a.center, b.center, scale, t);
    assert(turn_of(a.center, b.center, scale) == t && adjacent(a.center, b.center, scale)) by {
        lemma_cell_range(b.center.x, scale);
        lemma_cell_range(b.center.y, scale);
        lemma_cell_range(a.center.x, scale);
        lemma_cell_range(a.center.y, scale);
    }
    assert(holds(bucket, idx + 1, f as int));
    assert forall|y: int| read(cells, bodies, scale, k, y, t, idx) implies read(cells, bodies, scale, k, y, t, idx + 1) by {
        let other = bodies[y].unwrap().center;
        let at = cell_key(other, scale) as u64;
        if turn_of(a.center, other, scale) == t {
            let u = choose|u: int| 0 <= u < idx && u < cells[at]@.len() && #[trigger] cells[at]@[u] == y;
            assert(holds(cells[at]@, idx + 1, y));
        }
    }
    assert forall|p: int| 0 <= p < pairs.len() implies {
        let x = (#[trigger] pairs[p]).0;
        let y = pairs[p].1;
        x < y && near(bodies, scale, x as int, y as int) && (x < k || (x == k && read(
            cells,
            bodies,
            scale,
            k,
            y as int,
            t,
            idx + 1,
        )))
    } by {
        if p < old_pairs.len() {
            assert(pairs[p] == old_pairs[p]);
        } else {
            assert(pairs[p] == (k as usize, f));
        }
    }
    assert forall|p: int| 0 <= p < pairs.len() implies (#[trigger] pairs[p]).0 != pairs[p].1 by {
        if p < old_pairs.len() {
            assert(pairs[p] == old_pairs[p]);
        }
    }
    assert forall|p: int, q: int| 0 <= p < q < pairs.len() implies !joins(
        #[trigger] pairs[q],
        (#[trigger] pairs[p]).0 as int,
        pairs[p].1 as int,
    ) by {
        assert(pairs[p] == old_pairs[p]);
        if q < old_pairs.len() {
            assert(pairs[q] == old_pairs[q]);
        } else {
            let x = old_pairs[p].0;
            let y = old_pairs[p].1;
            if x == k && y == f {
                assert(read(cells, bodies, scale, k, y as int, t, idx));
                let u = choose|u: int| 0 <= u < idx && u < bucket.len() && #[trigger] bucket[u] == f;
                assert(bucket[u] < bucket[idx]);
            }
        }
    }
    assert forall|x: int, y: int|
        x < y && #[trigger] near(bodies, scale, x, y) && (x < k || (x == k && read(
            cells,
            bodies,
            scale,
            k,
            y,
            t,
            idx + 1,
        ))) implies listed(pairs, pairs.len() as int, x, y) by {
        if x < k || read(cells, bodies, scale, k, y, t, idx) {
            lemma_listed_grows(old_pairs, pairs, x, y);
        } else {
            let other = bodies[y].unwrap().center;
            let at = cell_key(other, scale) as u64;
            lemma_turn(a.center, other, scale, t);
            lemma_cell_key_injective(other, other, scale);
            assert(at == key);
            let u = choose|u: int| 0 <= u < idx + 1 && u < bucket.len() && #[trigger] bucket[u] == y;
            if u < idx {
                assert(holds(bucket, idx, y));
            }
            assert(y == f);
            assert(joins(pairs[pairs.len() - 1], x, y));
        }
    }
}

/// When a turn is over, the scan has read every body of that turn's cell,
/// so it may start the next turn.
pub proof fn lemma_scan_turn(
    cells: Map<u64, Vec<usize>>,
    bodies: Seq<Option<Body>>,
    scale: u32,
    pairs: Seq<(usize, usize)>,
    k: int,
    t: int,
    reached: int,
)
    requires
        scale > 0,
        present(bodies, k),
        0 <= t < 9,
        filed(cells, bodies, scale, bodies.len() as int),
        scanned(cells, bodies, scale, pairs, k, t, reached),
        ({
            let cell = cell_at_turn(bodies[k].unwrap().center, scale, t);
            let key = (cell.0 * 0x1_0000_0000 + cell.1) as u64;
            if in_grid(cell) && cells.contains_key(key) {
                reached == cells[key]@.len()
            } else {
                reached == 0
            }
        }),
    ensures
        scanned(cells, bodies, scale, pairs, k, t + 1, 0),
{
    let a = bodies[k].unwrap();
    assert forall|x: int, y: int|
        x < y && #[trigger] near(bodies, scale, x, y) && (x < k || (x == k && read(
            cells,
            bodies,
            scale,
            k,
            y,
            t + 1,
            0,
        ))) implies listed(pairs, pairs.len() as int, x, y) by {
        if x == k {
            let other = bodies[y].unwrap().center;
            let at = cell_key(other, scale) as u64;
            lemma_turn(a.center, other, scale, t);
            lemma_cell_key_injective(other, other, scale);
            if turn_of(a.center, other, scale) == t {
                assert(present(bodies, y));
                assert(cells.contains_key(at) && holds(cells[at]@, cells[at]@.len() as int, y));
                assert(read(cells, bodies, scale, k, y, t, reached));
            } else {
                assert(read(cells, bodies, scale, k, y, t, reached));
            }
        }
    }
}

/// When the nine turns around a slot are over, all its contacts with later
/// slots are listed.
pub proof fn lemma_scan_next(
    cells: Map<u64, Vec<usize>>,
    bodies: Seq<Option<Body>>,
    scale: u32,
    pairs: Seq<(usize, usize)>,
    k: int,
)
    requires
        scale > 0,
        present(bodies, k),
        scanned(cells, bodies, scale, pairs, k, 9, 0),
    ensures
        scanned(cells, bodies, scale, pairs, k + 1, 0, 0),
{
    let a = bodies[k].unwrap();
    assert forall|x: int, y: int|
        x < y && #[trigger] near(bodies, scale, x, y) && (x < k + 1 || (x == k + 1 && read(
            cells,
            bodies,
            scale,
            k + 1,
            y,
            0,
            0,
        ))) implies listed(pairs, pairs.len() as int, x, y) by {
        if x == k {
            lemma_turn(a.center, bodies[y].unwrap().center, scale, 0);
            assert(read(cells, bodies, scale, k, y, 9, 0));
        }
    }
}

/// An empty slot has no contacts.
pub proof fn lemma_scan_empty(
    cells: Map<u64, Vec<usize>>,
    bodies: Seq<Option<Body>>,
    scale: u32,
    pairs: Seq<(usize, usize)>,
    k: int,
)
    requires
        !present(bodies, k),
        scanned(cells, bodies, scale, pairs, k, 0, 0),
    ensures
        scanned(cells, bodies, scale, pairs, k + 1, 0, 0),
{
}

/// When every slot has been scanned, the list holds exactly the pairs of
/// near bodies.
pub proof fn lemma_scan_all(
    cells: Map<u64, Vec<usize>>,
    bodies: Seq<Option<Body>>,
    scale: u32,
    pairs: Seq<(usize, usize)>,
)
    requires
        scanned(cells, bodies, scale, pairs, bodies.len() as int, 0, 0),
    ensures
        gridded(bodies, scale, pairs),
{
    assert forall|a: int, b: int| #[trigger] near(bodies, scale, a, b) implies listed(
        pairs,
        pairs.len() as int,
        a,
        b,
    ) by {
        if a > b {
            assert(near(bodies, scale, b, a));
            let p = choose|p: int| 0 <= p < pairs.len() && p < pairs.len() && #[trigger] joins(pairs[p], b, a);
            assert(joins(pairs[p], a, b));
        }
    }
}

/// The number under which the cell in column `cx` and row `cy` is filed.
fn key_for(cx: u64, cy: u64) -> (key: u64)
    requires
        cx <= 0xffff_ffff,
        cy <= 0xffff_ffff,
    ensures
        key as int == cx * 0x1_0000_0000 + cy,
{
    cx * 0x1_0000_0000 + cy
}

/// The column or row next to `c` in direction `step` (0 for the one below, 1
/// for `c` itself, 2 for the one above), if the grid has one there.
fn beside(c: u64, step: u64) -> (r: Option<u64>)
    requires
        c <= 0xffff_ffff,
        step < 3,
    ensures
        match r {
            Some(g) => g as int == c + step - 1 && g <= 0xffff_ffff,
            None => c + step - 1 < 0 || c + step - 1 > 0xffff_ffff,
        },
{
    if c + step < 1 || c + step > 0x1_0000_0000 {
        None
    } else {
        Some(c + step - 1)
    }
}

/// Detects contacts with a uniform grid.
pub struct GridCollisionSystem {
    cells: HashMap<u64, Vec<usize>>,
    scale: u32,
    threshold: u32,
}

impl GridCollisionSystem {
    /// The side of the cells.
    pub closed spec fn scale(&self) -> u32 {
        self.scale
    }

    /// The distance below which two centres count as a contact.
    pub closed spec fn threshold(&self) -> u32 {
        self.threshold
    }

    /// The rule that this system applies.
    pub open spec fn rule(&self) -> Rule {
        Rule::Nudge { scale: self.scale(), threshold: self.threshold() }
    }

    /// The cells have a positive side.
    pub closed spec fn wf(&self) -> bool {
        self.scale > 0
    }

    /// A system with cells of side `scale` that counts centres nearer than
    /// `threshold` as a contact; none where `scale` is zero.
    pub fn new(scale: u32, threshold: u32) -> (s: Option<Self>)
        ensures
            scale == 0 <==> s is None,
            s is Some ==> s.unwrap().wf() && s.unwrap().rule() == (Rule::Nudge { scale, threshold }),
    {
        if scale == 0 {
            None
        } else {
            Some(GridCollisionSystem { cells: HashMap::new(), scale, threshold })
        }
    }

    /// The rule that this system applies.
    pub fn get_rule(&self) -> (r: Rule)
        requires
            self.wf(),
        ensures
            r == self.rule(),
            rule_ok(r),
    {
        Rule::Nudge { scale: self.scale, threshold: self.threshold }
    }

    /// Files every body under the cell of its centre.
    fn rebuild(&mut self, bodies: &Vec<Option<Body>>)
        requires
            old(self).wf(),
        ensures
            final(self).scale == old(self).scale,
            final(self).threshold == old(self).threshold,
            filed(final(self).cells@, bodies@, final(self).scale, bodies.len() as int),
    {
        let scale: u32 = self.scale;
        self.cells.clear();
        let mut k: usize = 0;
        while k < bodies.len()
            invariant
                k <= bodies.len(),
                scale > 0,
                self.scale == scale,
                self.threshold == old(self).threshold,
                filed(self.cells@, bodies@, scale, k as int),
            decreases bodies.len() - k,
        {
            let ghost before = self.cells@;
            match bodies[k] {
                Some(b) => {
                    proof {
                        lemma_cell_key_injective(b.center, b.center, scale);
                    }
                    let key: u64 = key_for(cell_index(b.center.x, scale), cell_index(b.center.y, scale));
                    let mut bucket: Vec<usize> = match self.cells.remove(&key) {
                        Some(found) => found,
                        None => Vec::new(),
                    };
                    let ghost old_bucket = bucket@;
                    assert(bucket_ok(old_bucket, key as int, bodies@, scale, k as int)) by {
                        if before.contains_key(key) {
                            assert(old_bucket == before[key]@);
                        }
                    }
                    bucket.push(k);
                    self.cells.insert(key, bucket);
                    proof {
                        let after = self.cells@;
                        assert(after == before.remove(key).insert(key, bucket));
                        assert forall|other: u64| #[trigger] after.contains_key(other) implies bucket_ok(
                            after[other]@,
                            other as int,
                            bodies@,
                            scale,
                            k + 1,
                        ) by {
                            if other == key {
                                assert forall|u: int| 0 <= u < bucket@.len() implies (#[trigger] bucket@[u]) < k + 1
                                    && present(bodies@, bucket@[u] as int) && cell_key(
                                    bodies@[bucket@[u] as int].unwrap().center,
                                    scale,
                                ) == key by {
                                    if u < old_bucket.len() {
                                        assert(bucket@[u] == old_bucket[u]);
                                    }
                                }
                                assert forall|u: int, v: int|
                                    0 <= u < v < bucket@.len() implies (#[trigger] bucket@[u]) < (
                                        #[trigger] bucket@[v]
                                    ) by {
                                    assert(bucket@[u] == old_bucket[u]);
                                    if v < old_bucket.len() {
                                        assert(bucket@[v] == old_bucket[v]);
                                    }
                                }
                            } else {
                                assert(before.contains_key(other));
                                assert(bucket_ok(before[other]@, other as int, bodies@, scale, k as int));
                            }
                        }
                        assert forall|f: int| 0 <= f < k + 1 && #[trigger] present(bodies@, f) implies {
                            let at = cell_key(bodies@[f].unwrap().center, scale) as u64;
                            after.contains_key(at) && holds(after[at]@, after[at]@.len() as int, f)
                        } by {
                            let at = cell_key(bodies@[f].unwrap().center, scale) as u64;
                            if f == k {
                                assert(bucket@[bucket@.len() - 1] == f);
                            } else if at == key {
                                assert(holds(before[at]@, before[at]@.len() as int, f));
                                let u = choose|u: int|
                                    0 <= u < before[at]@.len() && u < before[at]@.len() && #[trigger] before[at]@[u]
                                        == f;
                                assert(bucket@[u] == f);
                            } else {
                                assert(holds(before[at]@, before[at]@.len() as int, f));
                            }
                        }
                    }
                },
                None => {
                    proof {
                        assert forall|other: u64| #[trigger] before.contains_key(other) implies bucket_ok(
                            before[other]@,
                            other as int,
                            bodies@,
                            scale,
                            k + 1,
                        ) by {
                            assert(bucket_ok(before[other]@, other as int, bodies@, scale, k as int));
                        }
                    }
                },
            }
            k += 1;
        }
    }

    /// One collision pass: every two living entities with a position, a
    /// pending displacement and a circular collider that lie in the same or
    /// in adjacent cells, with centres nearer than the threshold, are moved
    /// apart, half of their offset added to the pending displacement of the
    /// one and taken from that of the other.
    pub fn run(&mut self, ent: &Entities, col: &Storage<Collider>, pos: &Storage<Pos>, tra: &mut Storage<Transform>)
        requires
            old(self).wf(),
        ensures
            final(self).wf(),
            final(self).rule() == old(self).rule(),
            final(tra)@ == collided(old(self).rule(), bodies_of(ent@, col@, pos@, old(tra)@), old(tra)@),
    {
        let rule = self.get_rule();
        let bodies = gather(ent, col, pos, tra);
        let pairs = self.detect(&bodies);
        apply(rule, &bodies, &pairs, tra);
    }

    /// The contacts among `bodies` under this system's rule: every pair of
    /// bodies in the same or in adjacent cells whose centres are nearer than
    /// the threshold, once. Only the candidates of the grid are put to the
    /// narrow test.
    pub fn detect(&mut self, bodies: &Vec<Option<Body>>) -> (pairs: Vec<(usize, usize)>)
        requires
            old(self).wf(),
        ensures
            final(self).wf(),
            final(self).rule() == old(self).rule(),
            lists_contacts(old(self).rule(), bodies@, pairs@),
    {
        let rule = self.get_rule();
        let cands = self.candidates(bodies);
        let pairs = confirm(rule, bodies, &cands);
        proof {
            assert forall|a: int, b: int| #[trigger] touching(rule, bodies@, a, b) implies listed(
                cands@,
                cands.len() as int,
                a,
                b,
            ) by {
                assert(near(bodies@, self.scale, a, b));
            }
            lemma_confirmed_lists_contacts(rule, bodies@, cands@);
        }
        pairs
    }

    /// The broad phase: the pairs of bodies that the narrow test has to look
    /// at. Every body is filed under its cell; then each body is paired with
    /// the bodies of later slots that are filed under its cell or under one
    /// of the eight cells around it.
    pub fn candidates(&mut self, bodies: &Vec<Option<Body>>) -> (cands: Vec<(usize, usize)>)
        requires
            old(self).wf(),
        ensures
            final(self).wf(),
            final(self).rule() == old(self).rule(),
            gridded(bodies@, old(self).scale(), cands@),
    {
        self.rebuild(bodies);
        let scale: u32 = self.scale;
        let n: usize = bodies.len();
        let mut pairs: Vec<(usize, usize)> = Vec::new();
        let mut k: usize = 0;
        while k < n
            invariant
                k <= n,
                n == bodies.len(),
                scale > 0,
                self.scale == scale,
                self.threshold == old(self).threshold,
                filed(self.cells@, bodies@, scale, n as int),
                scanned(self.cells@, bodies@, scale, pairs@, k as int, 0, 0),
            decreases n - k,
        {
            match bodies[k] {
                Some(a) => {
                    let cx: u64 = cell_index(a.center.x, scale);
                    let cy: u64 = cell_index(a.center.y, scale);
                    let mut t: u64 = 0;
                    while t < 9
                        invariant
                            t <= 9,
                            k < n,
                            n == bodies.len(),
                            scale > 0,
                            self.scale == scale,
                            self.threshold == old(self).threshold,
                            bodies@[k as int] == Some(a),
                            cx as int == cell_of(a.center.x, scale),
                            cy as int == cell_of(a.center.y, scale),
                            cx <= 0xffff_ffff,
                            cy <= 0xffff_ffff,
                            filed(self.cells@, bodies@, scale, n as int),
                            scanned(self.cells@, bodies@, scale, pairs@, k as int, t as int, 0),
                        decreases 9 - t,
                    {
                        let column: Option<u64> = beside(cx, t / 3);
                        let row: Option<u64> = beside(cy, t % 3);
                        let ghost mut reached: int = 0;
                        if column.is_some() && row.is_some() {
                            let key: u64 = key_for(column.unwrap(), row.unwrap());
                            match self.cells.get(&key) {
                                Some(bucket) => {
                                    assert(self.cells@.contains_key(key) && self.cells@[key] == *bucket);
                                    assert(bucket_ok(bucket@, key as int, bodies@, scale, n as int));
                                    let mut idx: usize = 0;
                                    while idx < bucket.len()
                                        invariant
                                            idx <= bucket.len(),
                                            t < 9,
                                            k < n,
                                            n == bodies.len(),
                                            scale > 0,
                                            bodies@[k as int] == Some(a),
                                            cx as int == cell_of(a.center.x, scale),
                                            cy as int == cell_of(a.center.y, scale),
                                            key as int == (cx + t / 3 - 1) * 0x1_0000_0000 + (cy + t % 3 - 1),
                                            0 <= cx + t / 3 - 1 <= 0xffff_ffff,
                                            0 <= cy + t % 3 - 1 <= 0xffff_ffff,
                                            self.cells@.contains_key(key),
                                            self.cells@[key] == *bucket,
                                            bucket_ok(bucket@, key as int, bodies@, scale, n as int),
                                            filed(self.cells@, bodies@, scale, n as int),
                                            scanned(self.cells@, bodies@, scale, pairs@, k as int, t as int, idx as int),
                                        decreases bucket.len() - idx,
                                    {
                                        let f: usize = bucket[idx];
                                        let ghost old_pairs = pairs@;
                                        if f > k {
                                            pairs.push((k, f));
                                        }
                                        proof {
                                            lemma_scan_entry(
                                                self.cells@,
                                                bodies@,
                                                scale,
                                                old_pairs,
                                                pairs@,
                                                k as int,
                                                t as int,
                                                idx as int,
                                                key,
                                            );
                                        }
                                        idx += 1;
                                    }
                                    proof {
                                        reached = bucket@.len() as int;
                                    }
                                },
                                None => {},
                            }
                        }
                        proof {
                            lemma_scan_turn(self.cells@, bodies@, scale, pairs@, k as int, t as int, reached);
                        }
                        t += 1;
                    }
                    proof {
                        lemma_scan_next(self.cells@, bodies@, scale, pairs@, k as int);
                    }
                },
                None => {
                    proof {
                        lemma_scan_empty(self.cells@, bodies@, scale, pairs@, k as int);
                    }
                },
            }
            k += 1;
        }
        proof {
            lemma_scan_all(self.cells@, bodies@, scale, pairs@);
        }
        pairs
    }
}

} // verus!
