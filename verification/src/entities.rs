//! The entity registry: it hands out identifiers, takes them back, and holds
//! deletions until they are committed.

use vstd::prelude::*;

verus! {

/// The identifier of one simulated object: a slot, and the count of earlier
/// occupants of that slot.
#[derive(Clone, Copy, Debug, PartialEq, Eq, Structural)]
pub struct Entity {
    pub index: u32,
    pub generation: u32,
}

impl Entity {
    /// The slot of this entity.
    pub fn id(&self) -> (i: u32)
        ensures
            i == self.index,
    {
        self.index
    }

    /// The generation of this entity.
    pub fn gen(&self) -> (g: u32)
        ensures
            g == self.generation,
    {
        self.generation
    }
}

/// What a registry holds.
pub struct Roll {
    /// For each slot, whether an entity lives in it.
    pub alive: Seq<bool>,
    /// For each slot, the generation of its present or last occupant.
    pub generations: Seq<u32>,
    /// The slots whose occupants are to go at the next commit, in the order
    /// in which that was asked.
    pub doomed: Seq<u32>,
    /// The vacant slots that wait to be used again; the last is used first.
    pub vacant: Seq<u32>,
    /// The number of slots that the registry may come to have.
    pub limit: nat,
}

impl Roll {
    /// The number of slots in use or used before.
    pub open spec fn slots(self) -> nat {
        self.alive.len()
    }

    /// An entity lives in slot `k`.
    pub open spec fn live_at(self, k: int) -> bool {
        0 <= k < self.alive.len() && self.alive[k]
    }

    /// `e` is alive.
    pub open spec fn contains(self, e: Entity) -> bool {
        self.live_at(e.index as int) && self.generations[e.index as int] == e.generation
    }

    /// The occupant of slot `k` is to go at the next commit.
    pub open spec fn dooms(self, k: int) -> bool {
        self.doomed.contains(k as u32) && 0 <= k <= u32::MAX
    }

    /// The registry is consistent.
    pub open spec fn wf(self) -> bool {
        &&& self.alive.len() == self.generations.len()
        &&& self.alive.len() <= self.limit <= u32::MAX
        &&& self.doomed.no_duplicates()
        &&& forall|i: int| 0 <= i < self.doomed.len() ==> self.live_at(#[trigger] self.doomed[i] as int)
        &&& self.vacant.no_duplicates()
        &&& forall|i: int|
            0 <= i < self.vacant.len() ==> {
                let k = #[trigger] self.vacant[i];
                k < self.alive.len() && !self.alive[k as int] && self.generations[k as int] < u32::MAX
            }
    }

    /// Those of the first `n` doomed slots that can be used again: all but
    /// the slots whose generations are used up.
    pub open spec fn reusable(self, n: int) -> Seq<u32>
        decreases n,
    {
        if n <= 0 {
            Seq::empty()
        } else if self.generations[self.doomed[n - 1] as int] < u32::MAX {
            self.reusable(n - 1).push(self.doomed[n - 1])
        } else {
            self.reusable(n - 1)
        }
    }

    /// The registry after the commit: the doomed are gone, and their slots
    /// wait to be used again, but for a slot whose generations are used up.
    pub open spec fn committed(self) -> Roll {
        Roll {
            alive: Seq::new(self.alive.len(), |k: int| self.alive[k] && !self.dooms(k)),
            generations: self.generations,
            doomed: Seq::empty(),
            vacant: self.vacant + self.reusable(self.doomed.len() as int),
            limit: self.limit,
        }
    }

    /// No further entity can be made: no slot is vacant and the registry
    /// has all the slots that it may have.
    pub open spec fn full(self) -> bool {
        self.vacant.len() == 0 && self.alive.len() == self.limit
    }

    /// The entity that is made next: in the vacant slot that was freed last,
    /// one generation on, or else in a new slot.
    pub open spec fn next_entity(self) -> Entity {
        if self.vacant.len() > 0 {
            Entity {
                index: self.vacant.last(),
                generation: (self.generations[self.vacant.last() as int] + 1) as u32,
            }
        } else {
            Entity { index: self.alive.len() as u32, generation: 0 }
        }
    }

    /// The registry after the next entity is made.
    pub open spec fn admitted(self) -> Roll {
        let e = self.next_entity();
        if self.vacant.len() > 0 {
            Roll {
                alive: self.alive.update(e.index as int, true),
                generations: self.generations.update(e.index as int, e.generation),
                doomed: self.doomed,
                vacant: self.vacant.drop_last(),
                limit: self.limit,
            }
        } else {
            Roll {
                alive: self.alive.push(true),
                generations: self.generations.push(0),
                doomed: self.doomed,
                vacant: self.vacant,
                limit: self.limit,
            }
        }
    }

    /// The registry after the deletion of `e` is asked for: where `e` is
    /// alive and not doomed yet, its slot joins the doomed.
    pub open spec fn dooming(self, e: Entity) -> Roll {
        if self.contains(e) && !self.dooms(e.index as int) {
            Roll { doomed: self.doomed.push(e.index), ..self }
        } else {
            self
        }
    }
}

/// The reusable slots are doomed slots, in the order of the doomed.
pub proof fn lemma_reusable(roll: Roll, n: int)
    requires
        0 <= n <= roll.doomed.len(),
        roll.doomed.no_duplicates(),
    ensures
        roll.reusable(n).no_duplicates(),
        forall|i: int|
            0 <= i < roll.reusable(n).len() ==> {
                let k = #[trigger] roll.reusable(n)[i];
                roll.generations[k as int] < u32::MAX && exists|j: int| 0 <= j < n && roll.doomed[j] == k
            },
    decreases n,
{
    if n > 0 {
        lemma_reusable(roll, n - 1);
        let prev = roll.reusable(n - 1);
        let now = roll.reusable(n);
        if roll.generations[roll.doomed[n - 1] as int] < u32::MAX {
            assert forall|i: int| 0 <= i < now.len() implies {
                let k = #[trigger] now[i];
                roll.generations[k as int] < u32::MAX && exists|j: int| 0 <= j < n && roll.doomed[j] == k
            } by {
                if i < prev.len() {
                    let k = prev[i];
                    let j = choose|j: int| 0 <= j < n - 1 && roll.doomed[j] == k;
                    assert(roll.doomed[j] == now[i]);
                } else {
                    assert(roll.doomed[n - 1] == now[i]);
                }
            }
            assert forall|i: int, j: int| 0 <= i < now.len() && 0 <= j < now.len() && i != j implies now[i] != now[j] by {
                if i < prev.len() && j < prev.len() {
                } else if i < prev.len() {
                    let k = prev[i];
                    let w = choose|w: int| 0 <= w < n - 1 && roll.doomed[w] == k;
                } else if j < prev.len() {
                    let k = prev[j];
                    let w = choose|w: int| 0 <= w < n - 1 && roll.doomed[w] == k;
                }
            }
        }
    }
}

/// The commit leaves a consistent registry consistent.
pub proof fn lemma_committed_wf(roll: Roll)
    requires
        roll.wf(),
    ensures
        roll.committed().wf(),
{
    let after = roll.committed();
    lemma_reusable(roll, roll.doomed.len() as int);
    let extra = roll.reusable(roll.doomed.len() as int);
    assert forall|a: int, b: int| 0 <= a < after.vacant.len() && 0 <= b < after.vacant.len() && a != b implies after.vacant[a]
        != after.vacant[b] by {
        if a >= roll.vacant.len() {
            let x = extra[a - roll.vacant.len()];
            let w = choose|w: int| 0 <= w < roll.doomed.len() && roll.doomed[w] == x;
            assert(roll.live_at(roll.doomed[w] as int));
        }
        if b >= roll.vacant.len() {
            let x = extra[b - roll.vacant.len()];
            let w = choose|w: int| 0 <= w < roll.doomed.len() && roll.doomed[w] == x;
            assert(roll.live_at(roll.doomed[w] as int));
        }
    }
    assert forall|a: int| 0 <= a < after.vacant.len() implies {
        let v = #[trigger] after.vacant[a];
        v < after.alive.len() && !after.alive[v as int] && after.generations[v as int] < u32::MAX
    } by {
        if a >= roll.vacant.len() {
            let x = extra[a - roll.vacant.len()];
            let w = choose|w: int| 0 <= w < roll.doomed.len() && roll.doomed[w] == x;
            assert(roll.live_at(roll.doomed[w] as int));
            assert(roll.doomed.contains(x));
        } else {
            assert(after.vacant[a] == roll.vacant[a]);
        }
    }
}

/// The entity registry.
pub struct Entities {
    alive: Vec<bool>,
    generations: Vec<u32>,
    condemned: Vec<bool>,
    doomed: Vec<u32>,
    vacant: Vec<u32>,
    limit: u32,
}

impl Entities {
    /// What the registry holds.
    pub closed spec fn view(&self) -> Roll {
        Roll {
            alive: self.alive@,
            generations: self.generations@,
            doomed: self.doomed@,
            vacant: self.vacant@,
            limit: self.limit as nat,
        }
    }

    /// The registry is consistent.
    pub closed spec fn wf(&self) -> bool {
        &&& self@.wf()
        &&& self.condemned.len() == self.alive.len()
        &&& forall|k: int| 0 <= k < self.condemned.len() ==> (#[trigger] self.condemned[k] <==> self@.dooms(k))
    }

    /// What `wf` says of the view.
    pub proof fn lemma_wf(&self)
        requires
            self.wf(),
        ensures
            self@.wf(),
    {
    }

    /// A registry without entities, which may come to have as many slots as
    /// can be numbered.
    pub fn new() -> (r: Self)
        ensures
            r.wf(),
            r@.wf(),
            r@.alive.len() == 0,
            r@.doomed.len() == 0,
            r@.vacant.len() == 0,
            r@.limit == u32::MAX,
    {
        Self::with_limit(u32::MAX)
    }

    /// A registry without entities, which may come to have `limit` slots.
    pub fn with_limit(limit: u32) -> (r: Self)
        ensures
            r.wf(),
            r@.wf(),
            r@.alive.len() == 0,
            r@.doomed.len() == 0,
            r@.vacant.len() == 0,
            r@.limit == limit,
    {
        Entities {
            alive: Vec::new(),
            generations: Vec::new(),
            condemned: Vec::new(),
            doomed: Vec::new(),
            vacant: Vec::new(),
            limit,
        }
    }

    /// Makes an entity, unless the registry is full.
    pub fn create(&mut self) -> (r: Option<Entity>)
        requires
            old(self).wf(),
        ensures
            final(self).wf(),
            old(self)@.full() ==> r is None && final(self)@ == old(self)@,
            !old(self)@.full() ==> r == Some(old(self)@.next_entity()) && final(self)@ == old(self)@.admitted(),
            r is Some ==> !old(self)@.live_at(r.unwrap().index as int),
    {
        let ghost before = self@;
        match self.vacant.pop() {
            Some(k) => {
                let slot: usize = k as usize;
                assert(before.vacant[before.vacant.len() - 1] == k);
                let generation: u32 = self.generations[slot] + 1;
                self.generations.set(slot, generation);
                self.alive.set(slot, true);
                proof {
                    assert(self@.vacant =~= before.vacant.drop_last());
                    assert(self@ == before.admitted());
                    assert forall|i: int| 0 <= i < self@.vacant.len() implies {
                        let v = #[trigger] self@.vacant[i];
                        v < self@.alive.len() && !self@.alive[v as int] && self@.generations[v as int] < u32::MAX
                    } by {
                        assert(self@.vacant[i] == before.vacant[i]);
                    }
                    assert forall|i: int| 0 <= i < self@.doomed.len() implies self@.live_at(
                        #[trigger] self@.doomed[i] as int,
                    ) by {
                        assert(before.live_at(before.doomed[i] as int));
                    }
                    assert forall|j: int| 0 <= j < self.condemned.len() implies (#[trigger] self.condemned[j]
                        <==> self@.dooms(j)) by {
                        assert(old(self).condemned[j] <==> before.dooms(j));
                    }
                }
                Some(Entity { index: k, generation })
            },
            None => {
                assert(self@.vacant =~= before.vacant);
                assert(self@ == before);
                if self.alive.len() >= self.limit as usize {
                    return None;
                }
                let k: u32 = self.alive.len() as u32;
                self.alive.push(true);
                self.generations.push(0);
                self.condemned.push(false);
                proof {
                    assert(self@ == before.admitted());
                    assert forall|i: int| 0 <= i < self@.doomed.len() implies self@.live_at(
                        #[trigger] self@.doomed[i] as int,
                    ) by {
                        assert(before.live_at(before.doomed[i] as int));
                    }
                    assert forall|j: int| 0 <= j < self.condemned.len() implies (#[trigger] self.condemned[j]
                        <==> self@.dooms(j)) by {
                        if j < old(self).condemned.len() {
                            assert(old(self).condemned[j] <==> before.dooms(j));
                        } else if self@.dooms(j) {
                            let i = choose|i: int| 0 <= i < before.doomed.len() && before.doomed[i] == j as u32;
                            assert(before.live_at(before.doomed[i] as int));
                        }
                    }
                }
                Some(Entity { index: k, generation: 0 })
            },
        }
    }

    /// Asks for the deletion of `e`, which is made at the next commit. To ask
    /// twice changes nothing. The answer is whether `e` is alive.
    pub fn delete(&mut self, e: Entity) -> (r: bool)
        requires
            old(self).wf(),
        ensures
            final(self).wf(),
            r == old(self)@.contains(e),
            final(self)@ == old(self)@.dooming(e),
    {
        let k: usize = e.index as usize;
        if !(k < self.alive.len() && self.alive[k] && self.generations[k] == e.generation) {
            return false;
        }
        assert(self.condemned[k as int] <==> self@.dooms(k as int));
        if !self.condemned[k] {
            let ghost before = self@;
            self.condemned.set(k, true);
            self.doomed.push(e.index);
            proof {
                assert(self@ == before.dooming(e));
                assert(self@.doomed[self@.doomed.len() - 1] == e.index);
                assert forall|i: int| 0 <= i < self@.doomed.len() implies self@.live_at(
                    #[trigger] self@.doomed[i] as int,
                ) by {
                    if i < before.doomed.len() {
                        assert(before.live_at(before.doomed[i] as int));
                    }
                }
                assert forall|j: int| 0 <= j < self.condemned.len() implies (#[trigger] self.condemned[j]
                    <==> self@.dooms(j)) by {
                    assert(old(self).condemned[j] <==> before.dooms(j));
                    if j != k {
                        if before.dooms(j) {
                            let i = choose|i: int| 0 <= i < before.doomed.len() && before.doomed[i] == j as u32;
                            assert(self@.doomed[i] == j as u32);
                        }
                        if self@.dooms(j) {
                            let i = choose|i: int| 0 <= i < self@.doomed.len() && self@.doomed[i] == j as u32;
                            assert(before.doomed[i] == j as u32);
                        }
                    }
                }
            }
        }
        true
    }

    /// Makes the deletions that were asked for, and answers with the slots
    /// that they emptied.
    pub fn commit(&mut self) -> (freed: Vec<u32>)
        requires
            old(self).wf(),
        ensures
            final(self).wf(),
            final(self)@ == old(self)@.committed(),
            freed@ == old(self)@.doomed,
    {
        let ghost before = self@;
        let mut freed: Vec<u32> = Vec::new();
        let mut i: usize = 0;
        while i < self.doomed.len()
            invariant
                i <= self.doomed.len(),
                old(self).wf(),
                before == old(self)@,
                self.doomed@ == before.doomed,
                self.generations@ == before.generations,
                self.limit == before.limit,
                self.alive.len() == before.alive.len(),
                self.condemned.len() == before.alive.len(),
                freed@ == before.doomed.take(i as int),
                self.vacant@ == before.vacant + before.reusable(i as int),
                forall|k: int|
                    0 <= k < self.alive.len() ==> (#[trigger] self.alive[k] <==> before.alive[k]
                        && !before.doomed.take(i as int).contains(k as u32)),
                forall|k: int|
                    0 <= k < self.condemned.len() ==> (#[trigger] self.condemned[k] <==> before.dooms(k)
                        && !before.doomed.take(i as int).contains(k as u32)),
            decreases self.doomed.len() - i,
        {
            let k: u32 = self.doomed[i];
            let slot: usize = k as usize;
            assert(before.live_at(before.doomed[i as int] as int));
            self.alive.set(slot, false);
            self.condemned.set(slot, false);
            if self.generations[slot] < u32::MAX {
                self.vacant.push(k);
            }
            freed.push(k);
            proof {
                let done = before.doomed.take(i as int);
                let more = before.doomed.take(i + 1);
                assert(more =~= done.push(k));
                assert(self.vacant@ =~= before.vacant + before.reusable(i + 1));
                assert forall|x: u32| #[trigger] more.contains(x) <==> done.contains(x) || x == k by {
                    if done.contains(x) {
                        let w = choose|w: int| 0 <= w < done.len() && done[w] == x;
                        assert(more[w] == x);
                    }
                    if x == k {
                        assert(more[i as int] == k);
                    }
                    if more.contains(x) {
                        let w = choose|w: int| 0 <= w < more.len() && more[w] == x;
                        if w < i {
                            assert(done[w] == x);
                        }
                    }
                }
                assert(before.dooms(k as int)) by {
                    assert(before.doomed[i as int] == k);
                }
            }
            i += 1;
        }
        self.doomed.clear();
        proof {
            assert(before.doomed.take(before.doomed.len() as int) =~= before.doomed);
            assert(self@.alive =~= before.committed().alive);
            assert(self@.doomed =~= before.committed().doomed);
            assert(self@ == before.committed());
            lemma_committed_wf(before);
            assert forall|j: int| 0 <= j < self.condemned.len() implies (#[trigger] self.condemned[j] <==> self@.dooms(
                j,
            )) by {
            }
        }
        freed
    }

    /// The number of slots in use or used before.
    pub fn slots(&self) -> (n: usize)
        ensures
            n == self@.slots(),
    {
        self.alive.len()
    }

    /// Whether an entity lives in slot `k`.
    pub fn live_at(&self, k: usize) -> (r: bool)
        ensures
            r == self@.live_at(k as int),
    {
        k < self.alive.len() && self.alive[k]
    }

    /// Whether `e` is alive. An entity whose deletion is asked for stays
    /// alive until the commit.
    pub fn is_alive(&self, e: Entity) -> (r: bool)
        requires
            self.wf(),
        ensures
            r == self@.contains(e),
    {
        let k: usize = e.index as usize;
        k < self.alive.len() && self.alive[k] && self.generations[k] == e.generation
    }

    /// The entity that lives in slot `k`, if any.
    pub fn entity_at(&self, k: usize) -> (r: Option<Entity>)
        requires
            self.wf(),
        ensures
            r == if self@.live_at(k as int) {
                Some(Entity { index: k as u32, generation: self@.generations[k as int] })
            } else {
                None
            },
    {
        if k < self.alive.len() && self.alive[k] {
            Some(Entity { index: k as u32, generation: self.generations[k] })
        } else {
            None
        }
    }
}

} // verus!
