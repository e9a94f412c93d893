//! The world: the entity registry and the three component stores.

use crate::components::{Collider, Pos, Transform};
use crate::entities::{Entities, Entity, Roll};
use crate::geometry::Pt;
use crate::storage::Storage;
use vstd::prelude::*;

verus! {

/// What a world holds.
pub struct WorldView {
    pub roll: Roll,
    pub pos: Map<int, Pos>,
    pub tra: Map<int, Transform>,
    pub col: Map<int, Collider>,
}

impl WorldView {
    /// The world is consistent: the living entities, and no others, have a
    /// position and a pending displacement, and every collider is a circle
    /// and belongs to a living entity.
    pub open spec fn wf(self) -> bool {
        &&& self.roll.wf()
        &&& forall|k: int| #[trigger] self.pos.contains_key(k) <==> self.roll.live_at(k)
        &&& forall|k: int| #[trigger] self.tra.contains_key(k) <==> self.roll.live_at(k)
        &&& forall|k: int| #[trigger] self.col.contains_key(k) ==> self.roll.live_at(k) && self.col[k] is Circle
    }

    /// The world with one more entity, at `at`, with nothing pending, and
    /// with the collider `collider` if there is one.
    pub open spec fn spawned(self, at: Pos, collider: Option<Collider>) -> WorldView {
        let k = self.roll.next_entity().index as int;
        WorldView {
            roll: self.roll.admitted(),
            pos: self.pos.insert(k, at),
            tra: self.tra.insert(k, Transform(Pt { x: 0, y: 0 })),
            col: match collider {
                Some(c) => self.col.insert(k, c),
                None => self.col,
            },
        }
    }

    /// The world after the commit: the doomed entities are gone, with all
    /// their components.
    pub open spec fn maintained(self) -> WorldView {
        WorldView {
            roll: self.roll.committed(),
            pos: Map::new(|k: int| self.pos.contains_key(k) && !self.roll.dooms(k), |k: int| self.pos[k]),
            tra: Map::new(|k: int| self.tra.contains_key(k) && !self.roll.dooms(k), |k: int| self.tra[k]),
            col: Map::new(|k: int| self.col.contains_key(k) && !self.roll.dooms(k), |k: int| self.col[k]),
        }
    }

    /// The living entities of the first `n` slots with their positions, in
    /// the order of the slots.
    pub open spec fn shots(self, n: int) -> Seq<(Entity, Pos)>
        decreases n,
    {
        if n <= 0 {
            Seq::empty()
        } else if self.roll.live_at(n - 1) && self.pos.contains_key(n - 1) {
            self.shots(n - 1).push(
                (Entity { index: (n - 1) as u32, generation: self.roll.generations[n - 1] }, self.pos[n - 1]),
            )
        } else {
            self.shots(n - 1)
        }
    }
}

/// Why an entity could not be made.
#[derive(Clone, Copy, Debug, PartialEq, Eq, Structural)]
pub enum WorldError {
    /// Only circles collide: a rectangle is turned away.
    UnsupportedCollider,
    /// The registry can number no further entity.
    Full,
}

/// The entity registry and the component stores.
pub struct World {
    pub(crate) entities: Entities,
    pub(crate) pos: Storage<Pos>,
    pub(crate) tra: Storage<Transform>,
    pub(crate) col: Storage<Collider>,
}

impl World {
    /// What the world holds.
    pub closed spec fn view(&self) -> WorldView {
        WorldView { roll: self.entities@, pos: self.pos@, tra: self.tra@, col: self.col@ }
    }

    /// The world is consistent.
    pub closed spec fn wf(&self) -> bool {
        self.entities.wf() && self@.wf()
    }

    /// What `wf` says of the view.
    pub proof fn lemma_wf(&self)
        requires
            self.wf(),
        ensures
            self@.wf(),
    {
    }

    /// The view is made of the views of the registry and of the stores.
    pub(crate) proof fn lemma_view(&self)
        ensures
            self@ == (WorldView { roll: self.entities@, pos: self.pos@, tra: self.tra@, col: self.col@ }),
    {
    }

    /// What `wf` says of the registry and of the view.
    pub(crate) proof fn lemma_wf_parts(&self)
        requires
            self.wf(),
        ensures
            self.entities.wf(),
            self@.wf(),
    {
    }

    /// A world whose registry and view are consistent is consistent.
    pub(crate) proof fn lemma_wf_from_view(&self)
        requires
            self.entities.wf(),
            self@.wf(),
        ensures
            self.wf(),
    {
    }

    /// A world without entities.
    pub fn new() -> (w: Self)
        ensures
            w.wf(),
            w@.roll.slots() == 0,
            w@.roll.doomed.len() == 0,
            w@.roll.vacant.len() == 0,
            w@.roll.limit == u32::MAX,
            w@.pos == Map::<int, Pos>::empty(),
            w@.tra == Map::<int, Transform>::empty(),
            w@.col == Map::<int, Collider>::empty(),
    {
        Self::with_limit(u32::MAX)
    }

    /// A world without entities, which may come to have `limit` entity
    /// slots.
    pub fn with_limit(limit: u32) -> (w: Self)
        ensures
            w.wf(),
            w@.roll.slots() == 0,
            w@.roll.doomed.len() == 0,
            w@.roll.vacant.len() == 0,
            w@.roll.limit == limit,
            w@.pos == Map::<int, Pos>::empty(),
            w@.tra == Map::<int, Transform>::empty(),
            w@.col == Map::<int, Collider>::empty(),
    {
        World { entities: Entities::with_limit(limit), pos: Storage::new(), tra: Storage::new(), col: Storage::new() }
    }

    /// Makes an entity at `at`, with nothing pending and with the collider
    /// `collider`, if there is one. A rectangle is turned away, and so is
    /// every entity once the registry is full.
    pub fn create_entity(&mut self, at: Pos, collider: Option<Collider>) -> (r: Result<Entity, WorldError>)
        requires
            old(self).wf(),
        ensures
            final(self).wf(),
            match r {
                Ok(e) => {
                    &&& !(collider matches Some(Collider::Rectangle { .. }))
                    &&& !old(self)@.roll.full()
                    &&& e == old(self)@.roll.next_entity()
                    &&& final(self)@ == old(self)@.spawned(at, collider)
                },
                Err(WorldError::UnsupportedCollider) => {
                    &&& collider matches Some(Collider::Rectangle { .. })
                    &&& final(self)@ == old(self)@
                },
                Err(WorldError::Full) => {
                    &&& !(collider matches Some(Collider::Rectangle { .. }))
                    &&& old(self)@.roll.full()
                    &&& final(self)@ == old(self)@
                },
            },
    {
        match collider {
            Some(Collider::Rectangle { .. }) => {
                return Err(WorldError::UnsupportedCollider);
            },
            _ => {},
        }
        let ghost before = self@;
        proof {
            self.entities.lemma_wf();
        }
        match self.entities.create() {
            None => Err(WorldError::Full),
            Some(e) => {
                let k: usize = e.index as usize;
                self.pos.insert(k, at);
                self.tra.insert(k, Transform::new());
                match collider {
                    Some(c) => {
                        self.col.insert(k, c);
                    },
                    None => {},
                }
                proof {
                    self.entities.lemma_wf();
                    assert(self@ == before.spawned(at, collider));
                    let now = self@;
                    assert forall|j: int| #[trigger] now.pos.contains_key(j) <==> now.roll.live_at(j) by {
                        assert(before.pos.contains_key(j) <==> before.roll.live_at(j));
                    }
                    assert forall|j: int| #[trigger] now.tra.contains_key(j) <==> now.roll.live_at(j) by {
                        assert(before.tra.contains_key(j) <==> before.roll.live_at(j));
                    }
                    assert forall|j: int| #[trigger] now.col.contains_key(j) implies now.roll.live_at(j)
                        && now.col[j] is Circle by {
                        if before.col.contains_key(j) {
                            assert(before.roll.live_at(j));
                        }
                    }
                }
                Ok(e)
            },
        }
    }

    /// Asks for the deletion of `e`, which is made when the running tick is
    /// over. The answer is whether `e` is alive.
    pub fn delete_entity(&mut self, e: Entity) -> (r: bool)
        requires
            old(self).wf(),
        ensures
            final(self).wf(),
            r == old(self)@.roll.contains(e),
            final(self)@ == (WorldView { roll: old(self)@.roll.dooming(e), ..old(self)@ }),
    {
        let ghost before = self@;
        let r = self.entities.delete(e);
        proof {
            self.entities.lemma_wf();
            let now = self@;
            assert forall|j: int| #[trigger] now.pos.contains_key(j) <==> now.roll.live_at(j) by {
                assert(before.pos.contains_key(j) <==> before.roll.live_at(j));
            }
            assert forall|j: int| #[trigger] now.tra.contains_key(j) <==> now.roll.live_at(j) by {
                assert(before.tra.contains_key(j) <==> before.roll.live_at(j));
            }
            assert forall|j: int| #[trigger] now.col.contains_key(j) implies now.roll.live_at(j)
                && now.col[j] is Circle by {
                assert(before.roll.live_at(j));
            }
        }
        r
    }

    /// The commit: makes the deletions that were asked for, and drops the
    /// components of the entities that go.
    pub fn maintain(&mut self)
        requires
            old(self).wf(),
        ensures
            final(self).wf(),
            final(self)@ == old(self)@.maintained(),
    {
        let ghost before = self@;
        let freed = self.entities.commit();
        let mut i: usize = 0;
        while i < freed.len()
            invariant
                i <= freed.len(),
                freed@ == before.roll.doomed,
                before.wf(),
                self.entities.wf(),
                self.entities@ == before.roll.committed(),
                self.pos@ == Map::new(
                    |k: int| before.pos.contains_key(k) && !before.roll.doomed.take(i as int).contains(k as u32),
                    |k: int| before.pos[k],
                ),
                self.tra@ == Map::new(
                    |k: int| before.tra.contains_key(k) && !before.roll.doomed.take(i as int).contains(k as u32),
                    |k: int| before.tra[k],
                ),
                self.col@ == Map::new(
                    |k: int| before.col.contains_key(k) && !before.roll.doomed.take(i as int).contains(k as u32),
                    |k: int| before.col[k],
                ),
            decreases freed.len() - i,
        {
            let k: usize = freed[i] as usize;
            let ghost done = before.roll.doomed.take(i as int);
            let ghost more = before.roll.doomed.take(i + 1);
            self.pos.remove(k);
            self.tra.remove(k);
            self.col.remove(k);
            proof {
                assert(more =~= done.push(freed[i as int]));
                assert forall|x: u32| #[trigger] more.contains(x) <==> done.contains(x) || x == freed[i as int] by {
                    if done.contains(x) {
                        let w = choose|w: int| 0 <= w < done.len() && done[w] == x;
                        assert(more[w] == x);
                    }
                    if x == freed[i as int] {
                        assert(more[i as int] == x);
                    }
                    if more.contains(x) {
                        let w = choose|w: int| 0 <= w < more.len() && more[w] == x;
                        if w < i {
                            assert(done[w] == x);
                        }
                    }
                }
                assert(self.pos@ =~= Map::new(
                    |k: int| before.pos.contains_key(k) && !more.contains(k as u32),
                    |k: int| before.pos[k],
                )) by {
                    assert forall|j: int| before.pos.contains_key(j) implies (j == k <==> j as u32 == freed[i as int]) by {
                        assert(before.roll.live_at(j));
                    }
                }
                assert(self.tra@ =~= Map::new(
                    |k: int| before.tra.contains_key(k) && !more.contains(k as u32),
                    |k: int| before.tra[k],
                )) by {
                    assert forall|j: int| before.tra.contains_key(j) implies (j == k <==> j as u32 == freed[i as int]) by {
                        assert(before.roll.live_at(j));
                    }
                }
                assert(self.col@ =~= Map::new(
                    |k: int| before.col.contains_key(k) && !more.contains(k as u32),
                    |k: int| before.col[k],
                )) by {
                    assert forall|j: int| before.col.contains_key(j) implies (j == k <==> j as u32 == freed[i as int]) by {
                        assert(before.roll.live_at(j));
                    }
                }
            }
            i += 1;
        }
        proof {
            assert(before.roll.doomed.take(freed.len() as int) =~= before.roll.doomed);
            assert forall|j: int| before.roll.live_at(j) implies (before.roll.doomed.contains(j as u32)
                <==> before.roll.dooms(j)) by {
            }
            assert(self.pos@ =~= before.maintained().pos) by {
                assert forall|j: int| before.pos.contains_key(j) implies before.roll.live_at(j) by {
                }
            }
            assert(self.tra@ =~= before.maintained().tra) by {
                assert forall|j: int| before.tra.contains_key(j) implies before.roll.live_at(j) by {
                }
            }
            assert(self.col@ =~= before.maintained().col) by {
                assert forall|j: int| before.col.contains_key(j) implies before.roll.live_at(j) by {
                }
            }
            assert(self@ == before.maintained());
            lemma_maintained_wf(before);
        }
    }

    /// Whether `e` is alive.
    pub fn is_alive(&self, e: Entity) -> (r: bool)
        requires
            self.wf(),
        ensures
            r == self@.roll.contains(e),
    {
        self.entities.is_alive(e)
    }

    /// The position of `e`, if it is alive.
    pub fn position(&self, e: Entity) -> (r: Option<Pos>)
        requires
            self.wf(),
        ensures
            r == if self@.roll.contains(e) {
                Some(self@.pos[e.index as int])
            } else {
                None
            },
    {
        if self.entities.is_alive(e) {
            assert(self@.pos.contains_key(e.index as int) <==> self@.roll.live_at(e.index as int));
            self.pos.get(e.index as usize)
        } else {
            None
        }
    }

    /// The pending displacement of `e`, if it is alive.
    pub fn displacement(&self, e: Entity) -> (r: Option<Transform>)
        requires
            self.wf(),
        ensures
            r == if self@.roll.contains(e) {
                Some(self@.tra[e.index as int])
            } else {
                None
            },
    {
        if self.entities.is_alive(e) {
            assert(self@.tra.contains_key(e.index as int) <==> self@.roll.live_at(e.index as int));
            self.tra.get(e.index as usize)
        } else {
            None
        }
    }

    /// The living entities with their positions, in the order of the slots:
    /// what is handed to the drawing.
    pub fn positions(&self) -> (r: Vec<(Entity, Pos)>)
        requires
            self.wf(),
        ensures
            r@ == self@.shots(self@.roll.slots() as int),
    {
        let n: usize = self.entities.slots();
        let mut out: Vec<(Entity, Pos)> = Vec::new();
        let mut k: usize = 0;
        while k < n
            invariant
                k <= n,
                n == self@.roll.slots(),
                self.wf(),
                out@ == self@.shots(k as int),
            decreases n - k,
        {
            match (self.entities.entity_at(k), self.pos.get(k)) {
                (Some(e), Some(p)) => {
                    out.push((e, p));
                },
                _ => {},
            }
            k += 1;
        }
        out
    }
}

/// The commit leaves a consistent world consistent.
pub proof fn lemma_maintained_wf(w: WorldView)
    requires
        w.wf(),
    ensures
        w.maintained().wf(),
{
    let m = w.maintained();
    crate::entities::lemma_committed_wf(w.roll);
    assert forall|k: int| #[trigger] m.pos.contains_key(k) <==> m.roll.live_at(k) by {
        assert(w.pos.contains_key(k) <==> w.roll.live_at(k));
    }
    assert forall|k: int| #[trigger] m.tra.contains_key(k) <==> m.roll.live_at(k) by {
        assert(w.tra.contains_key(k) <==> w.roll.live_at(k));
    }
    assert forall|k: int| #[trigger] m.col.contains_key(k) implies m.roll.live_at(k) && m.col[k] is Circle by {
        assert(w.col.contains_key(k));
    }
}

} // verus!
