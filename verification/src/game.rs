//! The simulation as a whole: a world, the plan that advances it, and the
//! tick.

use crate::components::{Collider, Pos, Transform};
use crate::entities::Entity;
use crate::geometry::{Pt, UNIT};
use crate::pipeline::{chain, lemma_step_keeps_wf, step, AnySystem, Kind};
use crate::random::{draw, seeded};
use crate::plan::{earliest, members, stage_count, stage_of, stages_of, Decl};
use crate::pipeline::access_of;
use crate::scheduler::{flat, spelled_strs, Dispatcher, Scheduler};
use crate::sweep::CollisionSystem;
use crate::systems::{AiSystem, BumpSystem, PhysicsSystem};
use crate::world::{World, WorldView};
use vstd::prelude::*;

verus! {

/// The radius of the circles of the stock scene: ten world units.
pub const CIRCLE_RADIUS: u32 = 10240;

/// The number of circles in the stock scene.
pub const CIRCLE_COUNT: usize = 30;

/// The stock scene is laid out between these two coordinates, the first
/// included and the second not, on both axes: 50 and 200 world units.
pub const FIELD_LOW: i32 = 51200;

pub const FIELD_HIGH: i32 = 204800;

/// Nothing is pending for any entity.
pub open spec fn at_rest(w: WorldView) -> bool {
    forall|k: int| #[trigger] w.tra.contains_key(k) ==> w.tra[k] == Transform(Pt { x: 0, y: 0 })
}

/// A chain of runs leaves a consistent world consistent.
pub proof fn lemma_chain_keeps_wf(kinds: Seq<Kind>, pre: WorldView, post: WorldView)
    requires
        pre.wf(),
        chain(kinds, pre, post),
    ensures
        post.wf(),
    decreases kinds.len(),
{
    if kinds.len() > 0 {
        let mid = choose|mid: WorldView| chain(kinds.drop_last(), pre, mid) && #[trigger] step(kinds.last(), mid, post);
        lemma_chain_keeps_wf(kinds.drop_last(), pre, mid);
        lemma_step_keeps_wf(kinds.last(), mid, post);
    }
}

/// After integration nothing is pending: a tick whose last system is the
/// integration leaves every entity with a pending displacement of zero, and
/// so does the commit that follows.
pub proof fn lemma_tick_ends_at_rest(kinds: Seq<Kind>, pre: WorldView, post: WorldView)
    requires
        pre.wf(),
        kinds.len() > 0,
        kinds.last() is Physics,
        chain(kinds, pre, post),
    ensures
        at_rest(post),
        at_rest(post.maintained()),
{
    let mid = choose|mid: WorldView| chain(kinds.drop_last(), pre, mid) && #[trigger] step(kinds.last(), mid, post);
    lemma_chain_keeps_wf(kinds.drop_last(), pre, mid);
    assert forall|k: int| #[trigger] post.tra.contains_key(k) implies post.tra[k] == Transform(Pt { x: 0, y: 0 }) by {
        assert(mid.tra.contains_key(k));
        assert(mid.roll.live_at(k));
        assert(mid.pos.contains_key(k));
    }
}

/// The order in which a tick of the stock simulation runs its systems.
pub open spec fn stock_order() -> Seq<Kind> {
    seq![Kind::Bump { amplitude: (3 * UNIT) as u32 }, Kind::Ai, Kind::Collision, Kind::Physics]
}

/// Slot `k` holds a circle of the stock scene, at rest.
pub open spec fn stock_circle(w: WorldView, k: int) -> bool {
    &&& w.roll.live_at(k)
    &&& w.pos.contains_key(k)
    &&& FIELD_LOW <= w.pos[k].0.x < FIELD_HIGH
    &&& FIELD_LOW <= w.pos[k].0.y < FIELD_HIGH
    &&& w.tra.contains_key(k)
    &&& w.tra[k] == Transform(Pt { x: 0, y: 0 })
    &&& w.col.contains_key(k)
    &&& w.col[k] == (Collider::Circle { radius: CIRCLE_RADIUS })
}

/// The world is the stock scene.
pub open spec fn stock_scene(w: WorldView) -> bool {
    &&& w.roll.slots() == CIRCLE_COUNT
    &&& w.roll.doomed.len() == 0
    &&& forall|k: int| 0 <= k < CIRCLE_COUNT ==> #[trigger] stock_circle(w, k)
}

/// The plan of the stock simulation.
pub proof fn lemma_stock_plan(decls: Seq<Decl>)
    requires
        decls.len() == 4,
        decls[0].access == access_of(Kind::Bump { amplitude: 0 }),
        decls[1].access == access_of(Kind::Collision),
        decls[2].access == access_of(Kind::Ai),
        decls[3].access == access_of(Kind::Physics),
        decls[0].after.len() == 0,
        decls[1].after.len() == 0,
        decls[2].after.len() == 0,
        decls[3].after.len() == 0,
        decls[0].epoch == 0,
        decls[1].epoch == 0,
        decls[2].epoch == 0,
        decls[3].epoch == 1,
    ensures
        stages_of(decls) == seq![seq![0usize, 2usize], seq![1usize], seq![3usize]],
        flat(stages_of(decls)) == seq![0usize, 2usize, 1usize, 3usize],
{
    reveal_with_fuel(earliest, 5);
    reveal_with_fuel(members, 5);
    reveal_with_fuel(stage_count, 5);
    assert(stage_of(decls, 0) == 0);
    assert(stage_of(decls, 1) == 1);
    assert(stage_of(decls, 2) == 0);
    assert(stage_of(decls, 3) == 2);
    assert(stage_count(decls, 4) == 3);
    assert(members(decls, 0, 4) =~= seq![0usize, 2usize]);
    assert(members(decls, 1, 4) =~= seq![1usize]);
    assert(members(decls, 2, 4) =~= seq![3usize]);
    let stages = stages_of(decls);
    assert(stages =~= seq![seq![0usize, 2usize], seq![1usize], seq![3usize]]);
    reveal_with_fuel(flat, 4);
    assert(stages.drop_last() =~= seq![seq![0usize, 2usize], seq![1usize]]);
    assert(stages.drop_last().drop_last() =~= seq![seq![0usize, 2usize]]);
    assert(stages.drop_last().drop_last().drop_last() =~= Seq::<Seq<usize>>::empty());
    assert(flat(stages) =~= seq![0usize, 2usize, 1usize, 3usize]);
}

/// A world and the plan that advances it.
pub struct GameState {
    world: World,
    dispatcher: Dispatcher,
}

impl GameState {
    /// What the world holds.
    pub closed spec fn view(&self) -> WorldView {
        self.world@
    }

    /// The kinds of the systems in the order in which a tick runs them.
    pub closed spec fn order(&self) -> Seq<Kind> {
        self.dispatcher.order()
    }

    /// The state is consistent.
    pub closed spec fn wf(&self) -> bool {
        self.world.wf() && self.dispatcher.wf()
    }

    /// The stock simulation: thirty circles of radius ten, laid out at
    /// random between 50 and 200 on both axes by a generator seeded with
    /// zeros, and the plan of perturbation and behaviour, then collision,
    /// then integration.
    pub fn new() -> (s: Self)
        ensures
            s.wf(),
            s.order() == stock_order(),
            stock_scene(s@),
    {
        let mut scheduler = Scheduler::new();
        let ghost a0 = scheduler@;
        proof {
            reveal_strlit("BumpSystem");
            reveal_strlit("CollisionSystem");
            reveal_strlit("Ai");
            reveal_strlit("PhysicsSystem");
        }
        let none: [&str; 0] = [];
        assert(spelled_strs(none@).len() == 0);
        let r0 = scheduler.register(AnySystem::Bump(BumpSystem::new()), "BumpSystem", &none);
        assert(r0 is Ok);
        let ghost a1 = scheduler@;
        proof {
            assert("BumpSystem"@.len() == 10 && "CollisionSystem"@.len() == 15 && "Ai"@.len() == 2
                && "PhysicsSystem"@.len() == 13);
            assert(a1.decls.len() == 1 && a1.decls[0].name.len() == 10);
        }
        let r1 = scheduler.register(AnySystem::Collision(CollisionSystem::new()), "CollisionSystem", &none);
        assert(r1 is Ok);
        let ghost a2 = scheduler@;
        assert(a2.decls.len() == 2 && a2.decls[0].name.len() == 10 && a2.decls[1].name.len() == 15);
        let r2 = scheduler.register(AnySystem::Ai(AiSystem), "Ai", &none);
        assert(r2 is Ok);
        let ghost a3 = scheduler@;
        assert(a3.decls.len() == 3 && a3.decls[0].name.len() == 10 && a3.decls[1].name.len() == 15
            && a3.decls[2].name.len() == 2);
        scheduler.barrier();
        let r3 = scheduler.register(AnySystem::Physics(PhysicsSystem), "PhysicsSystem", &none);
        assert(r3 is Ok);
        let ghost a4 = scheduler@;
        proof {
            lemma_stock_plan(a4.decls);
        }
        let dispatcher = scheduler.build();
        let mut world = World::new();
        let mut rng = seeded([0u8;32]);
        let mut i: usize = 0;
        while i < CIRCLE_COUNT
            invariant
                i <= CIRCLE_COUNT,
                world.wf(),
                world@.roll.slots() == i,
                world@.roll.vacant.len() == 0,
                world@.roll.doomed.len() == 0,
                world@.roll.limit == u32::MAX,
                forall|k: int| 0 <= k < i ==> #[trigger] stock_circle(world@, k),
            decreases CIRCLE_COUNT - i,
        {
            let x: i64 = draw(&mut rng, FIELD_LOW as i64, FIELD_HIGH as i64);
            let y: i64 = draw(&mut rng, FIELD_LOW as i64, FIELD_HIGH as i64);
            let at = Pos::new(Pt::new(x as i32, y as i32));
            let ghost before = world@;
            let made = world.create_entity(at, Some(Collider::Circle { radius: CIRCLE_RADIUS }));
            proof {
                assert(made is Ok);
                assert forall|k: int| 0 <= k < i + 1 implies #[trigger] stock_circle(world@, k) by {
                    if k < i {
                        assert(stock_circle(before, k));
                    }
                }
            }
            i += 1;
        }
        GameState { world, dispatcher }
    }

    /// A state made of a world and of a plan.
    pub fn assemble(world: World, dispatcher: Dispatcher) -> (s: Self)
        requires
            world.wf(),
            dispatcher.wf(),
        ensures
            s.wf(),
            s@ == world@,
            s.order() == dispatcher.order(),
    {
        GameState { world, dispatcher }
    }

    /// One tick: the plan runs once over the world, then the deletions that
    /// were asked for are committed. An entity whose deletion was asked for
    /// is still there for every system of the tick.
    pub fn update_tick(&mut self)
        requires
            old(self).wf(),
        ensures
            final(self).wf(),
            final(self).order() == old(self).order(),
            exists|mid: WorldView| #[trigger]
                chain(old(self).order(), old(self)@, mid) && final(self)@ == mid.maintained(),
            old(self).order().len() > 0 && old(self).order().last() is Physics ==> at_rest(final(self)@),
    {
        self.dispatcher.dispatch(&mut self.world);
        let ghost mid = self.world@;
        self.world.maintain();
        proof {
            assert(chain(old(self).order(), old(self)@, mid) && self@ == mid.maintained());
            if old(self).order().len() > 0 && old(self).order().last() is Physics {
                old(self).world.lemma_wf();
                lemma_tick_ends_at_rest(old(self).order(), old(self)@, mid);
            }
        }
    }

    /// The plan, to read.
    pub fn dispatcher(&self) -> (d: &Dispatcher)
        ensures
            d.order() == self.order(),
            self.wf() ==> d.wf(),
    {
        &self.dispatcher
    }

    /// The world, to read.
    pub fn world(&self) -> (w: &World)
        ensures
            w@ == self@,
            self.wf() ==> w.wf(),
    {
        &self.world
    }

    /// Asks for the deletion of `e`, which is made at the end of the next
    /// tick. The answer is whether `e` is alive.
    pub fn delete_entity(&mut self, e: Entity) -> (r: bool)
        requires
            old(self).wf(),
        ensures
            final(self).wf(),
            final(self).order() == old(self).order(),
            r == old(self)@.roll.contains(e),
            final(self)@ == (WorldView { roll: old(self)@.roll.dooming(e), ..old(self)@ }),
    {
        self.world.delete_entity(e)
    }

    /// The living entities with their positions: what is handed to the
    /// drawing.
    pub fn positions(&self) -> (r: Vec<(Entity, Pos)>)
        requires
            self.wf(),
        ensures
            r@ == self@.shots(self@.roll.slots() as int),
    {
        self.world.positions()
    }
}

} // verus!
