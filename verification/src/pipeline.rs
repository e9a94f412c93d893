//! The systems as the scheduler knows them: what each declares of the
//! stores, and what one run of each does to the world.

use crate::body::Rule;
use crate::contact::{bodies_of, collided};
use crate::grid::GridCollisionSystem;
use crate::plan::{conflicts, Access, Mode};
use crate::sweep::CollisionSystem;
use crate::systems::{moved_all, perturbed, spent_all, AiSystem, BumpSystem, PhysicsSystem};
use crate::world::{World, WorldView};
use vstd::prelude::*;

verus! {

/// A system of any of the kinds that the engine has.
pub enum AnySystem {
    Bump(BumpSystem),
    Collision(CollisionSystem),
    Grid(GridCollisionSystem),
    Physics(PhysicsSystem),
    Ai(AiSystem),
}

/// What kind of system it is, with the settings that decide what it does.
pub enum Kind {
    Bump { amplitude: u32 },
    Collision,
    Grid { rule: Rule },
    Physics,
    Ai,
}

/// What a system of this kind declares of the stores.
pub open spec fn access_of(kind: Kind) -> Access {
    match kind {
        Kind::Bump { .. } => Access {
            entities: Mode::Idle,
            position: Mode::Idle,
            displacement: Mode::Write,
            collider: Mode::Idle,
        },
        Kind::Collision | Kind::Grid { .. } => Access {
            entities: Mode::Read,
            position: Mode::Read,
            displacement: Mode::Write,
            collider: Mode::Read,
        },
        Kind::Physics => Access {
            entities: Mode::Idle,
            position: Mode::Write,
            displacement: Mode::Write,
            collider: Mode::Idle,
        },
        Kind::Ai => Access {
            entities: Mode::Idle,
            position: Mode::Read,
            displacement: Mode::Idle,
            collider: Mode::Idle,
        },
    }
}

/// One run of a system of this kind may turn the world `pre` into `post`.
/// All but the perturbation leave one outcome only.
pub open spec fn step(kind: Kind, pre: WorldView, post: WorldView) -> bool {
    match kind {
        Kind::Bump { amplitude } => {
            &&& post.roll == pre.roll
            &&& post.pos == pre.pos
            &&& post.col == pre.col
            &&& perturbed(pre.tra, post.tra, amplitude)
        },
        Kind::Collision => post == (WorldView {
            tra: collided(Rule::Separate, bodies_of(pre.roll, pre.col, pre.pos, pre.tra), pre.tra),
            ..pre
        }),
        Kind::Grid { rule } => post == (WorldView {
            tra: collided(rule, bodies_of(pre.roll, pre.col, pre.pos, pre.tra), pre.tra),
            ..pre
        }),
        Kind::Physics => post == (WorldView {
            pos: moved_all(pre.pos, pre.tra),
            tra: spent_all(pre.pos, pre.tra),
            ..pre
        }),
        Kind::Ai => post == pre,
    }
}

/// Runs of systems of these kinds, one after another, may turn the world
/// `pre` into `post`.
pub open spec fn chain(kinds: Seq<Kind>, pre: WorldView, post: WorldView) -> bool
    decreases kinds.len(),
{
    if kinds.len() == 0 {
        post == pre
    } else {
        exists|mid: WorldView| chain(kinds.drop_last(), pre, mid) && #[trigger] step(kinds.last(), mid, post)
    }
}

/// No system makes a consistent world inconsistent.
pub proof fn lemma_step_keeps_wf(kind: Kind, pre: WorldView, post: WorldView)
    requires
        pre.wf(),
        step(kind, pre, post),
    ensures
        post.wf(),
{
    assert forall|k: int| #[trigger] post.pos.contains_key(k) <==> post.roll.live_at(k) by {
        assert(pre.pos.contains_key(k) <==> pre.roll.live_at(k));
    }
    assert forall|k: int| #[trigger] post.tra.contains_key(k) <==> post.roll.live_at(k) by {
        assert(pre.tra.contains_key(k) <==> pre.roll.live_at(k));
        assert(post.tra.dom().contains(k) <==> post.tra.contains_key(k));
        assert(pre.tra.dom().contains(k) <==> pre.tra.contains_key(k));
    }
    assert forall|k: int| #[trigger] post.col.contains_key(k) implies post.roll.live_at(k) && post.col[k] is Circle by {
        assert(pre.col.contains_key(k));
    }
}

/// A chain that is run one system further.
pub proof fn lemma_chain_extend(kinds: Seq<Kind>, next: Kind, pre: WorldView, mid: WorldView, post: WorldView)
    requires
        chain(kinds, pre, mid),
        step(next, mid, post),
    ensures
        chain(kinds.push(next), pre, post),
{
    let longer = kinds.push(next);
    assert(longer.drop_last() =~= kinds);
    assert(longer.last() == next);
    assert(chain(longer.drop_last(), pre, mid) && step(longer.last(), mid, post));
}

/// Two chains, one run after the other, make one chain.
pub proof fn lemma_chain_join(first: Seq<Kind>, second: Seq<Kind>, pre: WorldView, mid: WorldView, post: WorldView)
    requires
        chain(first, pre, mid),
        chain(second, mid, post),
    ensures
        chain(first + second, pre, post),
    decreases second.len(),
{
    if second.len() == 0 {
        assert(first + second =~= first);
    } else {
        let last = choose|w: WorldView| chain(second.drop_last(), mid, w) && #[trigger] step(second.last(), w, post);
        lemma_chain_join(first, second.drop_last(), pre, mid, last);
        lemma_chain_extend(first + second.drop_last(), second.last(), pre, last, post);
        assert((first + second.drop_last()).push(second.last()) =~= first + second);
    }
}

/// Systems that do not conflict can run in either order: whatever the one
/// order may leave of a world, the other may leave too. So the order in
/// which the systems of one stage run is free.
pub proof fn lemma_order_is_free(a: Kind, b: Kind, pre: WorldView, mid: WorldView, post: WorldView)
    requires
        !conflicts(access_of(a), access_of(b)),
        step(a, pre, mid),
        step(b, mid, post),
    ensures
        exists|other: WorldView| step(b, pre, other) && #[trigger] step(a, other, post),
{
    if a is Ai {
        assert(step(b, pre, post) && step(a, post, post));
    } else {
        assert(b is Ai);
        assert(step(b, pre, pre) && step(a, pre, post));
    }
}

impl AnySystem {
    /// The kind of this system.
    pub open spec fn kind(&self) -> Kind {
        match self {
            AnySystem::Bump(s) => Kind::Bump { amplitude: s.amplitude() },
            AnySystem::Collision(_) => Kind::Collision,
            AnySystem::Grid(s) => Kind::Grid { rule: s.rule() },
            AnySystem::Physics(_) => Kind::Physics,
            AnySystem::Ai(_) => Kind::Ai,
        }
    }

    /// The system can run.
    pub open spec fn wf(&self) -> bool {
        match self {
            AnySystem::Grid(s) => s.wf(),
            _ => true,
        }
    }

    /// What this system declares of the stores.
    pub fn access(&self) -> (a: Access)
        ensures
            a == access_of(self.kind()),
    {
        match self {
            AnySystem::Bump(_) => Access {
                entities: Mode::Idle,
                position: Mode::Idle,
                displacement: Mode::Write,
                collider: Mode::Idle,
            },
            AnySystem::Collision(_) | AnySystem::Grid(_) => Access {
                entities: Mode::Read,
                position: Mode::Read,
                displacement: Mode::Write,
                collider: Mode::Read,
            },
            AnySystem::Physics(_) => Access {
                entities: Mode::Idle,
                position: Mode::Write,
                displacement: Mode::Write,
                collider: Mode::Idle,
            },
            AnySystem::Ai(_) => Access {
                entities: Mode::Idle,
                position: Mode::Read,
                displacement: Mode::Idle,
                collider: Mode::Idle,
            },
        }
    }

    /// Runs this system once on the world.
    pub fn run(&mut self, world: &mut World)
        requires
            old(self).wf(),
            old(world).wf(),
        ensures
            final(self).wf(),
            final(self).kind() == old(self).kind(),
            final(world).wf(),
            step(old(self).kind(), old(world)@, final(world)@),
    {
        let ghost pre = world@;
        proof {
            world.lemma_view();
            world.lemma_wf_parts();
        }
        match self {
            AnySystem::Bump(s) => {
                s.run(&mut world.tra);
            },
            AnySystem::Collision(s) => {
                s.run(&world.entities, &world.col, &world.pos, &mut world.tra);
            },
            AnySystem::Grid(s) => {
                s.run(&world.entities, &world.col, &world.pos, &mut world.tra);
            },
            AnySystem::Physics(s) => {
                s.run(&mut world.pos, &mut world.tra);
            },
            AnySystem::Ai(s) => {
                s.run(&world.pos);
            },
        }
        proof {
            world.lemma_view();
            lemma_step_keeps_wf(old(self).kind(), pre, world@);
            world.lemma_wf_from_view();
        }
    }
}

} // verus!
