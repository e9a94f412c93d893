//! The plan of a tick: which system runs in which stage, worked out from
//! what each system declares that it reads and writes.

use vstd::prelude::*;

verus! {

/// What a system does with one store.
#[derive(Clone, Copy, Debug, PartialEq, Eq, Structural)]
pub enum Mode {
    Idle,
    Read,
    Write,
}

/// What a system declares of the stores.
#[derive(Clone, Copy, Debug, PartialEq, Eq, Structural)]
pub struct Access {
    pub entities: Mode,
    pub position: Mode,
    pub displacement: Mode,
    pub collider: Mode,
}

/// Two uses of one store clash: one of them writes while the other reads or
/// writes.
pub open spec fn clash(a: Mode, b: Mode) -> bool {
    (a is Write && !(b is Idle)) || (b is Write && !(a is Idle))
}

/// Two systems conflict: on some store their uses clash.
pub open spec fn conflicts(a: Access, b: Access) -> bool {
    clash(a.entities, b.entities) || clash(a.position, b.position) || clash(a.displacement, b.displacement)
        || clash(a.collider, b.collider)
}

/// What is declared of one system when it is registered.
pub struct Decl {
    pub name: Seq<char>,
    pub access: Access,
    /// The names of the systems that it must run after.
    pub after: Seq<Seq<char>>,
    /// The number of barriers set before it.
    pub epoch: nat,
}

/// System `i` may not share a stage with the earlier system `q`, nor run
/// before it: it names `q` as a predecessor, conflicts with it, or is parted
/// from it by a barrier.
pub open spec fn must_follow(decls: Seq<Decl>, q: int, i: int) -> bool {
    decls[i].after.contains(decls[q].name) || conflicts(decls[q].access, decls[i].access) || decls[q].epoch
        < decls[i].epoch
}

/// The earliest stage in which system `i` can run, as far as the first
/// `upto` systems decide: the stage after the latest of those that it must
/// follow, each in its own earliest stage.
pub open spec fn earliest(decls: Seq<Decl>, i: int, upto: int) -> nat
    decreases i, upto,
{
    if upto <= 0 || upto > i {
        0
    } else {
        let rest = earliest(decls, i, upto - 1);
        if must_follow(decls, upto - 1, i) && earliest(decls, upto - 1, upto - 1) + 1 > rest {
            earliest(decls, upto - 1, upto - 1) + 1
        } else {
            rest
        }
    }
}

/// The stage of system `i`: the earliest that the systems registered before
/// it allow.
pub open spec fn stage_of(decls: Seq<Decl>, i: int) -> nat {
    earliest(decls, i, i)
}

/// The number of stages of the plan.
pub open spec fn stage_count(decls: Seq<Decl>, n: int) -> nat
    decreases n,
{
    if n <= 0 {
        0
    } else if stage_of(decls, n - 1) + 1 > stage_count(decls, n - 1) {
        stage_of(decls, n - 1) + 1
    } else {
        stage_count(decls, n - 1)
    }
}

/// The systems of stage `s` among the first `n`, in the order of their
/// registration.
pub open spec fn members(decls: Seq<Decl>, s: int, n: int) -> Seq<usize>
    decreases n,
{
    if n <= 0 {
        Seq::empty()
    } else if stage_of(decls, n - 1) == s {
        members(decls, s, n - 1).push((n - 1) as usize)
    } else {
        members(decls, s, n - 1)
    }
}

/// The stages of the plan, each with its systems.
pub open spec fn stages_of(decls: Seq<Decl>) -> Seq<Seq<usize>> {
    Seq::new(stage_count(decls, decls.len() as int), |s: int| members(decls, s, decls.len() as int))
}

/// What the earlier systems decide only grows as more of them are counted.
pub proof fn lemma_earliest_grows(decls: Seq<Decl>, i: int, a: int, b: int)
    requires
        0 <= a <= b <= i,
    ensures
        earliest(decls, i, a) <= earliest(decls, i, b),
    decreases b - a,
{
    if a < b {
        lemma_earliest_grows(decls, i, a, b - 1);
    }
}

/// A system runs in a later stage than every earlier system that it must
/// follow.
pub proof fn lemma_follows(decls: Seq<Decl>, q: int, i: int)
    requires
        0 <= q < i,
        must_follow(decls, q, i),
    ensures
        stage_of(decls, q) < stage_of(decls, i),
{
    lemma_earliest_grows(decls, i, q + 1, i);
}

/// Two systems of one stage do not conflict: within a stage, what one
/// system writes no other reads or writes.
pub proof fn lemma_stage_is_free_of_conflict(decls: Seq<Decl>, i: int, j: int)
    requires
        0 <= i < j,
        stage_of(decls, i) == stage_of(decls, j),
    ensures
        !conflicts(decls[i].access, decls[j].access),
        !conflicts(decls[j].access, decls[i].access),
{
    if conflicts(decls[i].access, decls[j].access) {
        lemma_follows(decls, i, j);
    }
}

/// A system runs after the predecessors that it names.
pub proof fn lemma_after_predecessor(decls: Seq<Decl>, q: int, i: int)
    requires
        0 <= q < i,
        decls[i].after.contains(decls[q].name),
    ensures
        stage_of(decls, q) < stage_of(decls, i),
{
    lemma_follows(decls, q, i);
}

/// A barrier parts the stages: what was registered before it runs in
/// earlier stages than what was registered after it.
pub proof fn lemma_barrier_parts(decls: Seq<Decl>, q: int, i: int)
    requires
        0 <= q < i,
        decls[q].epoch < decls[i].epoch,
    ensures
        stage_of(decls, q) < stage_of(decls, i),
{
    lemma_follows(decls, q, i);
}

/// No stage is put off without need: a system that is not in the first
/// stage comes right after an earlier system that it must follow.
pub proof fn lemma_stage_is_earliest(decls: Seq<Decl>, i: int, upto: int)
    requires
        0 <= upto <= i,
        earliest(decls, i, upto) > 0,
    ensures
        exists|q: int| 0 <= q < upto && #[trigger] must_follow(decls, q, i) && stage_of(decls, q) + 1 == earliest(
            decls,
            i,
            upto,
        ),
    decreases upto,
{
    if upto > 0 {
        let rest = earliest(decls, i, upto - 1);
        if must_follow(decls, upto - 1, i) && earliest(decls, upto - 1, upto - 1) + 1 > rest {
            assert(must_follow(decls, upto - 1, i) && stage_of(decls, upto - 1) + 1 == earliest(decls, i, upto));
        } else {
            lemma_stage_is_earliest(decls, i, upto - 1);
            let q = choose|q: int| 0 <= q < upto - 1 && #[trigger] must_follow(decls, q, i) && stage_of(decls, q) + 1 == earliest(
                decls,
                i,
                upto - 1,
            );
            assert(must_follow(decls, q, i) && stage_of(decls, q) + 1 == earliest(decls, i, upto));
        }
    }
}

/// Every system has its stage among the stages of the plan.
pub proof fn lemma_stage_in_plan(decls: Seq<Decl>, i: int, n: int)
    requires
        0 <= i < n,
    ensures
        stage_of(decls, i) < stage_count(decls, n),
    decreases n,
{
    if i < n - 1 {
        lemma_stage_in_plan(decls, i, n - 1);
    }
}

/// The members of a stage are the systems of that stage, in ascending order.
pub proof fn lemma_members(decls: Seq<Decl>, s: int, n: int)
    requires
        0 <= n <= usize::MAX,
    ensures
        forall|j: int|
            0 <= j < members(decls, s, n).len() ==> (#[trigger] members(decls, s, n)[j]) < n && stage_of(
                decls,
                members(decls, s, n)[j] as int,
            ) == s,
        forall|a: int, b: int|
            0 <= a < b < members(decls, s, n).len() ==> (#[trigger] members(decls, s, n)[a]) < (#[trigger] members(
                decls,
                s,
                n,
            )[b]),
        forall|i: int|
            0 <= i < n && stage_of(decls, i) == s ==> #[trigger] members(decls, s, n).contains(i as usize),
    decreases n,
{
    if n > 0 {
        lemma_members(decls, s, n - 1);
        let prev = members(decls, s, n - 1);
        let now = members(decls, s, n);
        if stage_of(decls, n - 1) == s {
            assert(now[now.len() - 1] == (n - 1) as usize);
            assert forall|j: int| 0 <= j < now.len() implies (#[trigger] now[j]) < n && stage_of(
                decls,
                now[j] as int,
            ) == s by {
                if j < prev.len() {
                    assert(now[j] == prev[j]);
                }
            }
            assert forall|a: int, b: int| 0 <= a < b < now.len() implies (#[trigger] now[a]) < (#[trigger] now[b]) by {
                assert(now[a] == prev[a]);
                if b < prev.len() {
                    assert(now[b] == prev[b]);
                }
            }
            assert forall|i: int| 0 <= i < n && stage_of(decls, i) == s implies #[trigger] now.contains(
                i as usize,
            ) by {
                if i < n - 1 {
                    assert(prev.contains(i as usize));
                    let w = choose|w: int| 0 <= w < prev.len() && prev[w] == i as usize;
                    assert(now[w] == i as usize);
                }
            }
        }
    }
}

/// The plan is sound: two systems that the plan puts into one stage do not
/// conflict, so that a stage can hand out its stores without a lock.
pub proof fn lemma_plan_is_sound(decls: Seq<Decl>, s: int, a: int, b: int)
    requires
        decls.len() <= usize::MAX,
        0 <= s < stages_of(decls).len(),
        0 <= a < stages_of(decls)[s].len(),
        0 <= b < stages_of(decls)[s].len(),
        a != b,
    ensures
        stages_of(decls)[s][a] != stages_of(decls)[s][b],
        !conflicts(decls[stages_of(decls)[s][a] as int].access, decls[stages_of(decls)[s][b] as int].access),
{
    lemma_members(decls, s, decls.len() as int);
    let stage = members(decls, s, decls.len() as int);
    if a < b {
        assert(stage[a] < stage[b]);
        lemma_stage_is_free_of_conflict(decls, stage[a] as int, stage[b] as int);
    } else {
        assert(stage[b] < stage[a]);
        lemma_stage_is_free_of_conflict(decls, stage[b] as int, stage[a] as int);
    }
}

/// The plan is complete: every system is in the plan, in the stage that is
/// its own and in no other.
pub proof fn lemma_plan_covers(decls: Seq<Decl>, i: int, s: int)
    requires
        decls.len() <= usize::MAX,
        0 <= i < decls.len(),
        0 <= s < stages_of(decls).len(),
    ensures
        stage_of(decls, i) < stages_of(decls).len(),
        stages_of(decls)[s].contains(i as usize) <==> s == stage_of(decls, i),
{
    lemma_stage_in_plan(decls, i, decls.len() as int);
    lemma_members(decls, s, decls.len() as int);
    let stage = members(decls, s, decls.len() as int);
    if stage.contains(i as usize) {
        let w = choose|w: int| 0 <= w < stage.len() && stage[w] == i as usize;
        assert(stage_of(decls, stage[w] as int) == s);
    }
}

impl Mode {
    /// Whether two uses of one store clash.
    pub fn clashes(self, other: Mode) -> (r: bool)
        ensures
            r == clash(self, other),
    {
        match (self, other) {
            (Mode::Write, Mode::Read) => true,
            (Mode::Write, Mode::Write) => true,
            (Mode::Read, Mode::Write) => true,
            _ => false,
        }
    }
}

impl Access {
    /// Whether two systems conflict.
    pub fn conflicts_with(&self, other: &Access) -> (r: bool)
        ensures
            r == conflicts(*self, *other),
    {
        self.entities.clashes(other.entities) || self.position.clashes(other.position)
            || self.displacement.clashes(other.displacement) || self.collider.clashes(other.collider)
    }
}

} // verus!
