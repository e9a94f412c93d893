//! The scheduler: systems are registered under a name, with the systems
//! that they must run after; the plan that is built from them is run tick
//! by tick.

use crate::pipeline::{access_of, chain, lemma_chain_extend, lemma_chain_join, AnySystem, Kind};
use crate::plan::{
    earliest, lemma_members, members, must_follow, stage_count, stage_of, stages_of, Access, Decl,
};
use crate::world::World;
use vstd::prelude::*;

verus! {

/// Why a system could not be registered.
#[derive(Clone, Copy, Debug, PartialEq, Eq, Structural)]
pub enum ScheduleError {
    /// A system of that name is registered already.
    DuplicateNameError,
    /// The system names itself among the systems that it must run after.
    /// Predecessors have to be registered first, so no other cycle can be
    /// declared.
    CyclicDependencyError,
    /// A predecessor is named that is not registered.
    UnknownPredecessorError,
}

/// What the scheduler has been told.
pub struct Agenda {
    /// What was declared of each system, in the order of registration.
    pub decls: Seq<Decl>,
    /// The kind of each system.
    pub kinds: Seq<Kind>,
    /// The number of barriers set so far.
    pub barriers: nat,
}

/// A system of that name is declared.
pub open spec fn has_name(decls: Seq<Decl>, name: Seq<char>) -> bool {
    exists|q: int| 0 <= q < decls.len() && (#[trigger] decls[q]).name == name
}

/// Why a registration under `name`, after the systems named in `after`, is
/// refused, if it is.
pub open spec fn refusal(decls: Seq<Decl>, name: Seq<char>, after: Seq<Seq<char>>) -> Option<ScheduleError> {
    if has_name(decls, name) {
        Some(ScheduleError::DuplicateNameError)
    } else if after.contains(name) {
        Some(ScheduleError::CyclicDependencyError)
    } else if exists|j: int| 0 <= j < after.len() && !has_name(decls, #[trigger] after[j]) {
        Some(ScheduleError::UnknownPredecessorError)
    } else {
        None
    }
}

/// The agenda with one more system registered.
pub open spec fn registered(agenda: Agenda, name: Seq<char>, kind: Kind, after: Seq<Seq<char>>) -> Agenda {
    Agenda {
        decls: agenda.decls.push(Decl { name, access: access_of(kind), after, epoch: agenda.barriers }),
        kinds: agenda.kinds.push(kind),
        barriers: agenda.barriers,
    }
}

/// The names that the strings spell.
pub open spec fn spelled(names: Seq<String>) -> Seq<Seq<char>> {
    Seq::new(names.len(), |j: int| names[j]@)
}

/// The names that the string slices spell.
pub open spec fn spelled_strs(names: Seq<&str>) -> Seq<Seq<char>> {
    Seq::new(names.len(), |j: int| names[j]@)
}

/// The stage of a system is decided by that system and those before it.
pub proof fn lemma_earliest_prefix(a: Seq<Decl>, b: Seq<Decl>, i: int, upto: int)
    requires
        0 <= upto <= i,
        i < a.len(),
        i < b.len(),
        forall|q: int| 0 <= q <= i ==> a[q] == b[q],
    ensures
        earliest(a, i, upto) == earliest(b, i, upto),
    decreases i, upto,
{
    if upto > 0 {
        lemma_earliest_prefix(a, b, i, upto - 1);
        lemma_earliest_prefix(a, b, upto - 1, upto - 1);
    }
}

/// A system's stage is no later than its place in the registration.
pub proof fn lemma_earliest_bound(decls: Seq<Decl>, i: int, upto: int)
    requires
        0 <= upto <= i,
    ensures
        earliest(decls, i, upto) <= upto,
    decreases i, upto,
{
    if upto > 0 {
        lemma_earliest_bound(decls, i, upto - 1);
        lemma_earliest_bound(decls, upto - 1, upto - 1);
    }
}

struct Entry {
    name: String,
    access: Access,
    after: Vec<String>,
    epoch: usize,
    stage: usize,
}

impl Entry {
    spec fn decl(&self) -> Decl {
        Decl { name: self.name@, access: self.access, after: spelled(self.after@), epoch: self.epoch as nat }
    }
}

/// Takes the registrations and builds the plan.
pub struct Scheduler {
    entries: Vec<Entry>,
    systems: Vec<AnySystem>,
    barriers: usize,
}

/// Whether `name` is among `names`.
fn among(names: &Vec<String>, name: &String) -> (r: bool)
    ensures
        r == spelled(names@).contains(name@),
{
    let mut j: usize = 0;
    while j < names.len()
        invariant
            j <= names.len(),
            forall|u: int| 0 <= u < j ==> spelled(names@)[u] != name@,
        decreases names.len() - j,
    {
        if names[j] == *name {
            assert(spelled(names@)[j as int] == name@);
            return true;
        }
        j += 1;
    }
    false
}

impl Scheduler {
    /// What the scheduler has been told.
    pub closed spec fn view(&self) -> Agenda {
        Agenda {
            decls: Seq::new(self.entries.len() as nat, |i: int| self.entries[i].decl()),
            kinds: Seq::new(self.systems.len() as nat, |i: int| self.systems[i].kind()),
            barriers: self.barriers as nat,
        }
    }

    /// The scheduler is consistent.
    pub closed spec fn wf(&self) -> bool {
        &&& self.systems.len() == self.entries.len()
        &&& forall|i: int|
            0 <= i < self.entries.len() ==> {
                &&& (#[trigger] self.systems[i]).wf()
                &&& self.entries[i].access == access_of(self.systems[i].kind())
            }
        &&& forall|i: int|
            0 <= i < self.entries.len() ==> {
                &&& (#[trigger] self.entries[i]).epoch <= self.barriers
                &&& self.entries[i].stage == stage_of(self@.decls, i)
            }
    }

    /// A scheduler with nothing registered.
    pub fn new() -> (s: Self)
        ensures
            s.wf(),
            s@.decls.len() == 0,
            s@.kinds.len() == 0,
            s@.barriers == 0,
    {
        Scheduler { entries: Vec::new(), systems: Vec::new(), barriers: 0 }
    }

    /// Whether a system of that name is registered.
    fn knows(&self, name: &String) -> (r: bool)
        ensures
            r == has_name(self@.decls, name@),
    {
        let mut q: usize = 0;
        while q < self.entries.len()
            invariant
                q <= self.entries.len(),
                forall|u: int| 0 <= u < q ==> (#[trigger] self@.decls[u]).name != name@,
            decreases self.entries.len() - q,
        {
            if self.entries[q].name == *name {
                assert(self@.decls[q as int].name == name@);
                return true;
            }
            q += 1;
        }
        false
    }

    /// Registers `system` under `name`, to run after the systems named in
    /// `after`, and after every system registered before it with which it
    /// conflicts. It is refused where the name is taken, where it names
    /// itself in `after`, and where a name in `after` is not registered.
    pub fn register(&mut self, system: AnySystem, name: &str, after: &[&str]) -> (r: Result<(), ScheduleError>)
        requires
            old(self).wf(),
            system.wf(),
        ensures
            final(self).wf(),
            refusal(old(self)@.decls, name@, spelled_strs(after@)) == match r {
                Ok(_) => None,
                Err(e) => Some(e),
            },
            r is Ok ==> final(self)@ == registered(old(self)@, name@, system.kind(), spelled_strs(after@)),
            r is Err ==> final(self)@ == old(self)@,
    {
        let own: String = name.to_owned();
        if self.knows(&own) {
            return Err(ScheduleError::DuplicateNameError);
        }
        let mut names: Vec<String> = Vec::new();
        let mut j: usize = 0;
        while j < after.len()
            invariant
                j <= after.len(),
                names.len() == j,
                forall|u: int| 0 <= u < j ==> (#[trigger] names[u])@ == after@[u]@,
            decreases after.len() - j,
        {
            names.push(after[j].to_owned());
            j += 1;
        }
        assert(spelled(names@) =~= spelled_strs(after@));
        if among(&names, &own) {
            return Err(ScheduleError::CyclicDependencyError);
        }
        j = 0;
        while j < names.len()
            invariant
                j <= names.len(),
                self.wf(),
                self == old(self),
                spelled(names@) == spelled_strs(after@),
                !has_name(self@.decls, name@),
                !spelled(names@).contains(name@),
                forall|u: int| 0 <= u < j ==> has_name(self@.decls, #[trigger] spelled(names@)[u]),
            decreases names.len() - j,
        {
            if !self.knows(&names[j]) {
                assert(!has_name(self@.decls, spelled(names@)[j as int]));
                return Err(ScheduleError::UnknownPredecessorError);
            }
            j += 1;
        }
        let i: usize = self.entries.len();
        let access: Access = system.access();
        let ghost before = self@;
        let ghost decl = Decl {
            name: name@,
            access: access_of(system.kind()),
            after: spelled_strs(after@),
            epoch: self.barriers as nat,
        };
        let ghost decls = before.decls.push(decl);
        let mut stage: usize = 0;
        let mut q: usize = 0;
        while q < i
            invariant
                q <= i,
                i == self.entries.len(),
                self.wf(),
                self == old(self),
                self@ == before,
                decls == before.decls.push(decl),
                decl.access == access,
                decl.after == spelled(names@),
                decl.epoch == self.barriers,
                stage == earliest(decls, i as int, q as int),
            decreases i - q,
        {
            proof {
                lemma_earliest_prefix(before.decls, decls, q as int, q as int);
                lemma_earliest_bound(decls, q as int, q as int);
                assert(decls[q as int] == self.entries[q as int].decl());
            }
            let must: bool = among(&names, &self.entries[q].name) || self.entries[q].access.conflicts_with(&access)
                || self.entries[q].epoch < self.barriers;
            assert(must == must_follow(decls, q as int, i as int));
            if must && self.entries[q].stage + 1 > stage {
                stage = self.entries[q].stage + 1;
            }
            q += 1;
        }
        self.entries.push(Entry { name: own, access, after: names, epoch: self.barriers, stage });
        self.systems.push(system);
        proof {
            assert(self@.decls =~= decls);
            assert(self@.kinds =~= before.kinds.push(system.kind()));
            assert forall|k: int| 0 <= k < self.entries.len() implies {
                &&& (#[trigger] self.entries[k]).epoch <= self.barriers
                &&& self.entries[k].stage == stage_of(self@.decls, k)
            } by {
                if k < i {
                    assert(self.entries[k] == old(self).entries[k]);
                    lemma_earliest_prefix(before.decls, decls, k, k);
                }
            }
        }
        Ok(())
    }

    /// Sets a barrier: whatever is registered from now on runs in later
    /// stages than whatever was registered before.
    pub fn barrier(&mut self)
        requires
            old(self).wf(),
        ensures
            final(self).wf(),
            final(self)@ == (Agenda {
                barriers: if old(self)@.barriers < usize::MAX {
                    old(self)@.barriers + 1
                } else {
                    old(self)@.barriers
                },
                ..old(self)@
            }),
    {
        if self.barriers < usize::MAX {
            self.barriers = self.barriers + 1;
        }
        proof {
            assert(self@.decls =~= old(self)@.decls);
            assert(self@.kinds =~= old(self)@.kinds);
        }
    }

    /// Builds the plan: each system in the earliest stage that the systems
    /// registered before it allow, and each stage in the order of
    /// registration.
    pub fn build(self) -> (d: Dispatcher)
        requires
            self.wf(),
        ensures
            d.wf(),
            d.kinds() == self@.kinds,
            d.stages() == stages_of(self@.decls),
            d.names() == Seq::new(self@.decls.len(), |i: int| self@.decls[i].name),
    {
        let ghost decls = self@.decls;
        let ghost kinds = self@.kinds;
        let Scheduler { entries, systems, barriers } = self;
        let n: usize = entries.len();
        assert(decls =~= Seq::new(entries.len() as nat, |i: int| entries[i].decl()));
        assert(kinds =~= Seq::new(systems.len() as nat, |i: int| systems[i].kind()));
        let mut count: usize = 0;
        let mut i: usize = 0;
        while i < n
            invariant
                i <= n,
                n == entries.len(),
                n == decls.len(),
                count == stage_count(decls, i as int),
                count <= i,
                forall|k: int| 0 <= k < n ==> (#[trigger] entries[k]).stage == stage_of(decls, k),
            decreases n - i,
        {
            proof {
                lemma_earliest_bound(decls, i as int, i as int);
            }
            if entries[i].stage + 1 > count {
                count = entries[i].stage + 1;
            }
            i += 1;
        }
        let mut stages: Vec<Vec<usize>> = Vec::new();
        let mut s: usize = 0;
        while s < count
            invariant
                s <= count,
                n == entries.len(),
                n == decls.len(),
                count == stage_count(decls, n as int),
                stages.len() == s,
                forall|k: int| 0 <= k < n ==> (#[trigger] entries[k]).stage == stage_of(decls, k),
                forall|t: int| 0 <= t < s ==> (#[trigger] stages[t])@ == members(decls, t, n as int),
            decreases count - s,
        {
            let mut stage: Vec<usize> = Vec::new();
            let mut k: usize = 0;
            while k < n
                invariant
                    k <= n,
                    n == entries.len(),
                    forall|u: int| 0 <= u < n ==> (#[trigger] entries[u]).stage == stage_of(decls, u),
                    stage@ == members(decls, s as int, k as int),
                decreases n - k,
            {
                if entries[k].stage == s {
                    stage.push(k);
                }
                k += 1;
            }
            stages.push(stage);
            s += 1;
        }
        let mut names: Vec<String> = Vec::new();
        i = 0;
        while i < n
            invariant
                i <= n,
                n == entries.len(),
                n == decls.len(),
                names.len() == i,
                forall|k: int| 0 <= k < n ==> decls[k] == (#[trigger] entries[k]).decl(),
                forall|k: int| 0 <= k < i ==> (#[trigger] names[k])@ == decls[k].name,
            decreases n - i,
        {
            names.push(entries[i].name.clone());
            i += 1;
        }
        let d = Dispatcher { systems, names, stages };
        proof {
            assert(d.stages() =~= stages_of(decls));
            assert(d.names() =~= Seq::new(decls.len(), |i: int| decls[i].name));
            assert forall|t: int, j: int|
                0 <= t < d.stages.len() && 0 <= j < d.stages[t].len() implies (#[trigger] d.stages[t][j])
                < d.systems.len() by {
                lemma_members(decls, t, n as int);
                assert(d.stages[t]@ == members(decls, t, n as int));
            }
            assert forall|k: int| 0 <= k < d.systems.len() implies (#[trigger] d.systems[k]).wf() by {
                assert(self.systems[k].wf());
            }
        }
        d
    }
}

/// The systems of a plan, stage by stage, in the order in which they run.
pub open spec fn flat(stages: Seq<Seq<usize>>) -> Seq<usize>
    decreases stages.len(),
{
    if stages.len() == 0 {
        Seq::empty()
    } else {
        flat(stages.drop_last()) + stages.last()
    }
}

/// The kinds of the systems at these places.
pub open spec fn kinds_at(kinds: Seq<Kind>, places: Seq<usize>) -> Seq<Kind> {
    Seq::new(places.len(), |p: int| kinds[places[p] as int])
}

/// A plan of stages over registered systems, ready to run.
pub struct Dispatcher {
    systems: Vec<AnySystem>,
    names: Vec<String>,
    stages: Vec<Vec<usize>>,
}

impl Dispatcher {
    /// The kinds of the systems, in the order of registration.
    pub closed spec fn kinds(&self) -> Seq<Kind> {
        Seq::new(self.systems.len() as nat, |i: int| self.systems[i].kind())
    }

    /// The names of the systems, in the order of registration.
    pub closed spec fn names(&self) -> Seq<Seq<char>> {
        Seq::new(self.names.len() as nat, |i: int| self.names[i]@)
    }

    /// The stages, each with the places of its systems in the registration.
    pub closed spec fn stages(&self) -> Seq<Seq<usize>> {
        Seq::new(self.stages.len() as nat, |s: int| self.stages[s]@)
    }

    /// The plan is consistent: it names registered systems that can run.
    pub closed spec fn wf(&self) -> bool {
        &&& self.names.len() == self.systems.len()
        &&& forall|i: int| 0 <= i < self.systems.len() ==> (#[trigger] self.systems[i]).wf()
        &&& forall|s: int, j: int|
            0 <= s < self.stages.len() && 0 <= j < self.stages[s].len() ==> (#[trigger] self.stages[s][j])
                < self.systems.len()
    }

    /// The kinds of the systems in the order in which a tick runs them:
    /// stage by stage, and within a stage in the order of registration.
    pub open spec fn order(&self) -> Seq<Kind> {
        kinds_at(self.kinds(), flat(self.stages()))
    }

    /// The number of stages.
    pub fn stage_count(&self) -> (n: usize)
        ensures
            n == self.stages().len(),
    {
        self.stages.len()
    }

    /// The names of the systems of stage `s`, in the order of registration.
    pub fn stage_names(&self, s: usize) -> (r: Vec<String>)
        requires
            self.wf(),
            s < self.stages().len(),
        ensures
            r.len() == self.stages()[s as int].len(),
            forall|j: int| 0 <= j < r.len() ==> (#[trigger] r[j])@ == self.names()[self.stages()[s as int][j] as int],
    {
        let mut out: Vec<String> = Vec::new();
        let mut j: usize = 0;
        while j < self.stages[s].len()
            invariant
                j <= self.stages[s as int].len(),
                self.wf(),
                s < self.stages.len(),
                out.len() == j,
                forall|u: int| 0 <= u < j ==> (#[trigger] out[u])@ == self.names[self.stages[s as int][u] as int]@,
            decreases self.stages[s as int].len() - j,
        {
            let at: usize = self.stages[s][j];
            assert(self.stages[s as int][j as int] < self.systems.len());
            out.push(self.names[at].clone());
            j += 1;
        }
        out
    }

    /// Runs the systems of stage `s`, one after another in the order of
    /// registration. Systems of one stage do not conflict, so the order
    /// within a stage does not change what each of them reads.
    pub fn dispatch_stage(&mut self, s: usize, world: &mut World)
        requires
            old(self).wf(),
            old(world).wf(),
            s < old(self).stages().len(),
        ensures
            final(self).wf(),
            final(self).kinds() == old(self).kinds(),
            final(self).names() == old(self).names(),
            final(self).stages() == old(self).stages(),
            final(world).wf(),
            chain(kinds_at(old(self).kinds(), old(self).stages()[s as int]), old(world)@, final(world)@),
    {
        let ghost kinds = self.kinds();
        let ghost plan = self.stages();
        let ghost mut done: Seq<usize> = Seq::empty();
        let mut j: usize = 0;
        assert(kinds_at(kinds, done) =~= Seq::<Kind>::empty());
        while j < self.stages[s].len()
            invariant
                s < self.stages.len(),
                j <= self.stages[s as int].len(),
                self.wf(),
                world.wf(),
                self.kinds() == kinds,
                self.stages() == plan,
                self.names() == old(self).names(),
                done == plan[s as int].take(j as int),
                chain(kinds_at(kinds, done), old(world)@, world@),
            decreases self.stages[s as int].len() - j,
        {
            let at: usize = self.stages[s][j];
            assert(self.stages[s as int][j as int] < self.systems.len());
            let ghost mid = world@;
            let ghost systems_before = self.systems@;
            self.systems[at].run(world);
            proof {
                assert(kinds[at as int] == systems_before[at as int].kind());
                lemma_chain_extend(kinds_at(kinds, done), kinds[at as int], old(world)@, mid, world@);
                let longer = done.push(at);
                assert(kinds_at(kinds, longer) =~= kinds_at(kinds, done).push(kinds[at as int]));
                assert(longer =~= plan[s as int].take(j + 1));
                done = longer;
                assert(self.kinds() =~= kinds);
                assert(self.stages() =~= plan);
            }
            j += 1;
        }
        proof {
            assert(plan[s as int].take(j as int) =~= plan[s as int]);
        }
    }

    /// One pass of the plan over the world: the stages in order.
    pub fn dispatch(&mut self, world: &mut World)
        requires
            old(self).wf(),
            old(world).wf(),
        ensures
            final(self).wf(),
            final(self).kinds() == old(self).kinds(),
            final(self).names() == old(self).names(),
            final(self).stages() == old(self).stages(),
            final(world).wf(),
            chain(old(self).order(), old(world)@, final(world)@),
    {
        let ghost kinds = self.kinds();
        let ghost plan = self.stages();
        let mut s: usize = 0;
        assert(kinds_at(kinds, flat(plan.take(0))) =~= Seq::<Kind>::empty());
        while s < self.stages.len()
            invariant
                s <= self.stages.len(),
                self.stages.len() == plan.len(),
                self.wf(),
                world.wf(),
                self.kinds() == kinds,
                self.stages() == plan,
                self.names() == old(self).names(),
                chain(kinds_at(kinds, flat(plan.take(s as int))), old(world)@, world@),
            decreases self.stages.len() - s,
        {
            let ghost mid = world@;
            self.dispatch_stage(s, world);
            proof {
                assert(plan.take(s + 1).drop_last() =~= plan.take(s as int));
                assert(plan.take(s + 1).last() == plan[s as int]);
                assert(kinds_at(kinds, flat(plan.take(s + 1))) =~= kinds_at(kinds, flat(plan.take(s as int)))
                    + kinds_at(kinds, plan[s as int]));
                lemma_chain_join(
                    kinds_at(kinds, flat(plan.take(s as int))),
                    kinds_at(kinds, plan[s as int]),
                    old(world)@,
                    mid,
                    world@,
                );
            }
            s += 1;
        }
        proof {
            assert(plan.take(s as int) =~= plan);
        }
    }
}

} // verus!
