use tick_engine::{
    Access, AiSystem, AnySystem, BumpSystem, CollisionSystem, Dispatcher, GridCollisionSystem, Mode,
    PhysicsSystem, ScheduleError, Scheduler,
};

fn layout(plan: &Dispatcher) -> Vec<Vec<String>> {
    (0..plan.stage_count()).map(|s| plan.stage_names(s)).collect()
}

fn names(stages: &[&[&str]]) -> Vec<Vec<String>> {
    stages.iter().map(|s| s.iter().map(|n| n.to_string()).collect()).collect()
}

fn ai() -> AnySystem {
    AnySystem::Ai(AiSystem)
}

fn bump() -> AnySystem {
    AnySystem::Bump(BumpSystem::new())
}

fn sweep() -> AnySystem {
    AnySystem::Collision(CollisionSystem::new())
}

fn physics() -> AnySystem {
    AnySystem::Physics(PhysicsSystem)
}

#[test]
fn stock_plan_has_three_stages() {
    let mut s = Scheduler::new();
    assert_eq!(s.register(bump(), "BumpSystem", &[]), Ok(()));
    assert_eq!(s.register(sweep(), "CollisionSystem", &[]), Ok(()));
    assert_eq!(s.register(ai(), "Ai", &[]), Ok(()));
    s.barrier();
    assert_eq!(s.register(physics(), "PhysicsSystem", &[]), Ok(()));
    let plan = s.build();
    assert_eq!(layout(&plan), names(&[&["BumpSystem", "Ai"], &["CollisionSystem"], &["PhysicsSystem"]]));
}

#[test]
fn empty_plan_has_no_stage() {
    let plan = Scheduler::new().build();
    assert_eq!(plan.stage_count(), 0);
}

#[test]
fn duplicate_name_is_refused() {
    let mut s = Scheduler::new();
    assert_eq!(s.register(ai(), "a", &[]), Ok(()));
    assert_eq!(s.register(bump(), "a", &[]), Err(ScheduleError::DuplicateNameError));
    // a taken name is reported before anything else
    assert_eq!(s.register(bump(), "a", &["a", "nobody"]), Err(ScheduleError::DuplicateNameError));
    // the refused system is not in the plan
    assert_eq!(layout(&s.build()), names(&[&["a"]]));
}

#[test]
fn naming_itself_as_predecessor_is_a_cycle() {
    let mut s = Scheduler::new();
    assert_eq!(s.register(ai(), "a", &["a"]), Err(ScheduleError::CyclicDependencyError));
    assert_eq!(s.register(ai(), "a", &[]), Ok(()));
    assert_eq!(s.register(ai(), "b", &["a", "b"]), Err(ScheduleError::CyclicDependencyError));
    assert_eq!(s.register(ai(), "b", &["nobody", "b"]), Err(ScheduleError::CyclicDependencyError));
    assert_eq!(layout(&s.build()), names(&[&["a"]]));
}

#[test]
fn unknown_predecessor_is_refused() {
    let mut s = Scheduler::new();
    assert_eq!(s.register(ai(), "a", &["later"]), Err(ScheduleError::UnknownPredecessorError));
    assert_eq!(s.register(ai(), "a", &[]), Ok(()));
    assert_eq!(s.register(ai(), "b", &["a", "later"]), Err(ScheduleError::UnknownPredecessorError));
    assert_eq!(s.register(ai(), "later", &[]), Ok(()));
    assert_eq!(s.register(ai(), "b", &["a", "later"]), Ok(()));
    assert_eq!(layout(&s.build()), names(&[&["a", "later"], &["b"]]));
}

#[test]
fn systems_without_conflict_share_a_stage() {
    let mut s = Scheduler::new();
    for name in ["one", "two", "three"] {
        assert_eq!(s.register(ai(), name, &[]), Ok(()));
    }
    assert_eq!(s.register(bump(), "bump", &[]), Ok(()));
    assert_eq!(layout(&s.build()), names(&[&["one", "two", "three", "bump"]]));
}

#[test]
fn conflicting_systems_run_in_the_order_of_registration() {
    let mut s = Scheduler::new();
    assert_eq!(s.register(physics(), "move", &[]), Ok(()));
    assert_eq!(s.register(ai(), "think", &[]), Ok(()));
    assert_eq!(s.register(bump(), "shake", &[]), Ok(()));
    assert_eq!(s.register(sweep(), "part", &[]), Ok(()));
    assert_eq!(s.register(AnySystem::Grid(GridCollisionSystem::new(20, 20).unwrap()), "grid", &[]), Ok(()));
    assert_eq!(s.register(ai(), "watch", &[]), Ok(()));
    // think reads what move writes; shake writes what move writes; part and
    // grid both write what shake writes; watch only waits for move
    assert_eq!(layout(&s.build()), names(&[&["move"], &["think", "shake", "watch"], &["part"], &["grid"]]));
}

#[test]
fn explicit_predecessors_are_honoured() {
    let mut s = Scheduler::new();
    assert_eq!(s.register(ai(), "a", &[]), Ok(()));
    assert_eq!(s.register(ai(), "b", &["a"]), Ok(()));
    assert_eq!(s.register(ai(), "c", &["b"]), Ok(()));
    assert_eq!(s.register(ai(), "d", &["a"]), Ok(()));
    assert_eq!(s.register(ai(), "e", &[]), Ok(()));
    assert_eq!(layout(&s.build()), names(&[&["a", "e"], &["b", "d"], &["c"]]));
}

#[test]
fn barrier_parts_the_stages() {
    let mut s = Scheduler::new();
    assert_eq!(s.register(ai(), "a", &[]), Ok(()));
    assert_eq!(s.register(ai(), "b", &["a"]), Ok(()));
    s.barrier();
    s.barrier();
    assert_eq!(s.register(ai(), "c", &[]), Ok(()));
    assert_eq!(s.register(ai(), "d", &[]), Ok(()));
    s.barrier();
    assert_eq!(s.register(ai(), "e", &["a"]), Ok(()));
    assert_eq!(layout(&s.build()), names(&[&["a"], &["b"], &["c", "d"], &["e"]]));
}

#[test]
fn barrier_before_the_first_system_changes_nothing() {
    let mut s = Scheduler::new();
    s.barrier();
    assert_eq!(s.register(ai(), "a", &[]), Ok(()));
    assert_eq!(layout(&s.build()), names(&[&["a"]]));
}

#[test]
fn declared_access() {
    let idle = Mode::Idle;
    assert_eq!(bump().access(), Access { entities: idle, position: idle, displacement: Mode::Write, collider: idle });
    assert_eq!(
        sweep().access(),
        Access { entities: Mode::Read, position: Mode::Read, displacement: Mode::Write, collider: Mode::Read }
    );
    assert_eq!(
        physics().access(),
        Access { entities: idle, position: Mode::Write, displacement: Mode::Write, collider: idle }
    );
    assert_eq!(ai().access(), Access { entities: idle, position: Mode::Read, displacement: idle, collider: idle });
    assert!(bump().access().conflicts_with(&sweep().access()));
    assert!(sweep().access().conflicts_with(&bump().access()));
    assert!(!ai().access().conflicts_with(&sweep().access()));
    assert!(ai().access().conflicts_with(&physics().access()));
    assert!(!ai().access().conflicts_with(&ai().access()));
    assert!(Mode::Write.clashes(Mode::Write));
    assert!(Mode::Write.clashes(Mode::Read));
    assert!(Mode::Read.clashes(Mode::Write));
    assert!(!Mode::Read.clashes(Mode::Read));
    assert!(!Mode::Write.clashes(Mode::Idle));
    assert!(!Mode::Idle.clashes(Mode::Write));
}
