use tick_engine::game::{CIRCLE_COUNT, CIRCLE_RADIUS, FIELD_HIGH, FIELD_LOW};
use tick_engine::{
    AiSystem, AnySystem, BumpSystem, Collider, CollisionSystem, Entity, GameState, GridCollisionSystem,
    PhysicsSystem, Pos, Pt, Scheduler, Storage, Transform, World, UNIT,
};

fn units(v: i32) -> f64 {
    v as f64 / UNIT as f64
}

fn plan(seed: [u8; 32], amplitude: u32, collision: AnySystem) -> tick_engine::Dispatcher {
    let mut s = Scheduler::new();
    s.register(AnySystem::Bump(BumpSystem::with(seed, amplitude)), "BumpSystem", &[]).unwrap();
    s.register(collision, "CollisionSystem", &[]).unwrap();
    s.register(AnySystem::Ai(AiSystem), "Ai", &[]).unwrap();
    s.barrier();
    s.register(AnySystem::Physics(PhysicsSystem), "PhysicsSystem", &[]).unwrap();
    s.build()
}

fn sweep() -> AnySystem {
    AnySystem::Collision(CollisionSystem::new())
}

fn grid() -> AnySystem {
    AnySystem::Grid(GridCollisionSystem::new(20 * UNIT as u32, 20 * UNIT as u32).unwrap())
}

fn pair_world() -> (World, Entity, Entity) {
    let mut w = World::new();
    let c = Some(Collider::Circle { radius: 10 * UNIT as u32 });
    let a = w.create_entity(Pos::new(Pt::new(0, 0)), c).unwrap();
    let b = w.create_entity(Pos::new(Pt::new(15 * UNIT, 0)), c).unwrap();
    (w, a, b)
}

fn crowd(count: usize) -> World {
    let mut w = World::new();
    let mut state: u64 = 88172645463325252;
    for _ in 0..count {
        state ^= state << 13;
        state ^= state >> 7;
        state ^= state << 17;
        let x = (state % (100 * UNIT as u64)) as i32;
        state ^= state << 13;
        state ^= state >> 7;
        state ^= state << 17;
        let y = (state % (100 * UNIT as u64)) as i32;
        w.create_entity(Pos::new(Pt::new(x, y)), Some(Collider::Circle { radius: 10 * UNIT as u32 })).unwrap();
    }
    w
}

#[test]
fn overlapping_pair_is_separated_to_the_sum_of_radii() {
    let (w, a, b) = pair_world();
    let mut game = GameState::assemble(w, plan([0u8; 32], 0, sweep()));
    game.update_tick();
    let pa = game.world().position(a).unwrap().0;
    let pb = game.world().position(b).unwrap().0;
    assert_eq!((pa.x, pa.y), (-2560, 0));
    assert_eq!((pb.x, pb.y), (17920, 0));
    assert!((units(pa.x) - -2.5).abs() < 1e-9 && (units(pb.x) - 17.5).abs() < 1e-9);
    assert!((units(pb.x - pa.x) - 20.0).abs() < 1e-9);
    // once they touch, nothing moves any more
    game.update_tick();
    assert_eq!(game.world().position(a), Some(Pos(Pt::new(-2560, 0))));
    assert_eq!(game.world().position(b), Some(Pos(Pt::new(17920, 0))));
}

#[test]
fn separation_is_within_a_few_steps_of_the_sum_of_radii() {
    let c = |r: u32| Some(Collider::Circle { radius: r });
    for (bx, by, ra, rb) in [(7000, 3000, 6000u32, 5000u32), (-123, 4567, 3000, 2999), (1, 1, 8000, 8000), (-9000, -9000, 10240, 10240)] {
        let mut w = World::new();
        let a = w.create_entity(Pos::new(Pt::new(0, 0)), c(ra)).unwrap();
        let b = w.create_entity(Pos::new(Pt::new(bx, by)), c(rb)).unwrap();
        let before = ((bx as f64).powi(2) + (by as f64).powi(2)).sqrt();
        let mut game = GameState::assemble(w, plan([0u8; 32], 0, sweep()));
        game.update_tick();
        let pa = game.world().position(a).unwrap().0;
        let pb = game.world().position(b).unwrap().0;
        let after = (((pb.x - pa.x) as f64).powi(2) + ((pb.y - pa.y) as f64).powi(2)).sqrt();
        let reach = (ra + rb) as f64;
        assert!(before < reach);
        assert!(after > reach - 3.0, "{} {}", after, reach);
        assert!(after <= reach * before / before.floor() + 1e-6, "{} {}", after, reach);
        // the two corrections are opposite
        assert_eq!((pa.x, pa.y), (-(pb.x - bx), -(pb.y - by)));
    }
}

#[test]
fn pair_that_is_apart_is_not_moved() {
    let mut w = World::new();
    let c = Some(Collider::Circle { radius: 10 * UNIT as u32 });
    let a = w.create_entity(Pos::new(Pt::new(0, 0)), c).unwrap();
    let b = w.create_entity(Pos::new(Pt::new(20 * UNIT, 0)), c).unwrap();
    let far = w.create_entity(Pos::new(Pt::new(0, 300 * UNIT)), c).unwrap();
    let mut game = GameState::assemble(w, plan([0u8; 32], 0, sweep()));
    for _ in 0..5 {
        game.update_tick();
    }
    assert_eq!(game.world().position(a), Some(Pos(Pt::new(0, 0))));
    assert_eq!(game.world().position(b), Some(Pos(Pt::new(20 * UNIT, 0))));
    assert_eq!(game.world().position(far), Some(Pos(Pt::new(0, 300 * UNIT))));
}

#[test]
fn grid_moves_a_near_pair_by_half_its_offset() {
    let (w, a, b) = pair_world();
    let mut game = GameState::assemble(w, plan([0u8; 32], 0, grid()));
    game.update_tick();
    assert_eq!(game.world().position(a), Some(Pos(Pt::new(-7680, 0))));
    assert_eq!(game.world().position(b), Some(Pos(Pt::new(15360 + 7680, 0))));
}

#[test]
fn nothing_is_pending_after_a_tick() {
    let mut game = GameState::assemble(crowd(20), plan([3u8; 32], 2 * UNIT as u32, sweep()));
    for _ in 0..10 {
        game.update_tick();
        for (e, _) in game.positions() {
            assert_eq!(game.world().displacement(e), Some(Transform(Pt::new(0, 0))));
        }
    }
}

#[test]
fn integration_moves_and_clears() {
    let mut pos: Storage<Pos> = Storage::new();
    let mut tra: Storage<Transform> = Storage::new();
    pos.insert(0, Pos::new(Pt::new(10, 20)));
    tra.insert(0, Transform(Pt::new(-3, 4)));
    pos.insert(1, Pos::new(Pt::new(i32::MAX - 1, i32::MIN + 1)));
    tra.insert(1, Transform(Pt::new(5, -5)));
    pos.insert(2, Pos::new(Pt::new(7, 7)));
    tra.insert(4, Transform(Pt::new(1, 1)));
    pos.insert(6, Pos::new(Pt::new(-1, -1)));
    tra.insert(6, Transform(Pt::new(i32::MIN, i32::MAX)));
    PhysicsSystem.run(&mut pos, &mut tra);
    assert_eq!(pos.get(0), Some(Pos(Pt::new(7, 24))));
    assert_eq!(tra.get(0), Some(Transform(Pt::new(0, 0))));
    assert_eq!(pos.get(1), Some(Pos(Pt::new(i32::MAX, i32::MIN))));
    assert_eq!(tra.get(1), Some(Transform(Pt::new(0, 0))));
    // a position without anything pending stays; a displacement without a position stays
    assert_eq!(pos.get(2), Some(Pos(Pt::new(7, 7))));
    assert_eq!(tra.get(2), None);
    assert_eq!(pos.get(4), None);
    assert_eq!(tra.get(4), Some(Transform(Pt::new(1, 1))));
    assert_eq!(pos.get(6), Some(Pos(Pt::new(i32::MIN, i32::MAX - 1))));
    assert_eq!(tra.get(6), Some(Transform(Pt::new(0, 0))));
    assert_eq!(pos.get(3), None);
    assert_eq!(pos.get(5), None);
}

#[test]
fn perturbation_replaces_what_was_pending() {
    let mut tra: Storage<Transform> = Storage::new();
    for k in 0..200 {
        if k % 3 != 1 {
            tra.insert(k, Transform(Pt::new(1_000_000, -1_000_000)));
        }
    }
    let mut bump = BumpSystem::with([9u8; 32], 50);
    bump.run(&mut tra);
    let mut seen = std::collections::BTreeSet::new();
    for k in 0..200 {
        match tra.get(k) {
            Some(t) => {
                assert!(k % 3 != 1);
                assert!(-50 <= t.0.x && t.0.x <= 50 && -50 <= t.0.y && t.0.y <= 50);
                seen.insert(t.0.x);
                seen.insert(t.0.y);
            }
            None => assert!(k % 3 == 1),
        }
    }
    // the draws spread over the range: they are not all one value
    assert!(seen.len() > 50);
    assert!(seen.iter().any(|v| *v < -25) && seen.iter().any(|v| *v > 25));
}

#[test]
fn perturbation_of_zero_amplitude_is_zero() {
    let mut tra: Storage<Transform> = Storage::new();
    tra.insert(0, Transform(Pt::new(5, 5)));
    tra.insert(1, Transform(Pt::new(-5, -5)));
    let mut bump = BumpSystem::with([1u8; 32], 0);
    bump.run(&mut tra);
    assert_eq!(tra.get(0), Some(Transform(Pt::new(0, 0))));
    assert_eq!(tra.get(1), Some(Transform(Pt::new(0, 0))));
}

#[test]
fn perturbation_with_the_widest_amplitude_stays_in_range() {
    let mut tra: Storage<Transform> = Storage::new();
    for k in 0..50 {
        tra.insert(k, Transform(Pt::new(0, 0)));
    }
    let mut bump = BumpSystem::with([4u8; 32], u32::MAX);
    bump.run(&mut tra);
    let clamped = (0..50).filter(|k| {
        let t = tra.get(*k).unwrap();
        t.0.x == i32::MAX || t.0.x == i32::MIN
    });
    assert!(clamped.count() > 5);
}

#[test]
fn draws_are_written_as_they_come() {
    let mut tra: Storage<Transform> = Storage::new();
    BumpSystem::displace(&mut tra, 2, -7, 9);
    assert_eq!(tra.get(2), Some(Transform(Pt::new(-7, 9))));
    BumpSystem::displace(&mut tra, 2, i64::MAX, i64::MIN);
    assert_eq!(tra.get(2), Some(Transform(Pt::new(i32::MAX, i32::MIN))));
}

#[test]
fn same_seed_same_displacements() {
    let run = |seed: [u8; 32]| {
        let mut tra: Storage<Transform> = Storage::new();
        for k in 0..40 {
            tra.insert(k, Transform(Pt::new(0, 0)));
        }
        let mut bump = BumpSystem::with(seed, 3 * UNIT as u32);
        let mut all = Vec::new();
        for _ in 0..25 {
            bump.run(&mut tra);
            for k in 0..40 {
                all.push(tra.get(k).unwrap());
            }
        }
        all
    };
    let first = run([7u8; 32]);
    assert_eq!(first, run([7u8; 32]));
    assert_ne!(first, run([8u8; 32]));
    assert_ne!(first[0..40], first[40..80]);
}

#[test]
fn same_seed_same_positions_after_a_hundred_ticks() {
    for collision in [0, 1] {
        let run = |seed: [u8; 32]| {
            let system = if collision == 0 { sweep() } else { grid() };
            let mut game = GameState::assemble(crowd(50), plan(seed, 3 * UNIT as u32, system));
            for _ in 0..100 {
                game.update_tick();
            }
            game.positions()
        };
        let first = run([42u8; 32]);
        assert_eq!(first.len(), 50);
        assert_eq!(first, run([42u8; 32]));
        assert_ne!(first, run([43u8; 32]));
    }
}

#[test]
fn entity_deleted_during_a_tick_is_there_until_the_commit() {
    let (mut w, a, b) = pair_world();
    let mut dispatcher = plan([0u8; 32], 0, sweep());
    assert_eq!(dispatcher.stage_count(), 3);
    dispatcher.dispatch_stage(0, &mut w);
    assert!(w.delete_entity(b));
    dispatcher.dispatch_stage(1, &mut w);
    // the collision pass still counted the doomed circle
    assert_eq!(w.displacement(a), Some(Transform(Pt::new(-2560, 0))));
    assert_eq!(w.displacement(b), Some(Transform(Pt::new(2560, 0))));
    dispatcher.dispatch_stage(2, &mut w);
    assert!(w.is_alive(b));
    assert_eq!(w.position(a), Some(Pos(Pt::new(-2560, 0))));
    assert_eq!(w.position(b), Some(Pos(Pt::new(17920, 0))));
    w.maintain();
    assert!(!w.is_alive(b));
    assert_eq!(w.position(b), None);
    assert_eq!(w.positions(), vec![(a, Pos(Pt::new(-2560, 0)))]);
}

#[test]
fn deletion_asked_before_a_tick_is_made_at_its_end() {
    let (w, a, b) = pair_world();
    let mut game = GameState::assemble(w, plan([0u8; 32], 0, sweep()));
    assert!(game.delete_entity(b));
    assert!(game.world().is_alive(b));
    game.update_tick();
    assert!(!game.world().is_alive(b));
    assert_eq!(game.positions(), vec![(a, Pos(Pt::new(-2560, 0)))]);
}

#[test]
fn dispatch_runs_all_stages_in_order() {
    let (mut w, a, b) = pair_world();
    let mut dispatcher = plan([0u8; 32], 0, sweep());
    dispatcher.dispatch(&mut w);
    assert_eq!(w.position(a), Some(Pos(Pt::new(-2560, 0))));
    assert_eq!(w.position(b), Some(Pos(Pt::new(17920, 0))));
    assert_eq!(w.displacement(a), Some(Transform(Pt::new(0, 0))));
}

#[test]
fn stock_scene() {
    let game = GameState::new();
    let shots = game.positions();
    assert_eq!(shots.len(), CIRCLE_COUNT);
    assert_eq!(CIRCLE_RADIUS, 10 * UNIT as u32);
    assert_eq!((FIELD_LOW, FIELD_HIGH), (50 * UNIT, 200 * UNIT));
    for (k, (e, p)) in shots.iter().enumerate() {
        assert_eq!(*e, Entity { index: k as u32, generation: 0 });
        assert!(FIELD_LOW <= p.0.x && p.0.x < FIELD_HIGH);
        assert!(FIELD_LOW <= p.0.y && p.0.y < FIELD_HIGH);
        assert_eq!(game.world().displacement(*e), Some(Transform(Pt::new(0, 0))));
    }
    // the layout is spread over the field, and is the same every time
    let xs: std::collections::BTreeSet<i32> = shots.iter().map(|s| s.1 .0.x).collect();
    assert!(xs.len() > 20);
    assert_eq!(shots, GameState::new().positions());
}

#[test]
fn stock_simulation_runs() {
    let mut game = GameState::new();
    let before = game.positions();
    for _ in 0..30 {
        game.update_tick();
    }
    let after = game.positions();
    assert_eq!(after.len(), CIRCLE_COUNT);
    assert_ne!(before, after);
    let mut again = GameState::new();
    for _ in 0..30 {
        again.update_tick();
    }
    assert_eq!(after, again.positions());
}
