use tick_engine::{Collider, Entities, Entity, Pos, Pt, Storage, Transform, World, WorldError};

fn circle() -> Option<Collider> {
    Some(Collider::Circle { radius: 10 })
}

#[test]
fn entities_are_numbered_from_zero() {
    let mut ent = Entities::new();
    assert_eq!(ent.slots(), 0);
    let a = ent.create().unwrap();
    let b = ent.create().unwrap();
    assert_eq!((a.id(), a.gen()), (0, 0));
    assert_eq!((b.id(), b.gen()), (1, 0));
    assert_eq!(ent.slots(), 2);
    assert!(ent.is_alive(a) && ent.is_alive(b));
    assert!(ent.live_at(1) && !ent.live_at(2));
    assert_eq!(ent.entity_at(1), Some(b));
    assert_eq!(ent.entity_at(2), None);
    assert!(!ent.is_alive(Entity { index: 0, generation: 1 }));
    assert!(!ent.is_alive(Entity { index: 2, generation: 0 }));
}

#[test]
fn deletion_waits_for_the_commit() {
    let mut ent = Entities::new();
    let a = ent.create().unwrap();
    let b = ent.create().unwrap();
    let c = ent.create().unwrap();
    assert!(ent.delete(b));
    assert!(ent.delete(b));
    assert!(ent.is_alive(b));
    assert!(!ent.delete(Entity { index: 1, generation: 5 }));
    assert!(!ent.delete(Entity { index: 9, generation: 0 }));
    assert_eq!(ent.commit(), vec![1]);
    assert!(ent.is_alive(a) && !ent.is_alive(b) && ent.is_alive(c));
    assert!(!ent.delete(b));
    assert_eq!(ent.commit(), Vec::<u32>::new());
}

#[test]
fn slots_are_used_again_last_freed_first() {
    let mut ent = Entities::new();
    let made: Vec<Entity> = (0..4).map(|_| ent.create().unwrap()).collect();
    assert!(ent.delete(made[2]));
    assert!(ent.delete(made[0]));
    assert_eq!(ent.commit(), vec![2, 0]);
    let again = ent.create().unwrap();
    assert_eq!(again, Entity { index: 0, generation: 1 });
    assert!(!ent.is_alive(made[0]));
    let and_again = ent.create().unwrap();
    assert_eq!(and_again, Entity { index: 2, generation: 1 });
    let fresh = ent.create().unwrap();
    assert_eq!(fresh, Entity { index: 4, generation: 0 });
    assert_eq!(ent.slots(), 5);
}

#[test]
fn storage_holds_one_value_for_a_slot() {
    let mut s: Storage<Pos> = Storage::new();
    assert_eq!(s.get(0), None);
    assert!(!s.contains(3));
    s.insert(3, Pos::new(Pt::new(1, 2)));
    assert_eq!(s.get(3), Some(Pos(Pt::new(1, 2))));
    assert_eq!(s.get(2), None);
    assert_eq!(s.get(4), None);
    assert!(s.contains(3));
    assert!(s.span() >= 4);
    s.insert(3, Pos::new(Pt::new(5, 6)));
    assert_eq!(s.get(3), Some(Pos(Pt::new(5, 6))));
    s.remove(3);
    assert_eq!(s.get(3), None);
    s.remove(100);
    assert_eq!(s.get(100), None);
}

#[test]
fn world_attaches_the_components() {
    let mut w = World::new();
    let a = w.create_entity(Pos::new(Pt::new(3, 4)), circle()).unwrap();
    let b = w.create_entity(Pos::new(Pt::new(-3, -4)), None).unwrap();
    assert_eq!(a, Entity { index: 0, generation: 0 });
    assert_eq!(b, Entity { index: 1, generation: 0 });
    assert!(w.is_alive(a));
    assert_eq!(w.position(a), Some(Pos(Pt::new(3, 4))));
    assert_eq!(w.displacement(a), Some(Transform(Pt::new(0, 0))));
    assert_eq!(w.position(b), Some(Pos(Pt::new(-3, -4))));
    assert_eq!(w.position(Entity { index: 0, generation: 1 }), None);
    assert_eq!(w.displacement(Entity { index: 5, generation: 0 }), None);
    assert_eq!(w.positions(), vec![(a, Pos(Pt::new(3, 4))), (b, Pos(Pt::new(-3, -4)))]);
}

#[test]
fn rectangles_are_turned_away() {
    let mut w = World::new();
    let r = w.create_entity(Pos::new(Pt::new(0, 0)), Some(Collider::Rectangle { w: 4, h: 2 }));
    assert_eq!(r, Err(WorldError::UnsupportedCollider));
    assert_eq!(w.positions(), vec![]);
    let a = w.create_entity(Pos::new(Pt::new(0, 0)), circle()).unwrap();
    assert_eq!(a.id(), 0);
}

#[test]
fn commit_drops_the_components_of_the_deleted() {
    let mut w = World::new();
    let a = w.create_entity(Pos::new(Pt::new(1, 1)), circle()).unwrap();
    let b = w.create_entity(Pos::new(Pt::new(2, 2)), circle()).unwrap();
    let c = w.create_entity(Pos::new(Pt::new(3, 3)), circle()).unwrap();
    assert!(w.delete_entity(b));
    assert_eq!(w.positions().len(), 3);
    assert_eq!(w.position(b), Some(Pos(Pt::new(2, 2))));
    w.maintain();
    assert!(!w.is_alive(b));
    assert_eq!(w.position(b), None);
    assert_eq!(w.positions(), vec![(a, Pos(Pt::new(1, 1))), (c, Pos(Pt::new(3, 3)))]);
    assert!(!w.delete_entity(b));
    // the slot comes back with a new generation and none of the old data
    let d = w.create_entity(Pos::new(Pt::new(9, 9)), None).unwrap();
    assert_eq!(d, Entity { index: 1, generation: 1 });
    assert_eq!(w.position(d), Some(Pos(Pt::new(9, 9))));
    assert_eq!(w.position(b), None);
    assert_eq!(w.positions(), vec![(a, Pos(Pt::new(1, 1))), (d, Pos(Pt::new(9, 9))), (c, Pos(Pt::new(3, 3)))]);
}

#[test]
fn full_registry_makes_no_entity() {
    let mut ent = Entities::with_limit(0);
    assert_eq!(ent.create(), None);
    let mut ent = Entities::with_limit(2);
    let a = ent.create().unwrap();
    assert!(ent.create().is_some());
    assert_eq!(ent.create(), None);
    assert_eq!(ent.slots(), 2);
    assert!(ent.delete(a));
    // the slot is vacant only after the commit
    assert_eq!(ent.create(), None);
    ent.commit();
    assert_eq!(ent.create(), Some(Entity { index: 0, generation: 1 }));
    assert_eq!(ent.create(), None);
}

#[test]
fn full_world_turns_entities_away() {
    let mut w = World::with_limit(1);
    let a = w.create_entity(Pos::new(Pt::new(1, 1)), circle()).unwrap();
    assert_eq!(w.create_entity(Pos::new(Pt::new(2, 2)), circle()), Err(WorldError::Full));
    assert_eq!(w.create_entity(Pos::new(Pt::new(2, 2)), None), Err(WorldError::Full));
    // a rectangle is turned away as such, full or not
    let r = Some(Collider::Rectangle { w: 1, h: 1 });
    assert_eq!(w.create_entity(Pos::new(Pt::new(2, 2)), r), Err(WorldError::UnsupportedCollider));
    assert_eq!(w.positions(), vec![(a, Pos(Pt::new(1, 1)))]);
    assert!(w.delete_entity(a));
    w.maintain();
    let b = w.create_entity(Pos::new(Pt::new(3, 3)), None).unwrap();
    assert_eq!(b, Entity { index: 0, generation: 1 });
    assert_eq!(w.positions(), vec![(b, Pos(Pt::new(3, 3)))]);
}
