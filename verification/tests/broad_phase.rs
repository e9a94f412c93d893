use tick_engine::contact::{apply, gather, settle};
use tick_engine::tally::{confirm, resolve};
use tick_engine::{
    Body, Collider, CollisionSystem, Entities, GridCollisionSystem, Pos, Pt, Rule, Storage, Transform, Axis,
};

fn body(x: i32, y: i32, radius: u32) -> Option<Body> {
    Some(Body { center: Pt::new(x, y), radius })
}

fn as_set(pairs: &Vec<(usize, usize)>) -> Vec<(usize, usize)> {
    let mut out: Vec<(usize, usize)> = pairs.iter().map(|p| if p.0 < p.1 { *p } else { (p.1, p.0) }).collect();
    out.sort();
    out
}

fn cloud(count: usize, span: u64) -> Vec<Option<Body>> {
    let mut state: u64 = 0x2545F4914F6CDD1D;
    let mut out = Vec::new();
    for i in 0..count {
        state = state.wrapping_mul(6364136223846793005).wrapping_add(1442695040888963407);
        let x = ((state >> 33) % span) as i32;
        state = state.wrapping_mul(6364136223846793005).wrapping_add(1442695040888963407);
        let y = ((state >> 33) % span) as i32;
        if i % 7 == 3 {
            out.push(None);
        } else {
            out.push(body(x - (span / 2) as i32, y - (span / 2) as i32, 10));
        }
    }
    out
}

fn overlapping_by_hand(bodies: &Vec<Option<Body>>) -> Vec<(usize, usize)> {
    let mut out = Vec::new();
    for i in 0..bodies.len() {
        for j in (i + 1)..bodies.len() {
            if let (Some(a), Some(b)) = (bodies[i], bodies[j]) {
                let dx = (a.center.x - b.center.x) as i64;
                let dy = (a.center.y - b.center.y) as i64;
                let reach = (a.radius + b.radius) as i64;
                if dx * dx + dy * dy < reach * reach {
                    out.push((i, j));
                }
            }
        }
    }
    out
}

#[test]
fn sweep_finds_the_overlapping_pairs() {
    let bodies = vec![body(0, 0, 10), body(15, 0, 10), body(100, 0, 10), None, body(110, 5, 10)];
    let mut sweep = CollisionSystem::new();
    assert_eq!(sweep.detect(&bodies), vec![(0, 1), (2, 4)]);
    // a second pass starts from a cleared list
    assert_eq!(sweep.detect(&bodies), vec![(0, 1), (2, 4)]);
}

#[test]
fn sweep_reports_pairs_in_the_order_of_the_interval_starts() {
    let bodies = vec![body(30, 0, 10), body(15, 0, 10), body(0, 0, 10)];
    let mut sweep = CollisionSystem::new();
    assert_eq!(sweep.detect(&bodies), vec![(2, 1), (1, 0)]);
}

#[test]
fn sweep_along_the_other_axis() {
    let bodies = vec![body(0, 0, 10), body(0, 15, 10), body(500, 7, 10)];
    let mut sweep = CollisionSystem::along(Axis::Y);
    assert_eq!(sweep.detect(&bodies), vec![(0, 1)]);
}

#[test]
fn intervals_that_meet_without_overlap_of_the_circles() {
    // same column, far apart vertically: candidates of the sweep, no contact
    let bodies = vec![body(0, 0, 10), body(3, 1000, 10)];
    let mut sweep = CollisionSystem::new();
    assert_eq!(sweep.detect(&bodies), Vec::<(usize, usize)>::new());
}

#[test]
fn grid_finds_neighbours_within_the_threshold() {
    let bodies = vec![body(0, 0, 10), body(15, 0, 10), body(100, 0, 10), None, body(110, 5, 10)];
    let mut grid = GridCollisionSystem::new(20, 20).unwrap();
    assert_eq!(as_set(&grid.detect(&bodies)), vec![(0, 1), (2, 4)]);
    assert_eq!(as_set(&grid.detect(&bodies)), vec![(0, 1), (2, 4)]);
}

#[test]
fn grid_pairs_every_two_bodies_of_one_cell() {
    // five bodies in one cell, all within the threshold of each other
    let bodies = vec![body(1, 1, 1), body(2, 2, 1), body(3, 3, 1), body(4, 4, 1), body(5, 5, 1)];
    let mut grid = GridCollisionSystem::new(1000, 100).unwrap();
    let found = as_set(&grid.detect(&bodies));
    assert_eq!(found.len(), 10);
    assert_eq!(found, vec![(0, 1), (0, 2), (0, 3), (0, 4), (1, 2), (1, 3), (1, 4), (2, 3), (2, 4), (3, 4)]);
}

#[test]
fn grid_with_small_cells_misses_what_lies_two_cells_away() {
    let bodies = vec![body(0, 0, 10), body(15, 0, 10)];
    let mut grid = GridCollisionSystem::new(5, 20).unwrap();
    assert_eq!(grid.detect(&bodies), Vec::<(usize, usize)>::new());
}

#[test]
fn grid_at_the_edges_of_the_coordinate_range() {
    let bodies = vec![
        body(i32::MIN, i32::MIN, 10),
        body(i32::MIN + 5, i32::MIN + 5, 10),
        body(i32::MAX, i32::MAX, 10),
        body(i32::MAX - 5, i32::MAX, 10),
    ];
    let mut grid = GridCollisionSystem::new(20, 20).unwrap();
    assert_eq!(as_set(&grid.detect(&bodies)), vec![(0, 1), (2, 3)]);
    let mut sweep = CollisionSystem::new();
    assert_eq!(as_set(&sweep.detect(&bodies)), vec![(0, 1), (2, 3)]);
}

#[test]
fn grid_needs_cells_of_positive_side() {
    assert!(GridCollisionSystem::new(0, 20).is_none());
    assert!(GridCollisionSystem::new(1, 0).is_some());
}

#[test]
fn grid_and_sweep_agree_on_the_overlapping_pairs() {
    for (count, span) in [(40usize, 200u64), (120, 400), (200, 300), (64, 50)] {
        let bodies = cloud(count, span);
        let expected = overlapping_by_hand(&bodies);
        let mut sweep = CollisionSystem::new();
        let mut sweep_y = CollisionSystem::along(Axis::Y);
        let mut grid = GridCollisionSystem::new(20, 20).unwrap();
        let mut coarse = GridCollisionSystem::new(77, 20).unwrap();
        assert!(!expected.is_empty());
        assert_eq!(as_set(&sweep.detect(&bodies)), expected);
        assert_eq!(as_set(&sweep_y.detect(&bodies)), expected);
        assert_eq!(as_set(&grid.detect(&bodies)), expected);
        assert_eq!(as_set(&coarse.detect(&bodies)), expected);
    }
}

#[test]
fn corrections_are_added_up_body_by_body() {
    // a row of three: the middle one is pushed from both sides
    let bodies = vec![body(0, 0, 10), body(15, 0, 10), None, body(30, 0, 10)];
    let pairs = vec![(0usize, 1usize), (1, 3)];
    let acc = resolve(Rule::Separate, &bodies, &pairs);
    assert_eq!(acc, vec![(-2, 0), (0, 0), (0, 0), (2, 0)]);
    let acc = resolve(Rule::Separate, &bodies, &vec![(1usize, 0usize)]);
    assert_eq!(acc, vec![(-2, 0), (2, 0), (0, 0), (0, 0)]);
    let acc = resolve(Rule::Nudge { scale: 100, threshold: 16 }, &bodies, &pairs);
    assert_eq!(acc, vec![(-7, 0), (0, 0), (0, 0), (7, 0)]);
    assert_eq!(resolve(Rule::Separate, &bodies, &vec![]), vec![(0, 0); 4]);
}

fn scene() -> (Entities, Storage<Collider>, Storage<Pos>, Storage<Transform>) {
    let mut ent = Entities::new();
    let mut col = Storage::new();
    let mut pos = Storage::new();
    let mut tra = Storage::new();
    let places = [(0, 0), (15, 0), (500, 500), (505, 500), (15, 12)];
    for (x, y) in places {
        let e = ent.create().unwrap();
        let k = e.id() as usize;
        pos.insert(k, Pos::new(Pt::new(x, y)));
        tra.insert(k, Transform(Pt::new(100, 100)));
        col.insert(k, Collider::Circle { radius: 10 });
    }
    (ent, col, pos, tra)
}

#[test]
fn bodies_are_the_living_circles_with_all_components() {
    let (mut ent, mut col, mut pos, mut tra) = scene();
    col.insert(1, Collider::Rectangle { w: 5, h: 5 });
    pos.remove(2);
    tra.remove(3);
    col.remove(4);
    let bodies = gather(&ent, &col, &pos, &tra);
    assert_eq!(bodies, vec![body(0, 0, 10), None, None, None, None]);
    let (ent2, col2, pos2, tra2) = scene();
    assert_eq!(gather(&ent2, &col2, &pos2, &tra2).iter().filter(|b| b.is_some()).count(), 5);
    // an entity whose deletion is only asked for is still a body
    let doomed = ent.entity_at(0).unwrap();
    assert!(ent.delete(doomed));
    assert_eq!(gather(&ent, &col, &pos, &tra)[0], body(0, 0, 10));
    ent.commit();
    assert_eq!(gather(&ent, &col, &pos, &tra)[0], None);
}

#[test]
fn sweep_pass_adds_the_corrections_to_what_is_pending() {
    let (ent, col, pos, mut tra) = scene();
    let mut sweep = CollisionSystem::new();
    sweep.run(&ent, &col, &pos, &mut tra);
    // 0-1: distance 15, missing 5: 2 each. 1-4: distance 12, missing 8: 4 each, along y.
    // 0-4: distance 19 (19.2), missing 1: (15 * 1 / 38, 12 * 1 / 38) = (0, 0).
    // 2-3: distance 5, missing 15: 7 each (7.5 rounded).
    assert_eq!(tra.get(0), Some(Transform(Pt::new(98, 100))));
    assert_eq!(tra.get(1), Some(Transform(Pt::new(102, 96))));
    assert_eq!(tra.get(2), Some(Transform(Pt::new(93, 100))));
    assert_eq!(tra.get(3), Some(Transform(Pt::new(107, 100))));
    assert_eq!(tra.get(4), Some(Transform(Pt::new(100, 104))));
    assert_eq!(tra.get(5), None);
}

#[test]
fn grid_pass_moves_each_by_half_of_the_offset() {
    let (ent, col, pos, mut tra) = scene();
    let mut grid = GridCollisionSystem::new(20, 20).unwrap();
    grid.run(&ent, &col, &pos, &mut tra);
    // 0-1: offset (15, 0): 7. 1-4: offset (0, 12): 6. 0-4: offset (15, 12), 19.2 < 20: (7, 6).
    // 2-3: offset (5, 0): 2.
    assert_eq!(tra.get(0), Some(Transform(Pt::new(100 - 7 - 7, 100 - 6))));
    assert_eq!(tra.get(1), Some(Transform(Pt::new(100 + 7, 100 - 6))));
    assert_eq!(tra.get(4), Some(Transform(Pt::new(100 + 7, 100 + 6 + 6))));
    assert_eq!(tra.get(2), Some(Transform(Pt::new(98, 100))));
    assert_eq!(tra.get(3), Some(Transform(Pt::new(102, 100))));
}

#[test]
fn circles_that_are_apart_keep_what_is_pending() {
    let mut ent = Entities::new();
    let mut col = Storage::new();
    let mut pos = Storage::new();
    let mut tra = Storage::new();
    for (k, x) in [(0usize, 0), (1, 20), (2, 40)] {
        ent.create().unwrap();
        pos.insert(k, Pos::new(Pt::new(x, 0)));
        tra.insert(k, Transform(Pt::new(3, -4)));
        col.insert(k, Collider::Circle { radius: 10 });
    }
    let mut sweep = CollisionSystem::new();
    sweep.run(&ent, &col, &pos, &mut tra);
    let mut grid = GridCollisionSystem::new(20, 20).unwrap();
    grid.run(&ent, &col, &pos, &mut tra);
    for k in 0..3 {
        assert_eq!(tra.get(k), Some(Transform(Pt::new(3, -4))));
    }
}

#[test]
fn pending_displacements_stop_at_the_edge_of_the_range() {
    let bodies = vec![body(0, 0, 10), body(15, 0, 10)];
    let mut tra = Storage::new();
    tra.insert(0, Transform(Pt::new(i32::MIN + 1, 0)));
    tra.insert(1, Transform(Pt::new(i32::MAX - 1, 0)));
    apply(Rule::Separate, &bodies, &vec![(0, 1)], &mut tra);
    assert_eq!(tra.get(0), Some(Transform(Pt::new(i32::MIN, 0))));
    assert_eq!(tra.get(1), Some(Transform(Pt::new(i32::MAX, 0))));
    let mut tra = Storage::new();
    tra.insert(0, Transform(Pt::new(1, 1)));
    tra.insert(1, Transform(Pt::new(1, 1)));
    tra.insert(7, Transform(Pt::new(9, 9)));
    settle(&mut tra, &bodies, &vec![(i128::MAX, i128::MIN), (5, 6)]);
    assert_eq!(tra.get(0), Some(Transform(Pt::new(i32::MAX, i32::MIN))));
    assert_eq!(tra.get(1), Some(Transform(Pt::new(6, 7))));
    assert_eq!(tra.get(7), Some(Transform(Pt::new(9, 9))));
}

#[test]
fn sweep_hands_over_the_pairs_whose_intervals_meet() {
    // 0 and 1 meet on x and overlap; 0 and 2 meet on x only; 3 is far on x
    let bodies = vec![body(0, 0, 10), body(15, 0, 10), body(3, 1000, 10), body(100, 0, 10)];
    let mut sweep = CollisionSystem::new();
    assert_eq!(sweep.candidates(&bodies), vec![(0, 2), (0, 1), (2, 1)]);
    // along y, 2 meets nobody
    let mut sweep = CollisionSystem::along(Axis::Y);
    assert_eq!(as_set(&sweep.candidates(&bodies)), vec![(0, 1), (0, 3), (1, 3)]);
}

#[test]
fn sweep_does_not_pair_intervals_that_only_touch() {
    let bodies = vec![body(0, 0, 10), body(20, 0, 10), body(40, 0, 10)];
    let mut sweep = CollisionSystem::new();
    assert_eq!(sweep.candidates(&bodies), Vec::<(usize, usize)>::new());
}

#[test]
fn grid_hands_over_the_pairs_in_touching_cells() {
    // cells of side 100 from the low edge of the range: 0 and 1 share a cell,
    // 2 is in the next cell, 3 two cells on, 4 diagonal to 3
    let low = i32::MIN;
    let bodies = vec![
        body(low + 10, low + 10, 1),
        body(low + 90, low + 90, 1),
        body(low + 110, low + 10, 1),
        body(low + 310, low + 10, 1),
        body(low + 250, low + 150, 1),
    ];
    let mut grid = GridCollisionSystem::new(100, 5).unwrap();
    assert_eq!(as_set(&grid.candidates(&bodies)), vec![(0, 1), (0, 2), (1, 2), (2, 4), (3, 4)]);
    // none of them is within the threshold
    assert_eq!(grid.detect(&bodies), Vec::<(usize, usize)>::new());
}

#[test]
fn narrow_test_keeps_the_contacts_in_their_order() {
    let bodies = vec![body(0, 0, 10), body(15, 0, 10), body(3, 1000, 10), body(100, 0, 10)];
    let cands = vec![(0usize, 2usize), (1, 0), (2, 1), (3, 0), (0, 1)];
    assert_eq!(confirm(Rule::Separate, &bodies, &cands), vec![(1, 0), (0, 1)]);
    assert_eq!(confirm(Rule::Nudge { scale: 2000, threshold: 1001 }, &bodies, &cands), cands);
    assert_eq!(confirm(Rule::Nudge { scale: 2000, threshold: 16 }, &bodies, &cands), vec![(1, 0), (0, 1)]);
    assert_eq!(confirm(Rule::Separate, &bodies, &vec![]), vec![]);
}
