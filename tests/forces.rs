use brain_hoarders::forces::{
    accumulate_forces, chase_force, creature_forces, flock_force, forces_for_range, index_agents,
    Agent, ApplyForceEvent, CREATURE_ALIGNMENT, CREATURE_CHASE, CREATURE_COHESION,
    CREATURE_COLLISION_AVOIDANCE, CREATURE_SEPARATION,
};
use brain_hoarders::geometry::Vec2i;
use brain_hoarders::grid::CacheGrid;
use brain_hoarders::integrate::{apply_force_event_system, blend_heading};
use brain_hoarders::components::Direction;
use brain_hoarders::geometry::UNIT;

const U: i64 = UNIT;

fn v(x: i64, y: i64) -> Vec2i {
    Vec2i { x, y }
}

fn creature(id: u64, x: i64, y: i64, hx: i64, hy: i64) -> Agent {
    Agent {
        id,
        position: v(x, y),
        heading: v(hx, hy),
        kind: Some(100),
        size: 10,
        follow: None,
        target: None,
        attack_cooldown: 0,
    }
}

fn grid_of(agents: &Vec<Agent>) -> CacheGrid {
    let mut g = CacheGrid::new();
    for a in agents {
        g.update_entity(a.id, a.position);
    }
    g
}

#[test]
fn follow_far_from_owner_emits_one_follow_force() {
    let mut a = creature(1, 80, 0, 0, U);
    a.follow = Some(50);
    let players = vec![(100u64, v(0, 0))];
    let events = chase_force(&a, &players);
    assert_eq!(events, vec![ApplyForceEvent(1, v(-U, 0), CREATURE_CHASE)]);
}

#[test]
fn follow_near_owner_emits_nothing() {
    let mut a = creature(1, 30, 0, 0, U);
    a.follow = Some(50);
    let players = vec![(100u64, v(0, 0))];
    assert!(chase_force(&a, &players).is_empty());
}

#[test]
fn target_overrides_follow() {
    let mut a = creature(1, 0, 0, 0, U);
    a.follow = Some(50);
    a.target = Some(200);
    let players = vec![(100u64, v(0, 80)), (200u64, v(0, -40))];
    assert_eq!(chase_force(&a, &players), vec![ApplyForceEvent(1, v(0, -U), CREATURE_CHASE)]);
}

#[test]
fn missing_target_is_a_soft_miss() {
    let mut a = creature(1, 0, 0, 0, U);
    a.target = Some(999);
    let players = vec![(100u64, v(0, 80))];
    assert!(chase_force(&a, &players).is_empty());
}

#[test]
fn close_pair_emits_avoidance_flocking_and_separation() {
    let agents = vec![creature(1, 0, 0, 0, U), creature(2, 20, 0, 0, -U)];
    let index = index_agents(&agents);
    let cands = vec![1u64, 2u64];
    let events = flock_force(&agents, &index, 0, &cands);
    assert_eq!(
        events,
        vec![
            ApplyForceEvent(1, v(-U, 0), CREATURE_COLLISION_AVOIDANCE),
            ApplyForceEvent(1, v(U, 0), CREATURE_COHESION),
            ApplyForceEvent(1, v(0, -U), CREATURE_ALIGNMENT),
            ApplyForceEvent(1, v(-U, 0), CREATURE_SEPARATION),
        ]
    );
}

#[test]
fn other_kinds_only_trigger_avoidance() {
    let mut b = creature(2, 15, 0, 0, -U);
    b.kind = Some(7);
    let agents = vec![creature(1, 0, 0, 0, U), b];
    let index = index_agents(&agents);
    let events = flock_force(&agents, &index, 0, &vec![2u64, 1u64, 55u64]);
    assert_eq!(events, vec![ApplyForceEvent(1, v(-U, 0), CREATURE_COLLISION_AVOIDANCE)]);
}

#[test]
fn far_mate_only_coheres_and_aligns() {
    let agents = vec![creature(1, 0, 0, 0, U), creature(2, 0, 100, U, 0)];
    let index = index_agents(&agents);
    let events = flock_force(&agents, &index, 0, &vec![2u64]);
    assert_eq!(
        events,
        vec![
            ApplyForceEvent(1, v(0, U), CREATURE_COHESION),
            ApplyForceEvent(1, v(U, 0), CREATURE_ALIGNMENT),
        ]
    );
}

#[test]
fn separation_turns_close_pair_apart() {
    let mut agents = vec![creature(1, 0, 0, 0, U), creature(2, 20, 0, 0, -U)];
    let index = index_agents(&agents);
    let grid = grid_of(&agents);
    let events = accumulate_forces(&agents, &index, &vec![], &grid, 1);
    apply_force_event_system(&mut agents, &index, &events);
    assert!(agents[0].heading.x < 0);
    assert!(agents[1].heading.x > 0);
}

#[test]
fn close_pair_headings_match_the_blend_fold() {
    let mut agents = vec![creature(1, 0, 0, 0, U), creature(2, 30, 0, 0, -U)];
    let index = index_agents(&agents);
    let grid = grid_of(&agents);
    let events = accumulate_forces(&agents, &index, &vec![], &grid, 1);
    assert_eq!(events.len(), 6);
    apply_force_event_system(&mut agents, &index, &events);
    let mut h = (0.0f64, 1.0f64);
    for (d, w) in [((1.0, 0.0), 5.0), ((0.0, -1.0), 15.0), ((-1.0, 0.0), 3.0)] {
        let t: f64 = w / 60.0;
        let x = h.0 + (d.0 - h.0) * t;
        let y = h.1 + (d.1 - h.1) * t;
        let l = (x * x + y * y).sqrt();
        h = (x / l, y / l);
    }
    let a = (agents[0].heading.x as f64 / U as f64, agents[0].heading.y as f64 / U as f64);
    let b = (agents[1].heading.x as f64 / U as f64, agents[1].heading.y as f64 / U as f64);
    assert!((a.0 - h.0).abs() < 1e-3 && (a.1 - h.1).abs() < 1e-3);
    assert!((b.0 + h.0).abs() < 1e-3 && (b.1 + h.1).abs() < 1e-3);
    assert!((a.0 - 0.0832).abs() < 1e-3 && (a.1 - 0.9965).abs() < 1e-3);
}

#[test]
fn events_of_different_creatures_commute() {
    let base = vec![creature(1, 0, 0, 0, U), creature(2, 30, 0, 0, -U)];
    let index = index_agents(&base);
    let e1 = ApplyForceEvent(1, v(U, 0), 5);
    let e2 = ApplyForceEvent(2, v(-U, 0), 5);
    let e3 = ApplyForceEvent(1, v(0, -U), 15);
    let mut a = base.clone();
    apply_force_event_system(&mut a, &index, &vec![e1, e2, e3]);
    let mut b = base.clone();
    apply_force_event_system(&mut b, &index, &vec![e2, e1, e3]);
    let mut c = base.clone();
    apply_force_event_system(&mut c, &index, &vec![e1, e3, e2]);
    assert_eq!(a, b);
    assert_eq!(a, c);
}

#[test]
fn worker_count_does_not_change_forces() {
    let mut agents = Vec::new();
    for i in 0..23u64 {
        let x = (i as i64 % 5) * 17 - 30;
        let y = (i as i64 / 5) * 13 - 20;
        let mut a = creature(i + 1, x, y, if i % 2 == 0 { U } else { 0 }, if i % 2 == 0 { 0 } else { -U });
        if i % 3 == 0 {
            a.kind = Some(101);
            a.follow = Some(10);
        }
        agents.push(a);
    }
    let index = index_agents(&agents);
    let grid = grid_of(&agents);
    let players = vec![(100u64, v(200, 0)), (101u64, v(-200, 0))];
    let one = accumulate_forces(&agents, &index, &players, &grid, agents.len());
    assert!(!one.is_empty());
    for chunk in 1..8usize {
        assert_eq!(accumulate_forces(&agents, &index, &players, &grid, chunk), one);
    }
    let mut joined = forces_for_range(&agents, &index, &players, &grid, 0, 10);
    joined.extend(forces_for_range(&agents, &index, &players, &grid, 10, 23));
    assert_eq!(joined, one);
    let mut each = Vec::new();
    for i in 0..agents.len() {
        each.extend(creature_forces(&agents, &index, &players, &grid, i));
    }
    assert_eq!(each, one);
}

#[test]
fn blend_heading_values() {
    assert_eq!(blend_heading(v(0, U), v(-U, 0), 4), v(-1195327, 16734580));
    assert_eq!(blend_heading(v(0, U), v(U, 0), 15), v(5305422, 15916265));
    let b = blend_heading(v(0, U), v(U, 0), 5);
    let (x, y) = (b.x as f64 / U as f64, b.y as f64 / U as f64);
    assert!(((x * x + y * y).sqrt() - 1.0).abs() < 1e-6);
    assert_eq!(blend_heading(v(0, U), v(0, U), 15), v(0, U));
    assert_eq!(blend_heading(v(0, U), v(0, -U), 30), v(0, U));
}

#[test]
fn direction_lerp_turns_toward_target() {
    let mut d = Direction(v(0, U));
    d.lerp(v(U, 0), 15);
    assert_eq!(d.0, blend_heading(v(0, U), v(U, 0), 15));
    assert!(d.0.x > 0);
}

#[test]
fn events_for_unknown_or_headingless_creatures_are_skipped() {
    let mut agents = vec![creature(1, 0, 0, 0, 0), creature(2, 50, 0, 0, U)];
    let index = index_agents(&agents);
    let events = vec![
        ApplyForceEvent(1, v(U, 0), 15),
        ApplyForceEvent(77, v(U, 0), 15),
        ApplyForceEvent(2, v(5 * U, 0), 15),
    ];
    apply_force_event_system(&mut agents, &index, &events);
    assert_eq!(agents[0].heading, v(0, 0));
    assert_eq!(agents[1].heading, v(0, U));
}
