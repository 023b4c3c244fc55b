use brain_hoarders::geometry::{div_floor, isqrt, normalize, Vec2i};
use brain_hoarders::grid::{cache_grid_update_system, CacheGrid};
use brain_hoarders::geometry::UNIT;

const U: i64 = UNIT;

fn v(x: i64, y: i64) -> Vec2i {
    Vec2i { x, y }
}

fn sorted(mut ids: Vec<u64>) -> Vec<u64> {
    ids.sort();
    ids
}

#[test]
fn empty_grid_query_is_empty() {
    let g = CacheGrid::new();
    assert!(g.get_nearby_entities(v(0, 0), 110).is_empty());
}

#[test]
fn query_finds_entities_within_radius() {
    let mut g = CacheGrid::new();
    g.update_entity(1, v(0, 0));
    g.update_entity(2, v(50, 50));
    g.update_entity(3, v(-75, 30));
    g.update_entity(4, v(500, 500));
    let found = g.get_nearby_entities(v(0, 0), 110);
    assert!(found.contains(&1));
    assert!(found.contains(&2));
    assert!(found.contains(&3));
    assert!(!found.contains(&4));
}

#[test]
fn query_finds_entity_on_negative_cell_border() {
    let mut g = CacheGrid::new();
    g.update_entity(7, v(-20, -1));
    let found = g.get_nearby_entities(v(-15, 0), 5);
    assert!(found.contains(&7));
}

#[test]
fn query_never_repeats_an_entity() {
    let mut g = CacheGrid::new();
    for id in 0..30u64 {
        g.update_entity(id, v((id as i64) * 7 - 100, (id as i64) * 3 - 40));
    }
    let found = g.get_nearby_entities(v(0, 0), 200);
    let mut dedup = sorted(found.clone());
    dedup.dedup();
    assert_eq!(dedup.len(), found.len());
    assert_eq!(found.len(), 30);
}

#[test]
fn moving_entity_leaves_old_cell_and_prunes_it() {
    let mut g = CacheGrid::new();
    g.update_entity(1, v(5, 5));
    g.update_entity(1, v(300, 300));
    assert!(!g.get_nearby_entities(v(5, 5), 10).contains(&1));
    assert!(g.get_nearby_entities(v(300, 300), 10).contains(&1));
    assert_eq!(g.grid.len(), 1);
    assert_eq!(g.associations.len(), 1);
}

#[test]
fn update_within_same_cell_keeps_bucket() {
    let mut g = CacheGrid::new();
    g.update_entity(1, v(1, 1));
    g.update_entity(2, v(2, 2));
    g.update_entity(1, v(3, 3));
    let key = *g.associations.get(&1).unwrap();
    assert_eq!(g.grid.get(&key).unwrap(), &vec![1, 2]);
}

#[test]
fn remove_and_readd_keeps_query_members() {
    let mut g = CacheGrid::new();
    g.update_entity(1, v(10, 10));
    g.update_entity(2, v(12, 14));
    g.update_entity(3, v(-40, 60));
    let before = sorted(g.get_nearby_entities(v(0, 0), 110));
    g.remove_entity(1);
    assert!(!g.get_nearby_entities(v(0, 0), 110).contains(&1));
    g.update_entity(1, v(10, 10));
    let after = sorted(g.get_nearby_entities(v(0, 0), 110));
    assert_eq!(before, after);
}

#[test]
fn remove_last_entity_empties_grid() {
    let mut g = CacheGrid::new();
    g.update_entity(9, v(0, 0));
    g.remove_entity(9);
    assert!(g.grid.is_empty());
    assert!(g.associations.is_empty());
    g.remove_entity(9);
    assert!(g.grid.is_empty());
}

#[test]
fn grid_update_system_records_changes_in_order() {
    let mut g = CacheGrid::new();
    cache_grid_update_system(&mut g, &vec![(1, v(0, 0)), (2, v(100, 0)), (1, v(100, 5))]);
    let found = g.get_nearby_entities(v(100, 0), 10);
    assert!(found.contains(&1));
    assert!(found.contains(&2));
    assert!(!g.get_nearby_entities(v(0, 0), 5).contains(&1));
}

#[test]
fn integer_square_root_values() {
    assert_eq!(isqrt(0), 0);
    assert_eq!(isqrt(1), 1);
    assert_eq!(isqrt(24), 4);
    assert_eq!(isqrt(25), 5);
    assert_eq!(isqrt(918560), 958);
    assert_eq!(isqrt(4611686018427387903), 2147483647);
}

#[test]
fn normalize_values() {
    assert_eq!(normalize(3, 4), Some(v(10066330, 13421773)));
    assert_eq!(normalize(-3, -4), Some(v(-10066330, -13421773)));
    let (x, y) = match normalize(30, 40) { Some(d) => (d.x as f64 / U as f64, d.y as f64 / U as f64), None => (0.0, 0.0) };
    assert!(((x * x + y * y).sqrt() - 1.0).abs() < 1e-6);
    assert_eq!(normalize(0, -7), Some(v(0, -U)));
    assert_eq!(normalize(0, 0), None);
}

#[test]
fn floor_division_rounds_down() {
    assert_eq!(div_floor(-1, 20), -1);
    assert_eq!(div_floor(-20, 20), -1);
    assert_eq!(div_floor(-21, 20), -2);
    assert_eq!(div_floor(19, 20), 0);
    assert_eq!(div_floor(40, 20), 2);
}
