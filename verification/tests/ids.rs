use raw_map::ids::{OriginalBuilding, OriginalIntersection, OriginalRoad};
use raw_map::order::Key;
use raw_map::text;

fn node(id: i64) -> OriginalIntersection {
    OriginalIntersection { osm_node_id: id }
}

fn road(way: i64, a: i64, b: i64) -> OriginalRoad {
    OriginalRoad { osm_way_id: way, i1: node(a), i2: node(b) }
}

#[test]
fn ids_in_words() {
    assert_eq!(
        road(-12, 305, 0).to_string(),
        "OriginalRoad(way -12 between node 305 to 0)".to_string()
    );
    assert_eq!(node(42).to_string(), "OriginalIntersection(42)".to_string());
    assert_eq!(
        OriginalBuilding { osm_way_id: -7 }.to_string(),
        "OriginalBuilding(-7)".to_string()
    );
}

#[test]
fn decimal_text() {
    for n in [0i64, 1, 9, 10, 99, 100, 1234567890, -1, -10, i64::MAX, i64::MIN] {
        assert_eq!(text::from_i64(n), format!("{}", n));
    }
    for n in [0u128, 7, 10, 1000, u128::MAX] {
        assert_eq!(text::from_u128(n), format!("{}", n));
    }
}

#[test]
fn roads_are_ordered_by_way_then_ends() {
    let sorted = vec![road(-1, 9, 9), road(1, 1, 5), road(1, 1, 6), road(1, 2, 0), road(2, 0, 0)];
    for i in 0..sorted.len() {
        for j in 0..sorted.len() {
            assert_eq!(sorted[i].is_before(&sorted[j]), i < j);
            assert_eq!(sorted[i].is_before(&sorted[j]), sorted[i] < sorted[j]);
            assert_eq!(sorted[i].is_same(&sorted[j]), i == j);
        }
    }
}

#[test]
fn intersections_and_buildings_are_ordered_by_id() {
    assert!(node(-3).is_before(&node(2)));
    assert!(!node(2).is_before(&node(2)));
    assert!(OriginalBuilding { osm_way_id: 1 }.is_before(&OriginalBuilding { osm_way_id: 2 }));
    assert!(!OriginalBuilding { osm_way_id: 2 }.is_before(&OriginalBuilding { osm_way_id: 1 }));
}
