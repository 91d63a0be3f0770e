use raw_map::geometry::{GPSBounds, Pt2D};
use raw_map::ids::{OriginalBuilding, OriginalIntersection, OriginalRoad};
use raw_map::osm;
use raw_map::preview::{RoadSurface, Side};
use raw_map::raw::{IntersectionType, RawArea, RawBuilding, RawIntersection, RawMap, RawRoad};
use raw_map::restriction::RestrictionType;
use raw_map::tags::Tags;

fn node(id: i64) -> OriginalIntersection {
    OriginalIntersection { osm_node_id: id }
}

fn road(way: i64, a: i64, b: i64) -> OriginalRoad {
    OriginalRoad { osm_way_id: way, i1: node(a), i2: node(b) }
}

fn pt(x: i64, y: i64) -> Pt2D {
    Pt2D { x, y }
}

fn bounds() -> GPSBounds {
    GPSBounds { min_lon: 1, min_lat: 2, max_lon: 3, max_lat: 4 }
}

fn add_node(m: &mut RawMap, id: i64, t: IntersectionType) {
    let i = RawIntersection { point: pt(id, 0), intersection_type: t, label: None, synthetic: false };
    m.intersections.insert(node(id), i);
}

fn add_road(m: &mut RawMap, id: OriginalRoad, to: Vec<(RestrictionType, OriginalRoad)>) {
    let r = RawRoad {
        center_points: vec![pt(id.i1.osm_node_id, 0), pt(0, 77), pt(id.i2.osm_node_id, 0)],
        osm_tags: Tags::new(),
        turn_restrictions: to,
    };
    m.roads.insert(id, r);
}

fn sample() -> RawMap {
    let mut m = RawMap::blank("sample".to_string(), bounds());
    add_node(&mut m, 1, IntersectionType::StopSign);
    add_node(&mut m, 2, IntersectionType::StopSign);
    add_node(&mut m, 3, IntersectionType::TrafficSignal);
    add_node(&mut m, 4, IntersectionType::Border);
    add_road(&mut m, road(10, 1, 2), vec![]);
    add_road(&mut m, road(11, 2, 3), vec![]);
    add_road(&mut m, road(12, 3, 4), vec![]);
    m
}

#[test]
fn blank_has_nothing_on_it() {
    let m = RawMap::blank("empty".to_string(), bounds());
    assert_eq!(m.name, "empty".to_string());
    assert_eq!(m.roads.len(), 0);
    assert_eq!(m.intersections.len(), 0);
    assert_eq!(m.buildings.len(), 0);
    assert_eq!(m.areas.len(), 0);
    assert_eq!(m.gps_bounds, bounds());
}

#[test]
fn roads_at_an_intersection() {
    let mut m = sample();
    add_road(&mut m, road(9, 2, 2), vec![]);
    assert_eq!(
        m.roads_per_intersection(node(2)),
        vec![road(9, 2, 2), road(10, 1, 2), road(11, 2, 3)]
    );
    assert_eq!(m.roads_per_intersection(node(99)), vec![]);
    assert!(!m.can_delete_intersection(node(2)));
    assert!(m.can_delete_intersection(node(99)));
}

#[test]
fn deleting_a_road_takes_restrictions_along() {
    let mut m = sample();
    let r = road(11, 2, 3);
    m.roads.remove(&r);
    add_road(&mut m, r, vec![(RestrictionType::BanTurns, r), (RestrictionType::BanTurns, road(12, 3, 4))]);
    add_road(
        &mut m,
        road(12, 3, 4),
        vec![
            (RestrictionType::BanTurns, r),
            (RestrictionType::OnlyAllowTurns, road(10, 1, 2)),
            (RestrictionType::OnlyAllowTurns, r),
        ],
    );
    add_road(&mut m, road(10, 1, 2), vec![(RestrictionType::BanTurns, r)]);
    assert_eq!(
        m.notes_on_deleting(r),
        vec![
            "Deleting OriginalRoad(way 11 between node 2 to 3), but note it has turn restrictions from it"
                .to_string(),
            "Deleting turn restriction from other road OriginalRoad(way 10 between node 1 to 2) to OriginalRoad(way 11 between node 2 to 3)"
                .to_string(),
            "Deleting turn restriction from other road OriginalRoad(way 12 between node 3 to 4) to OriginalRoad(way 11 between node 2 to 3)"
                .to_string(),
            "Deleting turn restriction from other road OriginalRoad(way 12 between node 3 to 4) to OriginalRoad(way 11 between node 2 to 3)"
                .to_string(),
        ]
    );
    let deleted = m.delete_road(r);
    assert_eq!(
        deleted,
        vec![
            (road(10, 1, 2), RestrictionType::BanTurns, r),
            (road(12, 3, 4), RestrictionType::BanTurns, r),
            (road(12, 3, 4), RestrictionType::OnlyAllowTurns, r),
        ]
    );
    assert_eq!(m.roads.keys(), vec![road(10, 1, 2), road(12, 3, 4)]);
    assert_eq!(m.roads.get(&road(10, 1, 2)).unwrap().turn_restrictions, vec![]);
    assert_eq!(
        m.roads.get(&road(12, 3, 4)).unwrap().turn_restrictions,
        vec![(RestrictionType::OnlyAllowTurns, road(10, 1, 2))]
    );
    assert_eq!(m.intersections.len(), 4);
}

#[test]
fn deleting_an_intersection() {
    let mut m = sample();
    m.delete_road(road(10, 1, 2));
    assert!(m.can_delete_intersection(node(1)));
    m.delete_intersection(node(1));
    assert_eq!(m.intersections.keys(), vec![node(2), node(3), node(4)]);
    assert_eq!(m.roads.len(), 2);
}

#[test]
fn moving_an_intersection_moves_road_ends() {
    let mut m = sample();
    let fixed = m.move_intersection(node(2), pt(50, 60));
    assert_eq!(fixed, Some(vec![road(10, 1, 2), road(11, 2, 3)]));
    assert_eq!(m.intersections.get(&node(2)).unwrap().point, pt(50, 60));
    assert_eq!(
        m.roads.get(&road(10, 1, 2)).unwrap().center_points,
        vec![pt(1, 0), pt(0, 77), pt(50, 60)]
    );
    assert_eq!(
        m.roads.get(&road(11, 2, 3)).unwrap().center_points,
        vec![pt(50, 60), pt(0, 77), pt(3, 0)]
    );
    assert_eq!(
        m.roads.get(&road(12, 3, 4)).unwrap().center_points,
        vec![pt(3, 0), pt(0, 77), pt(4, 0)]
    );
}

#[test]
fn moving_back_restores_the_map() {
    let mut m = sample();
    m.move_intersection(node(3), pt(-5, -5));
    m.move_intersection(node(3), pt(3, 0));
    let same = sample();
    for r in same.roads.keys() {
        assert!(m.roads.get(&r) == same.roads.get(&r));
    }
    assert!(m.intersections.get(&node(3)) == same.intersections.get(&node(3)));
}

#[test]
fn a_loop_moves_at_its_start_only() {
    let mut m = sample();
    add_road(&mut m, road(20, 3, 3), vec![]);
    m.move_intersection(node(3), pt(8, 8));
    assert_eq!(
        m.roads.get(&road(20, 3, 3)).unwrap().center_points,
        vec![pt(8, 8), pt(0, 77), pt(3, 0)]
    );
    m.move_intersection(node(3), pt(3, 0));
    assert_eq!(
        m.roads.get(&road(20, 3, 3)).unwrap().center_points,
        vec![pt(3, 0), pt(0, 77), pt(3, 0)]
    );
}

#[test]
fn new_ids_go_down_to_the_first_free_one() {
    let mut m = sample();
    assert_eq!(m.new_osm_node_id(-1), -1);
    add_node(&mut m, -1, IntersectionType::StopSign);
    add_node(&mut m, -2, IntersectionType::StopSign);
    add_node(&mut m, -4, IntersectionType::StopSign);
    assert_eq!(m.new_osm_node_id(-1), -3);
    assert_eq!(m.new_osm_node_id(-4), -5);

    assert_eq!(m.new_osm_way_id(-1), -1);
    add_road(&mut m, road(-1, 1, 2), vec![]);
    m.buildings.insert(OriginalBuilding { osm_way_id: -2 }, RawBuilding { osm_tags: Tags::new() });
    m.areas.push(RawArea { osm_tags: Tags::new(), osm_id: -3 });
    assert_eq!(m.new_osm_way_id(-1), -4);
    assert_eq!(m.new_osm_way_id(i64::MIN), i64::MIN);
}

#[test]
fn ids_can_run_out() {
    let mut m = sample();
    assert_eq!(m.free_node_id(4), Some(0));
    assert_eq!(m.free_node_id(i64::MIN), Some(i64::MIN));
    add_node(&mut m, i64::MIN, IntersectionType::StopSign);
    assert_eq!(m.free_node_id(i64::MIN), None);
    assert_eq!(m.free_node_id(i64::MIN + 1), Some(i64::MIN + 1));

    assert_eq!(m.free_way_id(12), Some(9));
    add_road(&mut m, road(i64::MIN, 1, 2), vec![]);
    m.areas.push(RawArea { osm_tags: Tags::new(), osm_id: i64::MIN + 1 });
    assert_eq!(m.free_way_id(i64::MIN + 1), None);
    assert_eq!(m.free_way_id(i64::MIN + 2), Some(i64::MIN + 2));
}

#[test]
fn restrictions_need_a_common_intersection() {
    let m = sample();
    assert!(m.can_add_turn_restriction(road(1, 1, 2), road(2, 2, 3)));
    assert!(m.can_add_turn_restriction(road(1, 1, 2), road(2, 3, 1)));
    assert!(m.can_add_turn_restriction(road(1, 1, 2), road(1, 1, 2)));
    assert!(!m.can_add_turn_restriction(road(1, 1, 2), road(2, 3, 4)));
}

#[test]
fn synthetic_roads_are_tagged() {
    let mut m = sample();
    let mut r = m.roads.remove(&road(10, 1, 2)).unwrap();
    assert!(!r.synthetic());
    r.osm_tags.insert(osm::SYNTHETIC.to_string(), "false".to_string());
    assert!(!r.synthetic());
    r.osm_tags.insert(osm::SYNTHETIC.to_string(), "true".to_string());
    assert!(r.synthetic());
}

#[test]
fn previews() {
    let m = sample();
    let p = m.preview_intersection(node(3));
    assert_eq!(p.id, node(3));
    assert_eq!(p.roads, vec![road(11, 2, 3), road(12, 3, 4)]);
    assert_eq!(p.intersection_type, IntersectionType::TrafficSignal);
    assert_eq!(
        RoadSurface::new(70_000, 25_000),
        RoadSurface { side: Side::Right, doubled_shift: 45_000, width: 95_000 }
    );
    assert_eq!(
        RoadSurface::new(25_000, 70_000),
        RoadSurface { side: Side::Left, doubled_shift: 45_000, width: 95_000 }
    );
    assert_eq!(
        RoadSurface::new(5, 5),
        RoadSurface { side: Side::Right, doubled_shift: 0, width: 10 }
    );
}

#[test]
fn values_compare_by_what_they_stand_for() {
    let a = RawIntersection {
        point: pt(1, 2),
        intersection_type: IntersectionType::StopSign,
        label: Some("a".to_string()),
        synthetic: false,
    };
    let mut b = a.clone();
    assert!(a == b);
    b.label = None;
    assert!(a != b);
    b.label = Some("a".to_string());
    b.point = pt(2, 1);
    assert!(a != b);

    let m = sample();
    let r = m.roads.get(&road(10, 1, 2)).unwrap();
    let mut s = r.clone();
    assert!(*r == s);
    s.turn_restrictions.push((RestrictionType::BanTurns, road(11, 2, 3)));
    assert!(*r != s);
}

#[test]
fn the_last_move_counts() {
    let mut twice = sample();
    twice.move_intersection(node(2), pt(50, 60));
    twice.move_intersection(node(2), pt(7, 8));
    let mut once = sample();
    once.move_intersection(node(2), pt(7, 8));
    for r in once.roads.keys() {
        assert!(once.roads.get(&r) == twice.roads.get(&r));
    }
    assert!(once.intersections.get(&node(2)) == twice.intersections.get(&node(2)));
}
